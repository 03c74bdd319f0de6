//! Errors produced while parsing or rebuilding a save file.
use vstd::prelude::*;

use crate::text::{decimal_chars, push_decimal, push_signed_decimal, signed_decimal_chars};

verus! {

/// Errors produced while parsing or rebuilding a save file.
#[derive(Debug)]
pub enum Error {
    /// No valid compressed chunk header was found anywhere in the file.
    NoChunkStream,
    /// A chunk header was structurally invalid at the given file offset.
    MalformedChunk { offset: usize, reason: String },
    /// A chunk declared a compression format this crate does not handle.
    UnsupportedCompression(u8),
    /// The zlib stream inside a chunk failed to inflate.
    Inflate { offset: usize, source: String },
    /// The prefix did not contain exactly two EOF-relative size fields.
    SizeFieldCount(usize),
    /// The save's inner-archive version is one this operation cannot handle.
    UnsupportedArchiveVersion(i32),
    /// A declared size or offset points outside the file.
    OutOfBounds { what: &'static str, value: usize, len: usize },
}

/// Mathematical value of an [`Error`], with texts as character sequences.
pub enum ErrorModel {
    NoChunkStream,
    MalformedChunk { offset: usize, reason: Seq<char> },
    UnsupportedCompression(u8),
    Inflate { offset: usize, source: Seq<char> },
    SizeFieldCount(usize),
    UnsupportedArchiveVersion(i32),
    OutOfBounds { what: Seq<char>, value: usize, len: usize },
}

impl View for Error {
    type V = ErrorModel;

    open spec fn view(&self) -> ErrorModel {
        match self {
            Error::NoChunkStream => ErrorModel::NoChunkStream,
            Error::MalformedChunk { offset, reason } => ErrorModel::MalformedChunk {
                offset: *offset,
                reason: reason@,
            },
            Error::UnsupportedCompression(b) => ErrorModel::UnsupportedCompression(*b),
            Error::Inflate { offset, source } => ErrorModel::Inflate {
                offset: *offset,
                source: source@,
            },
            Error::SizeFieldCount(n) => ErrorModel::SizeFieldCount(*n),
            Error::UnsupportedArchiveVersion(v) => ErrorModel::UnsupportedArchiveVersion(*v),
            Error::OutOfBounds { what, value, len } => ErrorModel::OutOfBounds {
                what: what@,
                value: *value,
                len: *len,
            },
        }
    }
}

/// `Result` with this crate's [`Error`].
pub type Result<T> = std::result::Result<T, Error>;

/// The human-readable message of an error.
pub open spec fn error_message(e: ErrorModel) -> Seq<char> {
    match e {
        ErrorModel::NoChunkStream => "no compressed chunk stream found (not a world save?)"@,
        ErrorModel::MalformedChunk { offset, reason } => "malformed chunk header at offset "@
            + decimal_chars(offset as nat) + ": "@ + reason,
        ErrorModel::UnsupportedCompression(b) => "unsupported compression format "@
            + decimal_chars(b as nat) + " (only zlib is known)"@,
        ErrorModel::Inflate { offset, source } => "zlib inflate failed at offset "@
            + decimal_chars(offset as nat) + ": "@ + source,
        ErrorModel::SizeFieldCount(n) => "expected 2 EOF-relative size fields in prefix, found "@
            + decimal_chars(n as nat),
        ErrorModel::UnsupportedArchiveVersion(v) => "unsupported archive version "@
            + signed_decimal_chars(v as int) + " for this operation"@,
        ErrorModel::OutOfBounds { what, value, len } => what + " out of bounds: "@ + decimal_chars(
            value as nat,
        ) + " (file len "@ + decimal_chars(len as nat) + ")"@,
    }
}

impl Error {
    /// The human-readable message of this error.
    pub fn message(&self) -> (r: String)
        ensures
            r@ == error_message(self@),
    {
        let mut s = String::new();
        match self {
            Error::NoChunkStream => {
                s.append("no compressed chunk stream found (not a world save?)");
            },
            Error::MalformedChunk { offset, reason } => {
                s.append("malformed chunk header at offset ");
                push_decimal(&mut s, *offset as u64);
                s.append(": ");
                s.append(reason.as_str());
            },
            Error::UnsupportedCompression(b) => {
                s.append("unsupported compression format ");
                push_decimal(&mut s, *b as u64);
                s.append(" (only zlib is known)");
            },
            Error::Inflate { offset, source } => {
                s.append("zlib inflate failed at offset ");
                push_decimal(&mut s, *offset as u64);
                s.append(": ");
                s.append(source.as_str());
            },
            Error::SizeFieldCount(n) => {
                s.append("expected 2 EOF-relative size fields in prefix, found ");
                push_decimal(&mut s, *n as u64);
            },
            Error::UnsupportedArchiveVersion(v) => {
                s.append("unsupported archive version ");
                push_signed_decimal(&mut s, *v as i64);
                s.append(" for this operation");
            },
            Error::OutOfBounds { what, value, len } => {
                s.append(what);
                s.append(" out of bounds: ");
                push_decimal(&mut s, *value as u64);
                s.append(" (file len ");
                push_decimal(&mut s, *len as u64);
                s.append(")");
            },
        }
        assert(s@ =~= error_message(self@));
        s
    }
}

} // verus!
