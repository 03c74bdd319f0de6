//! Outer file framing: plaintext prefix + UE `SerializeCompressed` zlib chunks.
//!
//! Layout of a world save (`*-ACT<n>-day-<d>-v-6.sav`):
//!
//! ```text
//! [plaintext prefix: header, ElbSaveMeta, load-screen details, GUID lists]
//! [chunk]*                          <- until EOF
//! ```
//!
//! The prefix contains exactly two little-endian `i32` fields whose value
//! equals `file_len - offset - 4` ("bytes from here to EOF"): the
//! inner-archive size and the compressed-payload size. Both are rewritten
//! whenever the compressed payload changes length.
//!
//! Each chunk is:
//!
//! ```text
//! [u64 tag 0x22222222_9E2A83C1] [u64 chunk_size 0x20000] [u8 format (3 = zlib)]
//! [u64 total_compressed] [u64 total_uncompressed]
//! [u64 compressed] [u64 uncompressed]
//! [compressed bytes]
//! ```
//!
//! Every chunk carries exactly one 128 KiB block (the last one smaller), so
//! the total and per-chunk size pairs are always equal.
use vstd::prelude::*;

use crate::bytes::{
    push_u64, read_i32, read_u64, set_i32, spec_read_i32, spec_read_u64, spec_write_i32, u64_le,
    u64_le_bytes, matches_at,
};
use crate::error::{Error, ErrorModel, Result};
use crate::search::{as_ints, find_all, occurrences};
use crate::text::{decimal_chars, push_decimal};
use crate::fits_address_space;

verus! {

/// Little-endian bytes of the chunk tag's low word, `0x9E2A83C1`.
pub const CHUNK_MAGIC: [u8; 4] = [0xc1, 0x83, 0x2a, 0x9e];

/// The 64-bit tag that opens every chunk header.
pub const CHUNK_TAG: u64 = 0x2222_2222_9E2A_83C1;

/// Uncompressed block size of a chunk.
pub const CHUNK_BLOCK: usize = 0x2_0000;

/// Length of a chunk header.
pub const CHUNK_HEADER_LEN: usize = 49;

/// Smallest value accepted for an EOF-relative size field.
pub const MIN_SIZE_FIELD: i64 = 1000;

/// Largest inner-archive version accepted in the inner header signature.
pub const MAX_ARCHIVE_VERSION: i32 = 64;

/// The `01 00 00 00` that follows the archive version in the inner header.
pub const INNER_SIGNATURE: [u8; 4] = [0x01, 0x00, 0x00, 0x00];

/// Compression format byte from a chunk header.
#[derive(Debug, Clone, Copy, PartialEq, Eq, Structural)]
pub enum CompressionFormat {
    Zlib,
    Unknown(u8),
}

/// Inner-archive serialization version, read from the version int that
/// follows the inner-archive size field.
///
/// Observed values: `2` (game builds around late 2025) and `3` (current).
#[derive(Debug, Clone, Copy, PartialEq, Eq, Structural)]
pub enum ArchiveVersion {
    V2,
    V3,
    Other(i32),
}

/// The format a header byte denotes.
pub open spec fn spec_compression_format(value: u8) -> CompressionFormat {
    if value == 3 {
        CompressionFormat::Zlib
    } else {
        CompressionFormat::Unknown(value)
    }
}

/// The version a version int denotes.
pub open spec fn spec_archive_version(value: i32) -> ArchiveVersion {
    if value == 2 {
        ArchiveVersion::V2
    } else if value == 3 {
        ArchiveVersion::V3
    } else {
        ArchiveVersion::Other(value)
    }
}

impl From<i32> for ArchiveVersion {
    fn from(value: i32) -> (r: Self) {
        match value {
            2 => Self::V2,
            3 => Self::V3,
            other => Self::Other(other),
        }
    }
}

impl vstd::std_specs::convert::FromSpecImpl<i32> for ArchiveVersion {
    open spec fn obeys_from_spec() -> bool {
        true
    }

    open spec fn from_spec(value: i32) -> Self {
        spec_archive_version(value)
    }
}

impl From<u8> for CompressionFormat {
    fn from(value: u8) -> (r: Self) {
        match value {
            3 => Self::Zlib,
            other => Self::Unknown(other),
        }
    }
}

impl vstd::std_specs::convert::FromSpecImpl<u8> for CompressionFormat {
    open spec fn obeys_from_spec() -> bool {
        true
    }

    open spec fn from_spec(value: u8) -> Self {
        spec_compression_format(value)
    }
}

/// Result of checking the chunk header at `off`: the format byte and the
/// compressed and uncompressed sizes, or the reason it is malformed.
#[verifier::opaque]
pub open spec fn spec_chunk_header(b: Seq<u8>, off: int) -> std::result::Result<
    (u8, int, int),
    Seq<char>,
> {
    match spec_read_u64(b, off) {
        None => Err("truncated tag"@),
        Some(tag) => if tag != CHUNK_TAG {
            Err("bad tag"@)
        } else {
            match spec_read_u64(b, off + 8) {
                None => Err("truncated block size"@),
                Some(block) => if block > usize::MAX {
                    Err("block size overflow"@)
                } else if block != CHUNK_BLOCK {
                    Err("unexpected block size"@)
                } else if off + 16 >= b.len() {
                    Err("truncated format byte"@)
                } else if off + 49 > b.len() {
                    Err("truncated size table"@)
                } else {
                    let total_comp = spec_read_u64(b, off + 17)->Some_0;
                    let total_uncomp = spec_read_u64(b, off + 25)->Some_0;
                    let comp = spec_read_u64(b, off + 33)->Some_0;
                    let uncomp = spec_read_u64(b, off + 41)->Some_0;
                    if total_comp != comp || total_uncomp != uncomp {
                        Err("multi-block chunk (unsupported)"@)
                    } else if comp > usize::MAX || uncomp > usize::MAX {
                        Err("size overflow"@)
                    } else if uncomp > CHUNK_BLOCK {
                        Err("uncompressed size exceeds block size"@)
                    } else {
                        Ok((b[off + 16], comp, uncomp))
                    }
                },
            }
        },
    }
}

struct ChunkHeader {
    format_byte: u8,
    format: CompressionFormat,
    compressed: usize,
    uncompressed: usize,
}

fn malformed(offset: usize, reason: &str) -> (e: Error)
    ensures
        e@ == (ErrorModel::MalformedChunk { offset, reason: reason@ }),
{
    Error::MalformedChunk { offset, reason: reason.to_owned() }
}

fn parse_chunk_header(bytes: &[u8], offset: usize) -> (r: Result<ChunkHeader>)
    ensures
        r matches Ok(h) ==> spec_chunk_header(bytes@, offset as int) == Ok::<(u8, int, int), Seq<char>>(
            (h.format_byte, h.compressed as int, h.uncompressed as int),
        ) && h.format == spec_compression_format(h.format_byte),
        r matches Err(e) ==> spec_chunk_header(bytes@, offset as int) matches Err(reason) && e@ == (
        ErrorModel::MalformedChunk { offset, reason }),
{
    reveal(spec_chunk_header);
    let n = bytes.len();
    let tag = match read_u64(bytes, offset) {
        Some(tag) => tag,
        None => return Err(malformed(offset, "truncated tag")),
    };
    assert(offset + 8 <= n);
    if tag != CHUNK_TAG {
        return Err(malformed(offset, "bad tag"));
    }
    let block = match read_u64(bytes, offset + 8) {
        Some(block) => block,
        None => return Err(malformed(offset, "truncated block size")),
    };
    assert(offset + 16 <= n);
    if block > usize::MAX as u64 {
        return Err(malformed(offset, "block size overflow"));
    }
    let block = block as usize;
    if block != CHUNK_BLOCK {
        return Err(malformed(offset, "unexpected block size"));
    }
    if offset + 16 >= bytes.len() {
        return Err(malformed(offset, "truncated format byte"));
    }
    let format = bytes[offset + 16];
    if n - offset < 49 {
        return Err(malformed(offset, "truncated size table"));
    }
    let (total_comp, total_uncomp, comp, uncomp) = match (
        read_u64(bytes, offset + 17),
        read_u64(bytes, offset + 25),
        read_u64(bytes, offset + 33),
        read_u64(bytes, offset + 41),
    ) {
        (Some(a), Some(b), Some(c), Some(d)) => (a, b, c, d),
        _ => return Err(malformed(offset, "truncated size table")),
    };
    if total_comp != comp || total_uncomp != uncomp {
        return Err(malformed(offset, "multi-block chunk (unsupported)"));
    }
    if comp > usize::MAX as u64 || uncomp > usize::MAX as u64 {
        return Err(malformed(offset, "size overflow"));
    }
    let compressed = comp as usize;
    let uncompressed = uncomp as usize;
    if uncompressed > CHUNK_BLOCK {
        return Err(malformed(offset, "uncompressed size exceeds block size"));
    }
    Ok(ChunkHeader { format_byte: format, format: CompressionFormat::from(format), compressed, uncompressed })
}

/// A well-formed header lies inside `b` and declares sizes that fit.
pub proof fn lemma_header_ok_bounds(b: Seq<u8>, off: int)
    requires
        spec_chunk_header(b, off) is Ok,
    ensures
        0 <= off,
        off + 49 <= b.len(),
        0 <= spec_chunk_header(b, off)->Ok_0.1 <= usize::MAX,
        0 <= spec_chunk_header(b, off)->Ok_0.2 <= CHUNK_BLOCK,
{
    reveal(spec_chunk_header);
    reveal(u64_le);
    reveal(crate::bytes::u32_le);
}

/// The header at `off` is well-formed.
pub open spec fn header_ok(b: Seq<u8>, off: int) -> bool {
    spec_chunk_header(b, off) is Ok
}

/// First position in `cands` at which a well-formed chunk header starts.
pub open spec fn first_header_among(b: Seq<u8>, cands: Seq<int>) -> Option<int>
    decreases cands.len(),
{
    if cands.len() == 0 {
        None
    } else if header_ok(b, cands[0]) {
        Some(cands[0])
    } else {
        first_header_among(b, cands.drop_first())
    }
}

/// Where the chunk stream starts: the first occurrence of the chunk magic
/// at which a well-formed header starts.
pub open spec fn spec_chunk_start(b: Seq<u8>) -> Option<int> {
    first_header_among(b, occurrences(b, CHUNK_MAGIC@))
}

proof fn lemma_first_header_ok(b: Seq<u8>, cands: Seq<int>)
    ensures
        first_header_among(b, cands) matches Some(p) ==> header_ok(b, p),
    decreases cands.len(),
{
    if cands.len() > 0 && !header_ok(b, cands[0]) {
        lemma_first_header_ok(b, cands.drop_first());
    }
}

fn find_chunk_start(bytes: &[u8]) -> (r: Option<usize>)
    ensures
        r matches Some(p) ==> spec_chunk_start(bytes@) == Some(p as int),
        r is None ==> spec_chunk_start(bytes@) is None,
{
    let candidates = find_all(bytes, &CHUNK_MAGIC);
    let ghost all = occurrences(bytes@, CHUNK_MAGIC@);
    let mut i: usize = 0;
    assert(all.subrange(0, all.len() as int) =~= all);
    while i < candidates.len()
        invariant
            as_ints(candidates@) == all,
            all == occurrences(bytes@, CHUNK_MAGIC@),
            i <= candidates@.len(),
            first_header_among(bytes@, all) == first_header_among(
                bytes@,
                all.subrange(i as int, all.len() as int),
            ),
        decreases candidates@.len() - i,
    {
        let candidate = candidates[i];
        assert(all.subrange(i as int, all.len() as int)[0] == candidate as int);
        assert(all.subrange(i as int, all.len() as int).drop_first() =~= all.subrange(
            i + 1,
            all.len() as int,
        ));
        if parse_chunk_header(bytes, candidate).is_ok() {
            return Some(candidate);
        }
        i = i + 1;
    }
    None
}

/// The `i32` at `off` of the prefix equals the number of bytes from just
/// after it to the end of a file of `file_len` bytes, and is at least 1000.
pub open spec fn spec_is_eof_relative(prefix: Seq<u8>, off: int, file_len: int) -> bool {
    match spec_read_i32(prefix, off) {
        Some(v) => off <= i64::MAX && file_len <= i64::MAX && v >= MIN_SIZE_FIELD && off + 4 + v
            == file_len,
        None => false,
    }
}

/// The inner header's version ints follow the field at `off`: a version in
/// `1..=64`, then `01 00 00 00`.
pub open spec fn spec_has_inner_signature(prefix: Seq<u8>, off: int) -> bool {
    match spec_read_i32(prefix, off + 4) {
        Some(v) => 1 <= v <= MAX_ARCHIVE_VERSION && off + 12 <= prefix.len() && prefix.subrange(
            off + 8,
            off + 12,
        ) == INNER_SIGNATURE@,
        None => false,
    }
}

/// Offsets below `n` that hold an inner-archive size field, in order.
pub open spec fn inner_fields_below(prefix: Seq<u8>, file_len: int, n: int) -> Seq<int>
    decreases n,
{
    if n <= 0 {
        Seq::empty()
    } else {
        let earlier = inner_fields_below(prefix, file_len, n - 1);
        if spec_is_eof_relative(prefix, n - 1, file_len) && spec_has_inner_signature(
            prefix,
            n - 1,
        ) {
            earlier.push(n - 1)
        } else {
            earlier
        }
    }
}

/// Offset of the compressed-total field: the last four bytes of the prefix.
pub open spec fn compressed_total_offset(prefix: Seq<u8>) -> int {
    if prefix.len() >= 4 {
        prefix.len() - 4
    } else {
        0
    }
}

/// The two EOF-relative size fields of the prefix, or the count error.
#[verifier::opaque]
pub open spec fn spec_eof_fields(prefix: Seq<u8>, file_len: int) -> std::result::Result<
    (usize, usize),
    ErrorModel,
> {
    let total = compressed_total_offset(prefix);
    if !spec_is_eof_relative(prefix, total, file_len) {
        Err(ErrorModel::SizeFieldCount(0))
    } else {
        let inner = inner_fields_below(
            prefix,
            file_len,
            if prefix.len() >= 3 {
                prefix.len() - 3
            } else {
                0
            },
        );
        if inner.len() != 1 {
            Err(ErrorModel::SizeFieldCount((inner.len() + 1) as usize))
        } else {
            Ok((inner[0] as usize, total as usize))
        }
    }
}

fn has_inner_header_signature(prefix: &[u8], offset: usize) -> (r: bool)
    requires
        offset < prefix@.len(),
        fits_address_space(prefix@.len() as int),
    ensures
        r == spec_has_inner_signature(prefix@, offset as int),
{
    let n = prefix.len();
    let version = match read_i32(prefix, offset + 4) {
        Some(v) => v,
        None => return false,
    };
    if !(1 <= version && version <= MAX_ARCHIVE_VERSION) {
        return false;
    }
    matches_at(prefix, offset + 8, &INNER_SIGNATURE)
}

fn is_eof_relative(prefix: &[u8], offset: usize, file_len: usize) -> (r: bool)
    requires
        fits_address_space(prefix@.len() as int),
    ensures
        r == spec_is_eof_relative(prefix@, offset as int, file_len as int),
{
    let value = match read_i32(prefix, offset) {
        Some(v) => v,
        None => return false,
    };
    if offset as u128 > i64::MAX as u128 || file_len as u128 > i64::MAX as u128 {
        return false;
    }
    let offset = offset as i128;
    let file_len = file_len as i128;
    let value = value as i128;
    value >= MIN_SIZE_FIELD as i128 && offset + 4 + value == file_len
}

/// Locate the two EOF-relative size fields structurally.
///
/// The compressed-total field always occupies the last four bytes of the
/// prefix. The inner-archive field is immediately followed by the inner
/// header's version ints. Requiring both the signature and the EOF
/// relation rules out coincidental matches of the relation alone.
fn find_eof_relative_fields(prefix: &[u8], file_len: usize) -> (r: Result<[usize; 2]>)
    requires
        fits_address_space(prefix@.len() as int),
    ensures
        r matches Ok(f) ==> spec_eof_fields(prefix@, file_len as int) == Ok::<
            (usize, usize),
            ErrorModel,
        >((f[0], f[1])),
        r matches Err(e) ==> spec_eof_fields(prefix@, file_len as int) == Err::<
            (usize, usize),
            ErrorModel,
        >(e@),
{
    reveal(spec_eof_fields);
    let len = prefix.len();
    let compressed_total = if len >= 4 {
        len - 4
    } else {
        0
    };
    if !is_eof_relative(prefix, compressed_total, file_len) {
        return Err(Error::SizeFieldCount(0));
    }
    let limit = if len >= 3 {
        len - 3
    } else {
        0
    };
    let mut inner: Vec<usize> = Vec::new();
    let mut offset: usize = 0;
    while offset < limit
        invariant
            limit <= len == prefix@.len(),
            fits_address_space(prefix@.len() as int),
            offset <= limit,
            as_ints(inner@) == inner_fields_below(prefix@, file_len as int, offset as int),
            inner@.len() <= offset,
        decreases limit - offset,
    {
        let ghost before = inner@;
        if is_eof_relative(prefix, offset, file_len) && has_inner_header_signature(prefix, offset) {
            inner.push(offset);
            assert(as_ints(inner@) =~= as_ints(before).push(offset as int));
        }
        offset = offset + 1;
    }
    if inner.len() != 1 {
        return Err(Error::SizeFieldCount(inner.len() + 1));
    }
    assert(inner@[0] as int == as_ints(inner@)[0]);
    Ok([inner[0], compressed_total])
}

/// Result of inflating one zlib stream with `flate2::read::ZlibDecoder`:
/// the decompressed bytes, or the message of the I/O error it reported.
pub uninterp spec fn zlib_inflate(data: Seq<u8>) -> std::result::Result<Seq<u8>, Seq<char>>;

/// Bytes that `flate2::write::ZlibEncoder` at `Compression::best()` emits
/// for `data`.
pub uninterp spec fn zlib_deflate(data: Seq<u8>) -> Seq<u8>;

/// Inflate one zlib stream.
///
/// Calls `read_to_end` on a `flate2::read::ZlibDecoder` over `data`;
/// trusted to give `zlib_inflate(data)`, the error turned into its message.
#[verifier::external_body]
fn inflate(data: &[u8]) -> (r: std::result::Result<Vec<u8>, String>)
    ensures
        r matches Ok(v) ==> zlib_inflate(data@) is Ok && zlib_inflate(data@)->Ok_0 == v@,
        r matches Err(m) ==> zlib_inflate(data@) is Err && zlib_inflate(data@)->Err_0 == m@,
{
    let mut block = Vec::new();
    let mut decoder = flate2::read::ZlibDecoder::new(data);
    match std::io::Read::read_to_end(&mut decoder, &mut block) {
        Ok(_) => Ok(block),
        Err(source) => Err(source.to_string()),
    }
}

/// Compress `data` into one zlib stream at the best compression level.
///
/// Runs `flate2::write::ZlibEncoder` with `Compression::best()` over a
/// `Vec` (writes to a `Vec` cannot fail); trusted to give
/// `zlib_deflate(data)`, a stream that inflates back to exactly `data`
/// (zlib is lossless).
#[verifier::external_body]
fn deflate_best(data: &[u8]) -> (r: Vec<u8>)
    ensures
        r@ == zlib_deflate(data@),
        zlib_inflate(r@) is Ok && zlib_inflate(r@)->Ok_0 == data@,
{
    let mut encoder = flate2::write::ZlibEncoder::new(Vec::new(), flate2::Compression::best());
    std::io::Write::write_all(&mut encoder, data).expect("write to Vec cannot fail");
    encoder.finish().expect("zlib finish cannot fail")
}

/// Widen a `usize` to `u64`.
///
/// Calls `az::Az::az::<u64>`, which returns the same value when it fits
/// (it always does where `usize` is at most 64 bits wide).
#[verifier::external_body]
fn usize_to_u64(value: usize) -> (r: u64)
    requires
        value <= u64::MAX,
    ensures
        r == value,
{
    az::Az::az::<u64>(value)
}

/// The error for an inflated block whose length differs from its header.
pub open spec fn inflated_length_error(offset: usize, got: int, declared: int) -> ErrorModel {
    ErrorModel::MalformedChunk {
        offset,
        reason: "inflated "@ + decimal_chars(got as nat) + " bytes, header declared "@
            + decimal_chars(declared as nat),
    }
}

/// Decompressed contents of the chunks from `offset` to the end of `b`, or
/// the first error met.
pub open spec fn spec_chunks(b: Seq<u8>, offset: int) -> std::result::Result<Seq<u8>, ErrorModel>
    decreases b.len() - offset,
{
    if offset < 0 || offset >= b.len() {
        Ok(Seq::empty())
    } else {
        match spec_chunk_header(b, offset) {
            Err(reason) => Err(ErrorModel::MalformedChunk { offset: offset as usize, reason }),
            Ok((format, comp, uncomp)) => if format != 3 {
                Err(ErrorModel::UnsupportedCompression(format))
            } else {
                let data_start = offset + CHUNK_HEADER_LEN;
                let data_end = data_start + comp;
                if comp < 0 || data_end > b.len() {
                    Err(
                        ErrorModel::OutOfBounds {
                            what: "chunk data"@,
                            value: if data_end > usize::MAX {
                                usize::MAX
                            } else {
                                data_end as usize
                            },
                            len: b.len() as usize,
                        },
                    )
                } else {
                    match zlib_inflate(b.subrange(data_start, data_end)) {
                        Err(message) => Err(
                            ErrorModel::Inflate { offset: offset as usize, source: message },
                        ),
                        Ok(block) => if block.len() != uncomp {
                            Err(inflated_length_error(offset as usize, block.len() as int, uncomp))
                        } else {
                            match spec_chunks(b, data_end) {
                                Ok(rest) => Ok(block + rest),
                                Err(e) => Err(e),
                            }
                        },
                    }
                }
            },
        }
    }
}

/// The plaintext prefix of a save, its two EOF-relative size fields and its
/// archive version.
pub struct SaveFrame {
    pub prefix: Seq<u8>,
    pub fields: (usize, usize),
    pub version: ArchiveVersion,
}

/// The archive version read from the version int after the inner field.
pub open spec fn spec_version_at(prefix: Seq<u8>, inner_field: int) -> ArchiveVersion {
    match spec_read_i32(prefix, inner_field + 4) {
        Some(v) => spec_archive_version(v as i32),
        None => ArchiveVersion::Other(0),
    }
}

/// What parsing `b` yields: the frame and the decompressed body, or the
/// error.
pub open spec fn spec_parse(b: Seq<u8>) -> std::result::Result<(SaveFrame, Seq<u8>), ErrorModel> {
    match spec_chunk_start(b) {
        None => Err(ErrorModel::NoChunkStream),
        Some(start) => {
            let prefix = b.subrange(0, start);
            match spec_eof_fields(prefix, b.len() as int) {
                Err(e) => Err(e),
                Ok(fields) => match spec_chunks(b, start) {
                    Err(e) => Err(e),
                    Ok(body) => Ok(
                        (
                            SaveFrame {
                                prefix,
                                fields,
                                version: spec_version_at(prefix, fields.0 as int),
                            },
                            body,
                        ),
                    ),
                },
            }
        },
    }
}

/// The size fields lie inside the prefix.
pub open spec fn frame_wf(frame: SaveFrame) -> bool {
    &&& frame.prefix.len() <= usize::MAX
    &&& frame.fields.0 + 4 <= frame.prefix.len()
    &&& frame.fields.1 + 4 <= frame.prefix.len()
}

proof fn lemma_inner_fields_sound(prefix: Seq<u8>, file_len: int, n: int)
    ensures
        forall|k: int|
            0 <= k < inner_fields_below(prefix, file_len, n).len() ==> {
                let o = #[trigger] inner_fields_below(prefix, file_len, n)[k];
                &&& 0 <= o < n
                &&& spec_is_eof_relative(prefix, o, file_len)
                &&& spec_has_inner_signature(prefix, o)
            },
    decreases n,
{
    if n > 0 {
        lemma_inner_fields_sound(prefix, file_len, n - 1);
        let earlier = inner_fields_below(prefix, file_len, n - 1);
        let all = inner_fields_below(prefix, file_len, n);
        assert forall|k: int| 0 <= k < all.len() implies {
            let o = #[trigger] all[k];
            &&& 0 <= o < n
            &&& spec_is_eof_relative(prefix, o, file_len)
            &&& spec_has_inner_signature(prefix, o)
        } by {
            if k < earlier.len() {
                assert(all[k] == earlier[k]);
            }
        }
    }
}

proof fn lemma_eof_fields_wf(prefix: Seq<u8>, file_len: int)
    requires
        spec_eof_fields(prefix, file_len) is Ok,
        prefix.len() <= usize::MAX,
    ensures
        ({
            let f = spec_eof_fields(prefix, file_len)->Ok_0;
            &&& f.0 + 12 <= prefix.len()
            &&& f.1 + 4 == prefix.len()
        }),
{
    reveal(spec_eof_fields);
    let n = if prefix.len() >= 3 {
        prefix.len() - 3
    } else {
        0
    };
    lemma_inner_fields_sound(prefix, file_len, n as int);
    let inner = inner_fields_below(prefix, file_len, n as int);
    assert(spec_has_inner_signature(prefix, inner[0]));
}


/// The prefix of a parsed file is part of the file.
pub proof fn lemma_parse_prefix_within(b: Seq<u8>)
    requires
        spec_parse(b) is Ok,
    ensures
        spec_parse(b)->Ok_0.0.prefix.len() <= b.len(),
{
    let start = spec_chunk_start(b)->Some_0;
    lemma_first_header_ok(b, occurrences(b, CHUNK_MAGIC@));
    lemma_header_ok_bounds(b, start);
}

/// A parsed file's frame is well formed: its size fields lie inside the
/// prefix, in order, and its version is the one read after the first.
pub proof fn lemma_parse_frame_wf(b: Seq<u8>)
    requires
        spec_parse(b) is Ok,
        b.len() <= usize::MAX,
    ensures
        ({
            let frame = spec_parse(b)->Ok_0.0;
            &&& frame_wf(frame)
            &&& frame.fields.0 + 12 <= frame.prefix.len()
            &&& frame.version == spec_version_at(frame.prefix, frame.fields.0 as int)
        }),
{
    lemma_parse_prefix_within(b);
    let start = spec_chunk_start(b)->Some_0;
    let prefix = b.subrange(0, start);
    assert(spec_parse(b)->Ok_0.0.prefix == prefix);
    assert(spec_eof_fields(prefix, b.len() as int) is Ok);
    lemma_eof_fields_wf(prefix, b.len() as int);
    assert(spec_parse(b)->Ok_0.0.fields == spec_eof_fields(prefix, b.len() as int)->Ok_0);
}

/// Length of the first block of a body of `len` bytes.
pub open spec fn first_block_len(len: int) -> int {
    if len > CHUNK_BLOCK {
        CHUNK_BLOCK as int
    } else {
        len
    }
}

/// One chunk: the header for `compressed` holding `uncompressed_len`
/// bytes, then the compressed bytes.
pub open spec fn chunk_bytes(compressed: Seq<u8>, uncompressed_len: int) -> Seq<u8> {
    u64_le_bytes(CHUNK_TAG as int) + u64_le_bytes(CHUNK_BLOCK as int) + seq![3u8] + u64_le_bytes(
        compressed.len() as int,
    ) + u64_le_bytes(uncompressed_len) + u64_le_bytes(compressed.len() as int) + u64_le_bytes(
        uncompressed_len,
    ) + compressed
}

/// The chunk stream for `body`: one chunk per 128 KiB block, each block
/// compressed with `zlib_deflate`.
pub open spec fn spec_payload(body: Seq<u8>) -> Seq<u8>
    decreases body.len(),
{
    if body.len() == 0 {
        Seq::empty()
    } else {
        let n = first_block_len(body.len() as int);
        chunk_bytes(zlib_deflate(body.subrange(0, n)), n) + spec_payload(
            body.subrange(n, body.len() as int),
        )
    }
}

/// Every block of `body`, compressed as [`spec_payload`] compresses it,
/// inflates back to itself.
pub open spec fn blocks_roundtrip(body: Seq<u8>) -> bool
    decreases body.len(),
{
    if body.len() == 0 {
        true
    } else {
        let n = first_block_len(body.len() as int);
        &&& zlib_inflate(zlib_deflate(body.subrange(0, n))) == Ok::<Seq<u8>, Seq<char>>(
            body.subrange(0, n),
        )
        &&& blocks_roundtrip(body.subrange(n, body.len() as int))
    }
}

/// The prefix followed by the chunk stream, before the size fields are set.
pub open spec fn unpatched_file(frame: SaveFrame, body: Seq<u8>) -> Seq<u8> {
    frame.prefix + spec_payload(body)
}

/// Both size fields' new values fit in an `i32`.
pub open spec fn rebuild_fits(frame: SaveFrame, body: Seq<u8>) -> bool {
    let total = unpatched_file(frame, body).len();
    &&& total - frame.fields.0 - 4 <= i32::MAX
    &&& total - frame.fields.1 - 4 <= i32::MAX
}

/// The rebuilt file: prefix and chunk stream, with each size field set to
/// the number of bytes from just after it to the end of the file.
pub open spec fn spec_rebuild(frame: SaveFrame, body: Seq<u8>) -> Seq<u8> {
    let out = unpatched_file(frame, body);
    let f0 = frame.fields.0 as int;
    let f1 = frame.fields.1 as int;
    spec_write_i32(spec_write_i32(out, f0, out.len() - f0 - 4), f1, out.len() - f1 - 4)
}

fn push_chunk(payload: &mut Vec<u8>, compressed: &[u8], uncompressed_len: usize)
    ensures
        final(payload)@ == old(payload)@ + chunk_bytes(compressed@, uncompressed_len as int),
{
    push_u64(payload, CHUNK_TAG);
    push_u64(payload, usize_to_u64(CHUNK_BLOCK));
    payload.push(3);
    let comp_len = usize_to_u64(compressed.len());
    let uncomp_len = usize_to_u64(uncompressed_len);
    push_u64(payload, comp_len);
    push_u64(payload, uncomp_len);
    push_u64(payload, comp_len);
    push_u64(payload, uncomp_len);
    payload.extend_from_slice(compressed);
    assert(final(payload)@ =~= old(payload)@ + chunk_bytes(compressed@, uncompressed_len as int));
}

proof fn lemma_payload_step(body: Seq<u8>, pos: int, end: int)
    requires
        0 <= pos < end <= body.len(),
        end - pos == first_block_len(body.len() - pos),
    ensures
        spec_payload(body.subrange(pos, body.len() as int)) == chunk_bytes(
            zlib_deflate(body.subrange(pos, end)),
            end - pos,
        ) + spec_payload(body.subrange(end, body.len() as int)),
{
    let rest = body.subrange(pos, body.len() as int);
    let n = end - pos;
    assert(rest.subrange(0, n) =~= body.subrange(pos, end));
    assert(rest.subrange(n, rest.len() as int) =~= body.subrange(end, body.len() as int));
}

proof fn lemma_blocks_step(body: Seq<u8>, pos: int, end: int)
    requires
        0 <= pos < end <= body.len(),
        end - pos == first_block_len(body.len() - pos),
    ensures
        blocks_roundtrip(body.subrange(pos, body.len() as int)) == (zlib_inflate(
            zlib_deflate(body.subrange(pos, end)),
        ) == Ok::<Seq<u8>, Seq<char>>(body.subrange(pos, end)) && blocks_roundtrip(
            body.subrange(end, body.len() as int),
        )),
{
    let rest = body.subrange(pos, body.len() as int);
    let n = end - pos;
    assert(rest.subrange(0, n) =~= body.subrange(pos, end));
    assert(rest.subrange(n, rest.len() as int) =~= body.subrange(end, body.len() as int));
}

fn build_payload(body: &[u8]) -> (r: Vec<u8>)
    ensures
        r@ == spec_payload(body@),
        blocks_roundtrip(body@),
{
    let len = body.len();
    let mut payload: Vec<u8> = Vec::new();
    let mut pos: usize = 0;
    assert(body@.subrange(0, len as int) =~= body@);
    while pos < len
        invariant
            len == body@.len(),
            pos <= len,
            payload@ + spec_payload(body@.subrange(pos as int, len as int)) == spec_payload(body@),
            blocks_roundtrip(body@.subrange(pos as int, len as int)) ==> blocks_roundtrip(body@),
        decreases len - pos,
    {
        let end = if len - pos > CHUNK_BLOCK {
            pos + CHUNK_BLOCK
        } else {
            len
        };
        let block = &body[pos..end];
        let compressed = deflate_best(block);
        let ghost before = payload@;
        push_chunk(&mut payload, compressed.as_slice(), block.len());
        proof {
            lemma_payload_step(body@, pos as int, end as int);
            lemma_blocks_step(body@, pos as int, end as int);
            assert(block@ == body@.subrange(pos as int, end as int));
            assert(payload@ + spec_payload(body@.subrange(end as int, len as int)) =~= before
                + spec_payload(body@.subrange(pos as int, len as int)));
        }
        pos = end;
    }
    proof {
        assert(body@.subrange(len as int, len as int).len() == 0);
        assert(payload@ + Seq::<u8>::empty() =~= payload@);
    }
    payload
}

/// A parsed save file: plaintext prefix plus the decompressed body.
///
/// The body is the concatenation of all inflated chunks - a stream of the
/// game's custom "Elb" object records. Edit it (in place or with length
/// changes), then call [`SaveFile::to_bytes`] to rebuild a consistent file.
#[derive(Debug, Clone)]
pub struct SaveFile {
    prefix: Vec<u8>,
    /// Decompressed body; freely editable.
    pub body: Vec<u8>,
    eof_relative_fields: [usize; 2],
    archive_version: ArchiveVersion,
}

impl SaveFile {
    /// The frame (prefix, size fields, version) of this save.
    pub closed spec fn frame(&self) -> SaveFrame {
        SaveFrame {
            prefix: self.prefix@,
            fields: (self.eof_relative_fields@[0], self.eof_relative_fields@[1]),
            version: self.archive_version,
        }
    }

    /// The decompressed body.
    pub closed spec fn body_view(&self) -> Seq<u8> {
        self.body@
    }

    /// The size fields lie inside the prefix.
    pub open spec fn wf(&self) -> bool {
        frame_wf(self.frame())
    }

    /// Parse a raw `.sav` file.
    ///
    /// Fails exactly as [`spec_parse`] describes: no valid chunk stream, a
    /// malformed chunk or one in an unknown format, an inflate failure or a
    /// length mismatch, or a prefix without exactly the two EOF-relative
    /// size fields.
    pub fn parse(bytes: &[u8]) -> (r: Result<SaveFile>)
        requires
            fits_address_space(bytes@.len() as int),
        ensures
            r matches Ok(s) ==> s.wf() && spec_parse(bytes@) == Ok::<
                (SaveFrame, Seq<u8>),
                ErrorModel,
            >((s.frame(), s.body_view())),
            r matches Err(e) ==> spec_parse(bytes@) == Err::<(SaveFrame, Seq<u8>), ErrorModel>(e@),
    {
        let len = bytes.len();
        let start = match find_chunk_start(bytes) {
            Some(start) => start,
            None => return Err(Error::NoChunkStream),
        };
        proof {
            lemma_first_header_ok(bytes@, occurrences(bytes@, CHUNK_MAGIC@));
            lemma_header_ok_bounds(bytes@, start as int);
        }
        let mut prefix: Vec<u8> = Vec::new();
        prefix.extend_from_slice(&bytes[0..start]);
        assert(prefix@ =~= bytes@.subrange(0, start as int));
        let eof_relative_fields = match find_eof_relative_fields(&prefix, len) {
            Ok(f) => f,
            Err(e) => return Err(e),
        };
        proof {
            lemma_eof_fields_wf(prefix@, len as int);
        }
        let archive_version = match read_i32(&prefix, eof_relative_fields[0] + 4) {
            Some(v) => ArchiveVersion::from(v),
            None => ArchiveVersion::Other(0),
        };
        let mut body: Vec<u8> = Vec::new();
        let mut offset = start;
        while offset < len
            invariant
                len == bytes@.len(),
                fits_address_space(len as int),
                spec_chunk_start(bytes@) == Some(start as int),
                prefix@ == bytes@.subrange(0, start as int),
                spec_eof_fields(prefix@, len as int) == Ok::<(usize, usize), ErrorModel>(
                    (eof_relative_fields@[0], eof_relative_fields@[1]),
                ),
                eof_relative_fields@[0] + 12 <= prefix@.len(),
                eof_relative_fields@[1] + 4 == prefix@.len(),
                archive_version == spec_version_at(prefix@, eof_relative_fields@[0] as int),
                spec_chunks(bytes@, start as int) == match spec_chunks(bytes@, offset as int) {
                    Ok(rest) => Ok(body@ + rest),
                    Err(e) => Err(e),
                },
            decreases len - offset,
        {
            let header = match parse_chunk_header(bytes, offset) {
                Ok(h) => h,
                Err(e) => return Err(e),
            };
            match header.format {
                CompressionFormat::Zlib => {},
                CompressionFormat::Unknown(byte) => {
                    return Err(Error::UnsupportedCompression(byte));
                },
            }
            proof {
                lemma_header_ok_bounds(bytes@, offset as int);
            }
            let data_start = offset + CHUNK_HEADER_LEN;
            if header.compressed > len - data_start {
                let value = if header.compressed > usize::MAX - data_start {
                    usize::MAX
                } else {
                    data_start + header.compressed
                };
                return Err(Error::OutOfBounds { what: "chunk data", value, len });
            }
            let data_end = data_start + header.compressed;
            let block = match inflate(&bytes[data_start..data_end]) {
                Ok(block) => block,
                Err(message) => return Err(Error::Inflate { offset, source: message }),
            };
            if block.len() != header.uncompressed {
                let mut reason = String::new();
                reason.append("inflated ");
                push_decimal(&mut reason, block.len() as u64);
                reason.append(" bytes, header declared ");
                push_decimal(&mut reason, header.uncompressed as u64);
                let e = Error::MalformedChunk { offset, reason };
                assert(e@ == inflated_length_error(
                    offset,
                    block@.len() as int,
                    header.uncompressed as int,
                ));
                return Err(e);
            }
            let ghost before = body@;
            body.extend_from_slice(&block);
            proof {
                assert(body@ =~= before + block@);
                match spec_chunks(bytes@, data_end as int) {
                    Ok(rest) => {
                        assert(before + (block@ + rest) =~= body@ + rest);
                    },
                    Err(_) => {},
                }
            }
            offset = data_end;
        }
        proof {
            assert(body@ + Seq::<u8>::empty() =~= body@);
        }
        Ok(SaveFile { prefix, body, eof_relative_fields, archive_version })
    }


    /// Rebuild a complete `.sav` file from the (possibly edited) body.
    ///
    /// Recompresses the body into 128 KiB zlib chunks and rewrites both
    /// EOF-relative size fields in the prefix so the result is internally
    /// consistent regardless of how the body length changed. The new field
    /// values must fit an `i32` (real saves are under a megabyte).
    pub fn to_bytes(&self) -> (r: Vec<u8>)
        requires
            self.wf(),
            rebuild_fits(self.frame(), self.body_view()),
        ensures
            r@ == spec_rebuild(self.frame(), self.body_view()),
            blocks_roundtrip(self.body_view()),
    {
        let payload = build_payload(self.body.as_slice());
        let mut out: Vec<u8> = Vec::new();
        out.extend_from_slice(self.prefix.as_slice());
        out.extend_from_slice(payload.as_slice());
        let ghost unpatched = out@;
        assert(unpatched =~= unpatched_file(self.frame(), self.body_view()));
        let total = out.len();
        let f0 = self.eof_relative_fields[0];
        let f1 = self.eof_relative_fields[1];
        let v0 = (total - f0 - 4) as i32;
        set_i32(out.as_mut_slice(), f0, v0);
        let v1 = (total - f1 - 4) as i32;
        set_i32(out.as_mut_slice(), f1, v1);
        out
    }

    /// Rebuild the file as [`SaveFile::to_bytes`] does, or `None` when a
    /// size field's new value would not fit an `i32`.
    pub fn try_to_bytes(&self) -> (r: Option<Vec<u8>>)
        requires
            self.wf(),
        ensures
            r matches Some(v) ==> rebuild_fits(self.frame(), self.body_view()) && v@ == spec_rebuild(
                self.frame(),
                self.body_view(),
            ) && blocks_roundtrip(self.body_view()),
            r is None ==> !rebuild_fits(self.frame(), self.body_view()),
    {
        let payload = build_payload(self.body.as_slice());
        let prefix_len = self.prefix.len();
        let f0 = self.eof_relative_fields[0];
        let f1 = self.eof_relative_fields[1];
        let payload_len = payload.len();
        if payload_len > i32::MAX as usize || prefix_len - f0 - 4 > i32::MAX as usize - payload_len
            || prefix_len - f1 - 4 > i32::MAX as usize - payload_len {
            return None;
        }
        Some(self.to_bytes())
    }

    /// The inner-archive serialization version of this save.
    pub fn archive_version(&self) -> (r: ArchiveVersion)
        ensures
            r == self.frame().version,
    {
        self.archive_version
    }

    /// The plaintext prefix (header + metadata) preceding the chunk stream.
    pub fn prefix(&self) -> (r: &[u8])
        ensures
            r@ == self.frame().prefix,
    {
        self.prefix.as_slice()
    }

    /// Offsets within the prefix of the two EOF-relative `i32` size fields.
    ///
    /// These are rewritten by [`SaveFile::to_bytes`]; their stored values
    /// depend on the exact compressed payload length.
    pub fn size_field_offsets(&self) -> (r: [usize; 2])
        ensures
            r@[0] == self.frame().fields.0,
            r@[1] == self.frame().fields.1,
    {
        self.eof_relative_fields
    }

    /// Mutable access to the prefix for in-place metadata edits.
    ///
    /// Only same-length edits are possible here; the prefix's internal
    /// record sizes are not remapped.
    pub fn prefix_mut(&mut self) -> (r: &mut [u8])
        ensures
            r@ == old(self).frame().prefix,
            final(self).frame() == (SaveFrame { prefix: final(r)@, ..old(self).frame() }),
            final(self).body_view() == old(self).body_view(),
    {
        self.prefix.as_mut_slice()
    }

    /// Mutable access to the decompressed body.
    pub fn body_mut(&mut self) -> (r: &mut Vec<u8>)
        ensures
            r@ == old(self).body_view(),
            final(self).body_view() == final(r)@,
            final(self).frame() == old(self).frame(),
    {
        &mut self.body
    }

    /// Replace the decompressed body.
    pub fn set_body(&mut self, body: Vec<u8>)
        ensures
            final(self).body_view() == body@,
            final(self).frame() == old(self).frame(),
    {
        self.body = body;
    }

    /// The decompressed body.
    pub fn body(&self) -> (r: &[u8])
        ensures
            r@ == self.body_view(),
    {
        self.body.as_slice()
    }

    /// A copy of this save.
    pub fn duplicate(&self) -> (r: SaveFile)
        ensures
            r.frame() == self.frame(),
            r.body_view() == self.body_view(),
    {
        let mut prefix: Vec<u8> = Vec::new();
        prefix.extend_from_slice(self.prefix.as_slice());
        let mut body: Vec<u8> = Vec::new();
        body.extend_from_slice(self.body.as_slice());
        proof {
            assert(prefix@ =~= self.prefix@);
            assert(body@ =~= self.body@);
        }
        SaveFile {
            prefix,
            body,
            eof_relative_fields: self.eof_relative_fields,
            archive_version: self.archive_version,
        }
    }
}

} // verus!
