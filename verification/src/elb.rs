//! Shared helpers for the Elb body serialization: tagged `IntProperty`
//! patterns, checked field writes, size-field adjustment, and top-level
//! record lookup.
//!
//! Numeric property values sit behind fixed version-marker sequences that
//! are identical across archive v2 and v3:
//!
//! ```text
//! int:   04 00 00 00 09 00 09 00 [i32]
//! float: 04 00 00 00 15 00 15 00 [f32]
//! ```
//!
//! Tagged property headers differ between versions after the type name(s),
//! so an `IntProperty` value sits behind `00*4 04 00 00 00 00` in v3 and
//! `04 00 00 00 00 00 00 00 00` in v2.
use vstd::prelude::*;

use crate::bytes::{
    lstr, lstr_bytes, matches_at, read_i32, read_lstr, read_usize, set_i32, set_u32,
    spec_read_i32, spec_read_lstr, spec_read_usize, spec_write_i32,
};
use crate::error::{Error, ErrorModel, Result};
use crate::fits_address_space;
use crate::sav::ArchiveVersion;
use crate::search::{as_ints, find_all, occurrences};

verus! {

/// Bytes of the float version marker `04 00 00 00 15 00 15 00`.
pub const FLOAT_MARKER: [u8; 8] = [0x04, 0x00, 0x00, 0x00, 0x15, 0x00, 0x15, 0x00];

/// Bytes of "IntProperty".
pub const INT_PROPERTY: [u8; 11] = [0x49, 0x6e, 0x74, 0x50, 0x72, 0x6f, 0x70, 0x65, 0x72, 0x74, 0x79];

/// Bytes of the v3 `IntProperty` header tail `00*4 04 00 00 00 00`.
pub const INT_TAIL_V3: [u8; 9] = [0x00, 0x00, 0x00, 0x00, 0x04, 0x00, 0x00, 0x00, 0x00];

/// Bytes of the v2 `IntProperty` header tail `04 00*8`.
pub const INT_TAIL_V2: [u8; 9] = [0x04, 0x00, 0x00, 0x00, 0x00, 0x00, 0x00, 0x00, 0x00];

/// The tagged `IntProperty` header for `name` up to (excluding) the value.
pub open spec fn spec_int_prop_pattern(name: Seq<u8>, version: ArchiveVersion) -> Seq<u8> {
    lstr_bytes(name) + lstr_bytes(INT_PROPERTY@) + match version {
        ArchiveVersion::V2 => INT_TAIL_V2@,
        _ => INT_TAIL_V3@,
    }
}

/// Byte pattern of a tagged `IntProperty` named `name`, up to (excluding)
/// the value, for the given archive version.
pub fn int_prop_pattern(name: &[u8], version: ArchiveVersion) -> (r: Vec<u8>)
    requires
        name@.len() + 1 <= i32::MAX,
    ensures
        r@ == spec_int_prop_pattern(name@, version),
{
    let mut out = lstr(name);
    let ty = lstr(&INT_PROPERTY);
    out.extend_from_slice(ty.as_slice());
    match version {
        ArchiveVersion::V2 => out.extend_from_slice(&INT_TAIL_V2),
        _ => out.extend_from_slice(&INT_TAIL_V3),
    }
    out
}

/// The outcome of a checked four-byte write: the new bytes, or the
/// out-of-bounds error naming `what`.
pub open spec fn spec_checked_write(b: Seq<u8>, off: int, v: int, what: Seq<char>) -> std::result::Result<
    Seq<u8>,
    ErrorModel,
> {
    if off + 4 <= b.len() {
        Ok(spec_write_i32(b, off, v))
    } else {
        Err(ErrorModel::OutOfBounds { what, value: off as usize, len: b.len() as usize })
    }
}

/// Overwrite the `i32` at `offset`, or report it out of bounds.
pub fn write_i32(buffer: &mut [u8], offset: usize, value: i32) -> (r: Result<()>)
    ensures
        match spec_checked_write(old(buffer)@, offset as int, value as int, "i32 field"@) {
            Ok(b) => r is Ok && final(buffer)@ == b,
            Err(e) => r matches Err(x) && x@ == e && final(buffer)@ == old(buffer)@,
        },        final(buffer)@.len() == old(buffer)@.len(),
{
    let len = buffer.len();
    if offset > len || len - offset < 4 {
        return Err(Error::OutOfBounds { what: "i32 field", value: offset, len });
    }
    set_i32(buffer, offset, value);
    Ok(())
}

/// Overwrite the four bytes at `offset` with the little-endian bits of a
/// 32-bit float, or report it out of bounds.
pub fn write_f32_bits(buffer: &mut [u8], offset: usize, bits: u32) -> (r: Result<()>)
    ensures
        match spec_checked_write(old(buffer)@, offset as int, bits as int, "f32 field"@) {
            Ok(b) => r is Ok && final(buffer)@ == b,
            Err(e) => r matches Err(x) && x@ == e && final(buffer)@ == old(buffer)@,
        },        final(buffer)@.len() == old(buffer)@.len(),
{
    let len = buffer.len();
    if offset > len || len - offset < 4 {
        return Err(Error::OutOfBounds { what: "f32 field", value: offset, len });
    }
    set_u32(buffer, offset, bits);
    Ok(())
}

/// The outcome of adding `delta` to the `i32` size field at `off`.
pub open spec fn spec_adjust_i32(b: Seq<u8>, off: int, delta: int) -> std::result::Result<
    Seq<u8>,
    ErrorModel,
> {
    match spec_read_i32(b, off) {
        None => Err(
            ErrorModel::OutOfBounds { what: "size field"@, value: off as usize, len: b.len() as usize },
        ),
        Some(current) => if current + delta < i32::MIN || current + delta > i32::MAX {
            Err(
                ErrorModel::OutOfBounds {
                    what: "adjusted size field"@,
                    value: off as usize,
                    len: b.len() as usize,
                },
            )
        } else {
            Ok(spec_write_i32(b, off, current + delta))
        },
    }
}

/// Adjust an `i32` size field by `delta`, checking bounds and overflow.
pub fn adjust_i32(buffer: &mut [u8], offset: usize, delta: i64) -> (r: Result<()>)
    ensures
        match spec_adjust_i32(old(buffer)@, offset as int, delta as int) {
            Ok(b) => r is Ok && final(buffer)@ == b,
            Err(e) => r matches Err(x) && x@ == e && final(buffer)@ == old(buffer)@,
        },
        final(buffer)@.len() == old(buffer)@.len(),
{
    let len = buffer.len();
    let current = match read_i32(buffer, offset) {
        Some(v) => v,
        None => return Err(Error::OutOfBounds { what: "size field", value: offset, len }),
    };
    let adjusted = current as i128 + delta as i128;
    if adjusted < i32::MIN as i128 || adjusted > i32::MAX as i128 {
        return Err(Error::OutOfBounds { what: "adjusted size field", value: offset, len });
    }
    set_i32(buffer, offset, adjusted as i32);
    Ok(())
}

/// The part of `path` after its last `.` (all of it when there is none).
pub open spec fn after_last_dot(path: Seq<u8>) -> Seq<u8>
    decreases path.len(),
{
    if path.len() == 0 {
        path
    } else if path.last() == 0x2e {
        Seq::empty()
    } else {
        after_last_dot(path.drop_last()).push(path.last())
    }
}

/// The record whose class `lstr` (the needle) starts at `start`: its
/// content start, content size and size-field offset, if it is framed as
/// `[lstr class][lstr instance][i32 0][i32 size][content]` with an instance
/// name that starts with `instance_prefix`.
pub open spec fn record_at(body: Seq<u8>, needle_len: int, instance_prefix: Seq<u8>, start: int) -> Option<
    (int, int, int),
> {
    match spec_read_lstr(body, start + needle_len) {
        None => None,
        Some((instance, after_name)) => if !(instance_prefix.len() <= instance.len()
            && instance.subrange(0, instance_prefix.len() as int) == instance_prefix) {
            None
        } else if spec_read_i32(body, after_name) != Some(0int) {
            None
        } else {
            let size_offset = after_name + 4;
            match spec_read_usize(body, size_offset) {
                None => None,
                Some(size) => if size_offset + 4 + size <= body.len() {
                    Some((size_offset + 4, size, size_offset))
                } else {
                    None
                },
            }
        },
    }
}

/// The first candidate at which a well-framed record starts.
pub open spec fn first_record_among(
    body: Seq<u8>,
    needle_len: int,
    instance_prefix: Seq<u8>,
    cands: Seq<int>,
) -> Option<(int, int, int)>
    decreases cands.len(),
{
    if cands.len() == 0 {
        None
    } else {
        match record_at(body, needle_len, instance_prefix, cands[0]) {
            Some(r) => Some(r),
            None => first_record_among(body, needle_len, instance_prefix, cands.drop_first()),
        }
    }
}

/// The top-level record of class `class_path`: the first occurrence of the
/// class path's `lstr` whose instance name starts with the class's short
/// name and `_`, and whose framing is well-formed.
pub open spec fn spec_find_record(body: Seq<u8>, class_path: Seq<u8>) -> Option<(int, int, int)> {
    let needle = lstr_bytes(class_path);
    first_record_among(
        body,
        needle.len() as int,
        after_last_dot(class_path).push(0x5f),
        occurrences(body, needle),
    )
}

fn instance_prefix_of(class_path: &[u8]) -> (r: Vec<u8>)
    ensures
        r@ == after_last_dot(class_path@).push(0x5f),
{
    let len = class_path.len();
    let mut start = len;
    assert(class_path@.subrange(0, len as int) =~= class_path@);
    assert(class_path@.subrange(len as int, len as int) =~= Seq::<u8>::empty());
    assert(after_last_dot(class_path@) + Seq::<u8>::empty() =~= after_last_dot(class_path@));
    while start > 0 && class_path[start - 1] != 0x2e
        invariant
            start <= len == class_path@.len(),
            after_last_dot(class_path@) == after_last_dot(class_path@.subrange(0, start as int))
                + class_path@.subrange(start as int, len as int),
        decreases start,
    {
        let ghost p = class_path@.subrange(0, start as int);
        assert(p.drop_last() =~= class_path@.subrange(0, start - 1));
        assert(class_path@.subrange(start - 1, len as int) =~= seq![p.last()]
            + class_path@.subrange(start as int, len as int));
        assert(after_last_dot(p) =~= after_last_dot(p.drop_last()).push(p.last()));
        start = start - 1;
    }
    proof {
        let p = class_path@.subrange(0, start as int);
        if start == 0 {
            assert(p.len() == 0);
        } else {
            assert(p.last() == 0x2e);
        }
        assert(after_last_dot(p) =~= Seq::<u8>::empty());
    }
    let mut out: Vec<u8> = Vec::new();
    out.extend_from_slice(&class_path[start..len]);
    out.push(0x5f);
    proof {
        assert(out@ =~= after_last_dot(class_path@).push(0x5f));
    }
    out
}

fn record_at_exec(body: &[u8], needle_len: usize, instance_prefix: &[u8], start: usize) -> (r: Option<
    (usize, usize, usize),
>)
    requires
        fits_address_space(body@.len() as int),
        start <= body@.len(),
        needle_len <= body@.len(),
    ensures
        record_at(body@, needle_len as int, instance_prefix@, start as int) == match r {
            Some((a, b, c)) => Some((a as int, b as int, c as int)),
            None => None::<(int, int, int)>,
        },
        r matches Some((a, b, c)) ==> a + b <= body@.len() && c + 4 == a,
{
    let (instance, after_name) = match read_lstr(body, start + needle_len) {
        Some(x) => x,
        None => return None,
    };
    if !matches_at(instance, 0, instance_prefix) {
        return None;
    }
    match read_i32(body, after_name) {
        Some(v) => if v != 0 {
            return None;
        },
        None => return None,
    }
    let size_offset = after_name + 4;
    let size = match read_usize(body, size_offset) {
        Some(s) => s,
        None => return None,
    };
    if size > body.len() - (size_offset + 4) {
        return None;
    }
    Some((size_offset + 4, size, size_offset))
}

/// Locate a top-level record `[lstr class][lstr inst][i32 0][i32 size]` by
/// its `/Script/...` class path. Returns `(content_start, content_size,
/// size_field_offset)`.
///
/// The class-path string can also occur in the body as a mere reference,
/// so every occurrence is validated: the instance name must start with the
/// class's short name and the record framing must be well-formed.
pub fn find_record(body: &[u8], class_path: &[u8]) -> (r: Option<(usize, usize, usize)>)
    requires
        fits_address_space(body@.len() as int),
        class_path@.len() + 1 <= i32::MAX,
    ensures
        spec_find_record(body@, class_path@) == match r {
            Some((a, b, c)) => Some((a as int, b as int, c as int)),
            None => None::<(int, int, int)>,
        },
        r matches Some((a, b, c)) ==> a + b <= body@.len() && c + 4 == a,
{
    let needle = lstr(class_path);
    let prefix = instance_prefix_of(class_path);
    let starts = find_all(body, needle.as_slice());
    let ghost all = occurrences(body@, needle@);
    proof {
        crate::search::lemma_occurrences_are_matches(body@, needle@, 0);
    }
    let mut i: usize = 0;
    assert(all.subrange(0, all.len() as int) =~= all);
    while i < starts.len()
        invariant
            fits_address_space(body@.len() as int),
            as_ints(starts@) == all,
            all == occurrences(body@, needle@),
            forall|k: int| 0 <= k < all.len() ==> crate::search::occurs_at(body@, needle@, #[trigger] all[k]),
            i <= starts@.len(),
            spec_find_record(body@, class_path@) == first_record_among(
                body@,
                needle@.len() as int,
                prefix@,
                all.subrange(i as int, all.len() as int),
            ),
        decreases starts@.len() - i,
    {
        let start = starts[i];
        assert(all[i as int] == start as int);
        assert(all.subrange(i as int, all.len() as int)[0] == start as int);
        assert(all.subrange(i as int, all.len() as int).drop_first() =~= all.subrange(
            i + 1,
            all.len() as int,
        ));
        if let Some(found) = record_at_exec(body, needle.len(), prefix.as_slice(), start) {
            return Some(found);
        }
        i = i + 1;
    }
    None
}

} // verus!
