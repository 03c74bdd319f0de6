//! Little-endian integer fields, the length-prefixed `lstr` strings of the
//! Elb body serialization, and small byte-slice utilities.
//!
//! `lstr` is the pervasive string encoding: `[i32 len incl NUL][bytes][NUL]`.
use vstd::prelude::*;

verus! {

/// Unsigned value of the four little-endian bytes at `i`.
#[verifier::opaque]
pub open spec fn u32_le(b: Seq<u8>, i: int) -> int {
    b[i] + 256 * b[i + 1] + 65536 * b[i + 2] + 16777216 * b[i + 3]
}

/// Two's-complement value of the four little-endian bytes at `i`.
pub open spec fn i32_le(b: Seq<u8>, i: int) -> int {
    let u = u32_le(b, i);
    if u < 0x8000_0000 {
        u
    } else {
        u - 0x1_0000_0000
    }
}

/// Unsigned value of the eight little-endian bytes at `i`.
#[verifier::opaque]
pub open spec fn u64_le(b: Seq<u8>, i: int) -> int {
    u32_le(b, i) + 0x1_0000_0000 * u32_le(b, i + 4)
}

/// The `i32` stored at `off`, if four bytes are there.
pub open spec fn spec_read_i32(b: Seq<u8>, off: int) -> Option<int> {
    if 0 <= off && off + 4 <= b.len() {
        Some(i32_le(b, off))
    } else {
        None
    }
}

/// The `u64` stored at `off`, if eight bytes are there.
pub open spec fn spec_read_u64(b: Seq<u8>, off: int) -> Option<int> {
    if 0 <= off && off + 8 <= b.len() {
        Some(u64_le(b, off))
    } else {
        None
    }
}

/// The `i32` stored at `off` when it is there and not negative.
pub open spec fn spec_read_usize(b: Seq<u8>, off: int) -> Option<int> {
    match spec_read_i32(b, off) {
        Some(v) => if v >= 0 {
            Some(v)
        } else {
            None
        },
        None => None,
    }
}

/// The `lstr` at `off`: its text (without the NUL) and the offset just past it.
pub open spec fn spec_read_lstr(b: Seq<u8>, off: int) -> Option<(Seq<u8>, int)> {
    match spec_read_usize(b, off) {
        Some(len) => {
            let end = off + 4 + len;
            if len >= 1 && end <= b.len() && b[end - 1] == 0 {
                Some((b.subrange(off + 4, end - 1), end))
            } else {
                None
            }
        },
        None => None,
    }
}

/// The four little-endian bytes of `v` (taken modulo 2^32).
pub open spec fn i32_le_bytes(v: int) -> Seq<u8> {
    let u = if v >= 0 {
        v
    } else {
        v + 0x1_0000_0000
    };
    seq![
        (u % 256) as u8,
        ((u / 256) % 256) as u8,
        ((u / 65536) % 256) as u8,
        ((u / 16777216) % 256) as u8,
    ]
}

/// The eight little-endian bytes of the unsigned `v`.
pub open spec fn u64_le_bytes(v: int) -> Seq<u8> {
    i32_le_bytes(v % 0x1_0000_0000) + i32_le_bytes(v / 0x1_0000_0000)
}

/// The `lstr` encoding of `text`.
pub open spec fn lstr_bytes(text: Seq<u8>) -> Seq<u8> {
    i32_le_bytes(text.len() + 1int) + text + seq![0u8]
}

/// `b` with the four bytes at `off` replaced by the encoding of `v`.
pub open spec fn spec_write_i32(b: Seq<u8>, off: int, v: int) -> Seq<u8> {
    b.subrange(0, off) + i32_le_bytes(v) + b.subrange(off + 4, b.len() as int)
}

/// `b` with `old_len` bytes at `start` replaced by `replacement`.
pub open spec fn spec_splice(b: Seq<u8>, start: int, old_len: int, replacement: Seq<u8>) -> Seq<u8> {
    b.subrange(0, start) + replacement + b.subrange(start + old_len, b.len() as int)
}

proof fn lemma_u32_digits(u: int)
    requires
        0 <= u < 0x1_0000_0000,
    ensures
        (u % 256) + 256 * ((u / 256) % 256) + 65536 * ((u / 65536) % 256) + 16777216 * ((u
            / 16777216) % 256) == u,
{
    let a = u % 256;
    let q1 = u / 256;
    assert(u == 256 * q1 + a) by (nonlinear_arith)
        requires
            a == u % 256,
            q1 == u / 256,
    ;
    let b = q1 % 256;
    let q2 = q1 / 256;
    assert(q1 == 256 * q2 + b) by (nonlinear_arith)
        requires
            b == q1 % 256,
            q2 == q1 / 256,
    ;
    let c = q2 % 256;
    let q3 = q2 / 256;
    assert(q2 == 256 * q3 + c) by (nonlinear_arith)
        requires
            c == q2 % 256,
            q3 == q2 / 256,
    ;
    assert(q3 < 256);
    assert(u / 65536 == q2) by (nonlinear_arith)
        requires
            q1 == u / 256,
            q2 == q1 / 256,
            u >= 0,
    ;
    assert(u / 16777216 == q3) by (nonlinear_arith)
        requires
            q1 == u / 256,
            q2 == q1 / 256,
            q3 == q2 / 256,
            u >= 0,
    ;
}

/// Reading back the encoding of an `i32` gives the value.
pub proof fn lemma_i32_roundtrip(v: int)
    requires
        -0x8000_0000 <= v < 0x8000_0000,
    ensures
        i32_le_bytes(v).len() == 4,
        i32_le(i32_le_bytes(v), 0) == v,
{
    reveal(u32_le);
    let u = if v >= 0 {
        v
    } else {
        v + 0x1_0000_0000
    };
    lemma_u32_digits(u);
}

/// Reading back the encoding of an unsigned 32-bit value gives the value.
pub proof fn lemma_u32_roundtrip(v: int)
    requires
        0 <= v < 0x1_0000_0000,
    ensures
        i32_le_bytes(v).len() == 4,
        u32_le(i32_le_bytes(v), 0) == v,
{
    reveal(u32_le);
    lemma_u32_digits(v);
}

/// Reading back the encoding of an unsigned 64-bit value gives the value.
pub proof fn lemma_u64_roundtrip(v: int)
    requires
        0 <= v < 0x1_0000_0000_0000_0000,
    ensures
        u64_le_bytes(v).len() == 8,
        u64_le(u64_le_bytes(v), 0) == v,
{
    reveal(u32_le);
    reveal(u64_le);
    let lo = v % 0x1_0000_0000;
    let hi = v / 0x1_0000_0000;
    assert(v == 0x1_0000_0000 * hi + lo && 0 <= lo < 0x1_0000_0000 && 0 <= hi < 0x1_0000_0000)
        by (nonlinear_arith)
        requires
            lo == v % 0x1_0000_0000,
            hi == v / 0x1_0000_0000,
            0 <= v < 0x1_0000_0000_0000_0000,
    ;
    lemma_u32_digits(lo);
    lemma_u32_digits(hi);
    let b = u64_le_bytes(v);
    assert(b.subrange(0, 4) =~= i32_le_bytes(lo));
    assert(b.subrange(4, 8) =~= i32_le_bytes(hi));
}

/// Read a little-endian `i32` at `offset`.
pub fn read_i32(bytes: &[u8], offset: usize) -> (r: Option<i32>)
    ensures
        r matches Some(v) ==> spec_read_i32(bytes@, offset as int) == Some(v as int),
        r is None ==> spec_read_i32(bytes@, offset as int) is None,
{
    reveal(u32_le);
    if offset > bytes.len() || bytes.len() - offset < 4 {
        return None;
    }
    let u: u32 = bytes[offset] as u32 + (bytes[offset + 1] as u32) * 256 + (bytes[offset + 2] as u32)
        * 65536 + (bytes[offset + 3] as u32) * 16777216;
    if u < 0x8000_0000 {
        Some(u as i32)
    } else {
        let low = (u - 0x8000_0000) as i32;
        Some(low - 0x7fff_ffff - 1)
    }
}

/// The unsigned 32-bit value stored at `off`, if four bytes are there.
pub open spec fn spec_read_u32(b: Seq<u8>, off: int) -> Option<int> {
    if 0 <= off && off + 4 <= b.len() {
        Some(u32_le(b, off))
    } else {
        None
    }
}

/// Read a little-endian `u32` at `offset` (the bits of an `f32` field).
pub fn read_u32(bytes: &[u8], offset: usize) -> (r: Option<u32>)
    ensures
        r matches Some(v) ==> spec_read_u32(bytes@, offset as int) == Some(v as int),
        r is None ==> spec_read_u32(bytes@, offset as int) is None,
{
    reveal(u32_le);
    if offset > bytes.len() || bytes.len() - offset < 4 {
        return None;
    }
    Some(
        bytes[offset] as u32 + (bytes[offset + 1] as u32) * 256 + (bytes[offset + 2] as u32) * 65536
            + (bytes[offset + 3] as u32) * 16777216,
    )
}

/// Read a little-endian `u64` at `offset`.
pub fn read_u64(bytes: &[u8], offset: usize) -> (r: Option<u64>)
    ensures
        r matches Some(v) ==> spec_read_u64(bytes@, offset as int) == Some(v as int),
        r is None ==> spec_read_u64(bytes@, offset as int) is None,
{
    reveal(u32_le);
    reveal(u64_le);
    if offset > bytes.len() || bytes.len() - offset < 8 {
        return None;
    }
    let lo: u64 = bytes[offset] as u64 + (bytes[offset + 1] as u64) * 256 + (bytes[offset + 2] as u64)
        * 65536 + (bytes[offset + 3] as u64) * 16777216;
    let hi: u64 = bytes[offset + 4] as u64 + (bytes[offset + 5] as u64) * 256 + (bytes[offset
        + 6] as u64) * 65536 + (bytes[offset + 7] as u64) * 16777216;
    Some(lo + hi * 0x1_0000_0000)
}

/// Read a non-negative `i32` at `offset` as a `usize`.
pub fn read_usize(bytes: &[u8], offset: usize) -> (r: Option<usize>)
    ensures
        r matches Some(v) ==> spec_read_usize(bytes@, offset as int) == Some(v as int) && v
            <= i32::MAX,
        r is None ==> spec_read_usize(bytes@, offset as int) is None,
{
    match read_i32(bytes, offset) {
        Some(v) => if v >= 0 {
            Some(v as usize)
        } else {
            None
        },
        None => None,
    }
}

/// Read the `lstr` at `offset`, returning its text and the offset past it.
pub fn read_lstr(bytes: &[u8], offset: usize) -> (r: Option<(&[u8], usize)>)
    ensures
        r matches Some((text, end)) ==> spec_read_lstr(bytes@, offset as int) == Some(
            (text@, end as int),
        ),
        r is None ==> spec_read_lstr(bytes@, offset as int) is None,
{
    let n = bytes.len();
    let len = match read_usize(bytes, offset) {
        Some(len) => len,
        None => return None,
    };
    assert(offset + 4 <= bytes@.len());
    let start = offset + 4;
    if len == 0 || len > n - start {
        return None;
    }
    let end = start + len;
    if bytes[end - 1] != 0 {
        return None;
    }
    Some((&bytes[start..end - 1], end))
}

/// The four little-endian bytes of `v`.
pub fn i32_to_le(v: i32) -> (r: [u8; 4])
    ensures
        r@ == i32_le_bytes(v as int),
{
    let u: u64 = if v >= 0 {
        v as u64
    } else {
        (v as i64 + 0x1_0000_0000) as u64
    };
    let r = [(u % 256) as u8, ((u / 256) % 256) as u8, ((u / 65536) % 256) as u8, ((u / 16777216)
        % 256) as u8];
    assert(r@ =~= i32_le_bytes(v as int));
    r
}

/// The four little-endian bytes of the unsigned `v`.
pub fn u32_to_le(v: u32) -> (r: [u8; 4])
    ensures
        r@ == i32_le_bytes(v as int),
{
    let r = [(v % 256) as u8, ((v / 256) % 256) as u8, ((v / 65536) % 256) as u8, ((v / 16777216)
        % 256) as u8];
    assert(r@ =~= i32_le_bytes(v as int));
    r
}

/// Append the encoding of `v` to `out`.
pub fn push_i32(out: &mut Vec<u8>, v: i32)
    ensures
        final(out)@ == old(out)@ + i32_le_bytes(v as int),
{
    let b = i32_to_le(v);
    out.extend_from_slice(&b);
}

/// Append the eight little-endian bytes of `v` to `out`.
pub fn push_u64(out: &mut Vec<u8>, v: u64)
    ensures
        final(out)@ == old(out)@ + u64_le_bytes(v as int),
{
    let lo = v % 0x1_0000_0000;
    let hi = v / 0x1_0000_0000;
    let lo_bytes: [u8; 4] = [(lo % 256) as u8, ((lo / 256) % 256) as u8, ((lo / 65536) % 256) as u8, (
    (lo / 16777216) % 256) as u8];
    let hi_bytes: [u8; 4] = [(hi % 256) as u8, ((hi / 256) % 256) as u8, ((hi / 65536) % 256) as u8, (
    (hi / 16777216) % 256) as u8];
    assert(lo_bytes@ =~= i32_le_bytes(lo as int));
    assert(hi_bytes@ =~= i32_le_bytes(hi as int));
    out.extend_from_slice(&lo_bytes);
    out.extend_from_slice(&hi_bytes);
    assert(final(out)@ =~= old(out)@ + u64_le_bytes(v as int));
}

/// Encode `text` as an `lstr`.
pub fn lstr(text: &[u8]) -> (r: Vec<u8>)
    requires
        text@.len() + 1 <= i32::MAX,
    ensures
        r@ == lstr_bytes(text@),
{
    let mut out = Vec::with_capacity(text.len() + 5);
    push_i32(&mut out, (text.len() + 1) as i32);
    out.extend_from_slice(text);
    out.push(0);
    out
}

/// Overwrite the four bytes at `offset` with the encoding of `value`.
pub fn set_i32(buffer: &mut [u8], offset: usize, value: i32)
    requires
        offset + 4 <= old(buffer)@.len(),
    ensures
        final(buffer)@ == spec_write_i32(old(buffer)@, offset as int, value as int),
        final(buffer)@.len() == old(buffer)@.len(),
{
    let b = i32_to_le(value);
    buffer[offset] = b[0];
    buffer[offset + 1] = b[1];
    buffer[offset + 2] = b[2];
    buffer[offset + 3] = b[3];
    assert(buffer@ =~= spec_write_i32(old(buffer)@, offset as int, value as int));
}

/// Overwrite the four bytes at `offset` with the little-endian `value`.
pub fn set_u32(buffer: &mut [u8], offset: usize, value: u32)
    requires
        offset + 4 <= old(buffer)@.len(),
    ensures
        final(buffer)@ == spec_write_i32(old(buffer)@, offset as int, value as int),
        final(buffer)@.len() == old(buffer)@.len(),
{
    let b = u32_to_le(value);
    buffer[offset] = b[0];
    buffer[offset + 1] = b[1];
    buffer[offset + 2] = b[2];
    buffer[offset + 3] = b[3];
    assert(buffer@ =~= spec_write_i32(old(buffer)@, offset as int, value as int));
}

/// Whether two byte slices hold the same bytes.
pub fn bytes_eq(a: &[u8], b: &[u8]) -> (r: bool)
    ensures
        r == (a@ == b@),
{
    if a.len() != b.len() {
        return false;
    }
    let mut i: usize = 0;
    while i < a.len()
        invariant
            a@.len() == b@.len(),
            i <= a@.len(),
            a@.subrange(0, i as int) == b@.subrange(0, i as int),
        decreases a@.len() - i,
    {
        if a[i] != b[i] {
            assert(a@[i as int] != b@[i as int]);
            return false;
        }
        assert(a@.subrange(0, i + 1) =~= a@.subrange(0, i as int).push(a@[i as int]));
        assert(b@.subrange(0, i + 1) =~= b@.subrange(0, i as int).push(b@[i as int]));
        i = i + 1;
    }
    assert(a@ =~= a@.subrange(0, a@.len() as int));
    assert(b@ =~= b@.subrange(0, b@.len() as int));
    true
}

/// Whether the bytes of `b` at `start` are exactly `pattern`.
pub fn matches_at(b: &[u8], start: usize, pattern: &[u8]) -> (r: bool)
    ensures
        r == (start as int + pattern@.len() <= b@.len() && b@.subrange(
            start as int,
            start + pattern@.len(),
        ) == pattern@),
{
    if start > b.len() || b.len() - start < pattern.len() {
        return false;
    }
    bytes_eq(&b[start..start + pattern.len()], pattern)
}

/// `buffer` with `old_len` bytes at `start` replaced by `replacement`.
pub fn splice(buffer: &[u8], start: usize, old_len: usize, replacement: &[u8]) -> (r: Vec<u8>)
    requires
        start + old_len <= buffer@.len(),
    ensures
        r@ == spec_splice(buffer@, start as int, old_len as int, replacement@),
{
    let n = buffer.len();
    let mut out = Vec::new();
    out.extend_from_slice(&buffer[0..start]);
    out.extend_from_slice(replacement);
    out.extend_from_slice(&buffer[start + old_len..n]);
    out
}

/// Classes of bytes that end a scanned span.
pub enum Stop {
    /// `.` or NUL, the terminators of a class-path component.
    DotOrNul,
    /// `.`.
    Dot,
    /// NUL.
    Nul,
    /// Anything but an ASCII letter, digit or `_` (ends an instance name).
    NotNameByte,
    /// Anything but an ASCII letter or space (ends a display name).
    NotDisplayNameByte,
}

/// Whether `b` is an ASCII letter.
pub open spec fn is_ascii_letter(b: u8) -> bool {
    (0x41 <= b <= 0x5a) || (0x61 <= b <= 0x7a)
}

/// Whether `b` is an ASCII digit.
pub open spec fn is_ascii_digit(b: u8) -> bool {
    0x30 <= b <= 0x39
}

/// Whether `b` belongs to the class `stop`.
pub open spec fn stops(b: u8, stop: Stop) -> bool {
    match stop {
        Stop::DotOrNul => b == 0x2e || b == 0,
        Stop::Dot => b == 0x2e,
        Stop::Nul => b == 0,
        Stop::NotNameByte => !(is_ascii_letter(b) || is_ascii_digit(b) || b == 0x5f),
        Stop::NotDisplayNameByte => !(is_ascii_letter(b) || b == 0x20),
    }
}

/// `i` is the first index of `t` whose byte is in `stop`.
pub open spec fn is_first_stop(t: Seq<u8>, stop: Stop, i: int) -> bool {
    &&& 0 <= i < t.len()
    &&& stops(t[i], stop)
    &&& forall|k: int| 0 <= k < i ==> !stops(#[trigger] t[k], stop)
}

/// The first index of `t` whose byte is in `stop`, if any.
#[verifier::opaque]
pub open spec fn spec_first_stop(t: Seq<u8>, stop: Stop) -> Option<int> {
    if exists|i: int| 0 <= i < t.len() && stops(#[trigger] t[i], stop) {
        Some(choose|i: int| is_first_stop(t, stop, i))
    } else {
        None
    }
}

pub(crate) proof fn lemma_first_stop_found(t: Seq<u8>, stop: Stop, i: int)
    requires
        is_first_stop(t, stop, i),
    ensures
        spec_first_stop(t, stop) == Some(i),
{
    reveal(spec_first_stop);
    let c = choose|j: int| is_first_stop(t, stop, j);
    assert(is_first_stop(t, stop, c));
    if c < i {
        assert(!stops(t[c], stop));
    }
    if i < c {
        assert(!stops(t[i], stop));
    }
}

proof fn lemma_first_stop_exists(t: Seq<u8>, stop: Stop, w: int)
    requires
        0 <= w < t.len(),
        stops(t[w], stop),
    ensures
        exists|i: int| is_first_stop(t, stop, i),
    decreases w,
{
    if exists|k: int| 0 <= k < w && stops(#[trigger] t[k], stop) {
        let k = choose|k: int| 0 <= k < w && stops(#[trigger] t[k], stop);
        lemma_first_stop_exists(t, stop, k);
    } else {
        assert(is_first_stop(t, stop, w));
    }
}

/// The index [`spec_first_stop`] gives is the first stop.
pub proof fn lemma_first_stop_some(t: Seq<u8>, stop: Stop)
    requires
        spec_first_stop(t, stop) is Some,
    ensures
        is_first_stop(t, stop, spec_first_stop(t, stop)->Some_0),
{
    reveal(spec_first_stop);
    let w = choose|i: int| 0 <= i < t.len() && stops(#[trigger] t[i], stop);
    lemma_first_stop_exists(t, stop, w);
}

/// The first stop stays first in any sequence that agrees with `t` up to
/// and including it.
pub proof fn lemma_first_stop_frame(t: Seq<u8>, t2: Seq<u8>, stop: Stop, d: int)
    requires
        spec_first_stop(t, stop) == Some(d),
        d < t2.len(),
        forall|i: int| 0 <= i <= d ==> #[trigger] t2[i] == t[i],
    ensures
        spec_first_stop(t2, stop) == Some(d),
{
    lemma_first_stop_some(t, stop);
    assert(t2[d] == t[d]);
    assert forall|k: int| 0 <= k < d implies !stops(#[trigger] t2[k], stop) by {
        assert(t2[k] == t[k]);
    }
    lemma_first_stop_found(t2, stop, d);
}

fn stops_exec(b: u8, stop: &Stop) -> (r: bool)
    ensures
        r == stops(b, *stop),
{
    match stop {
        Stop::DotOrNul => b == 0x2e || b == 0,
        Stop::Dot => b == 0x2e,
        Stop::Nul => b == 0,
        Stop::NotNameByte => !((0x41 <= b && b <= 0x5a) || (0x61 <= b && b <= 0x7a) || (0x30 <= b
            && b <= 0x39) || b == 0x5f),
        Stop::NotDisplayNameByte => !((0x41 <= b && b <= 0x5a) || (0x61 <= b && b <= 0x7a) || b
            == 0x20),
    }
}

/// Index of the first byte of `t` in the class `stop`.
pub fn position_of(t: &[u8], stop: Stop) -> (r: Option<usize>)
    ensures
        opt_usize_int(r) == spec_first_stop(t@, stop),
        r matches Some(i) ==> i < t@.len() && stops(t@[i as int], stop),
{
    reveal(spec_first_stop);
    let mut i: usize = 0;
    while i < t.len()
        invariant
            i <= t@.len(),
            forall|k: int| 0 <= k < i ==> !stops(#[trigger] t@[k], stop),
        decreases t@.len() - i,
    {
        if stops_exec(t[i], &stop) {
            proof {
                lemma_first_stop_found(t@, stop, i as int);
            }
            return Some(i);
        }
        i = i + 1;
    }
    None
}

/// An optional index as an integer.
pub open spec fn opt_usize_int(o: Option<usize>) -> Option<int> {
    match o {
        Some(i) => Some(i as int),
        None => None,
    }
}

} // verus!
