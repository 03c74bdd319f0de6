//! Text conversions: UTF-8 decoding of byte spans and decimal rendering of
//! integers for messages.
use vstd::prelude::*;
use vstd::utf8::*;

verus! {

/// Decimal digits of `n`, most significant first.
pub open spec fn decimal_chars(n: nat) -> Seq<char>
    decreases n,
{
    if n < 10 {
        seq![(48 + n) as char]
    } else {
        decimal_chars(n / 10) + seq![(48 + n % 10) as char]
    }
}

/// Decimal rendering of a signed integer, with a leading `-` when negative.
pub open spec fn signed_decimal_chars(v: int) -> Seq<char> {
    if v < 0 {
        seq!['-'] + decimal_chars((-v) as nat)
    } else {
        decimal_chars(v as nat)
    }
}

fn digit_str(d: u64) -> (r: &'static str)
    requires
        d < 10,
    ensures
        r@ == seq![(48 + d) as char],
{
    proof {
        reveal_strlit("0");
        reveal_strlit("1");
        reveal_strlit("2");
        reveal_strlit("3");
        reveal_strlit("4");
        reveal_strlit("5");
        reveal_strlit("6");
        reveal_strlit("7");
        reveal_strlit("8");
        reveal_strlit("9");
    }
    match d {
        0 => "0",
        1 => "1",
        2 => "2",
        3 => "3",
        4 => "4",
        5 => "5",
        6 => "6",
        7 => "7",
        8 => "8",
        _ => "9",
    }
}

/// Append the decimal digits of `n` to `s`.
pub fn push_decimal(s: &mut String, n: u64)
    ensures
        final(s)@ == old(s)@ + decimal_chars(n as nat),
    decreases n,
{
    if n >= 10 {
        push_decimal(s, n / 10);
    }
    s.append(digit_str(n % 10));
    proof {
        if n >= 10 {
            assert(final(s)@ =~= old(s)@ + decimal_chars(n as nat));
        } else {
            assert(final(s)@ =~= old(s)@ + decimal_chars(n as nat));
        }
    }
}

/// Append the decimal rendering of the signed `v` to `s`.
pub fn push_signed_decimal(s: &mut String, v: i64)
    ensures
        final(s)@ == old(s)@ + signed_decimal_chars(v as int),
{
    if v < 0 {
        proof {
            reveal_strlit("-");
        }
        s.append("-");
        let magnitude: u64 = if v == i64::MIN {
            0x8000_0000_0000_0000u64
        } else {
            (-v) as u64
        };
        push_decimal(s, magnitude);
        assert(final(s)@ =~= old(s)@ + signed_decimal_chars(v as int));
    } else {
        push_decimal(s, v as u64);
    }
}

/// ASCII decimal digits of `n`, most significant first.
pub open spec fn decimal_bytes(n: nat) -> Seq<u8>
    decreases n,
{
    if n < 10 {
        seq![(48 + n) as u8]
    } else {
        decimal_bytes(n / 10) + seq![(48 + n % 10) as u8]
    }
}

/// A decimal rendering is short: at most one digit more than a tenth of
/// the value.
pub proof fn lemma_decimal_bytes_len(n: nat)
    ensures
        1 <= decimal_bytes(n).len() <= 1 + n / 10,
    decreases n,
{
    if n >= 10 {
        lemma_decimal_bytes_len(n / 10);
    }
}

/// Ten to the power `k`.
pub open spec fn ten_pow(k: nat) -> nat
    decreases k,
{
    if k == 0 {
        1
    } else {
        10 * ten_pow((k - 1) as nat)
    }
}

/// A number below `10^k` (with `k >= 1`) has at most `k` digits.
pub proof fn lemma_decimal_bytes_digits(n: nat, k: nat)
    requires
        k >= 1,
        n < ten_pow(k),
    ensures
        decimal_bytes(n).len() <= k,
    decreases k,
{
    if n >= 10 {
        if k == 1 {
            assert(ten_pow(1) == 10 * ten_pow(0));
        }
        let b2 = ten_pow((k - 1) as nat);
        assert(n / 10 < b2) by (nonlinear_arith)
            requires
                n < 10 * b2,
        ;
        lemma_decimal_bytes_digits(n / 10, (k - 1) as nat);
    }
}

/// Append the ASCII decimal digits of `n` to `out`.
pub fn push_decimal_bytes(out: &mut Vec<u8>, n: u64)
    ensures
        final(out)@ == old(out)@ + decimal_bytes(n as nat),
    decreases n,
{
    if n >= 10 {
        push_decimal_bytes(out, n / 10);
    }
    out.push((48 + n % 10) as u8);
    assert(final(out)@ =~= old(out)@ + decimal_bytes(n as nat));
}

/// Decode `bytes` as UTF-8.
///
/// Calls `std::str::from_utf8`; trusted to succeed exactly on valid UTF-8
/// (as vstd's `valid_utf8` defines it) and then to decode as `decode_utf8`.
#[verifier::external_body]
pub(crate) fn str_from_utf8(bytes: &[u8]) -> (r: Option<&str>)
    ensures
        r is Some <==> valid_utf8(bytes@),
        r matches Some(s) ==> s@ == decode_utf8(bytes@),
{
    std::str::from_utf8(bytes).ok()
}

/// Characters that `String::from_utf8_lossy` produces for `bytes`.
pub uninterp spec fn utf8_lossy(bytes: Seq<u8>) -> Seq<char>;

/// The lossy decoding of `bytes`: the plain decoding of valid UTF-8, what
/// `String::from_utf8_lossy` substitutes otherwise.
pub open spec fn lossy_decode(bytes: Seq<u8>) -> Seq<char> {
    if valid_utf8(bytes) {
        decode_utf8(bytes)
    } else {
        utf8_lossy(bytes)
    }
}

/// Decode `bytes` as UTF-8, replacing invalid sequences.
///
/// Calls `String::from_utf8_lossy`; trusted to give `utf8_lossy` of the
/// bytes, which on valid UTF-8 is the plain decoding (as its documentation
/// states). What it substitutes for invalid sequences is left to the name.
#[verifier::external_body]
pub(crate) fn string_from_utf8_lossy(bytes: &[u8]) -> (r: String)
    ensures
        r@ == utf8_lossy(bytes@),
        valid_utf8(bytes@) ==> r@ == decode_utf8(bytes@),
        r@ == lossy_decode(bytes@),
{
    String::from_utf8_lossy(bytes).into_owned()
}

/// `b` without the suffix `s` when it ends with it.
pub open spec fn strip_suffix_bytes(b: Seq<u8>, s: Seq<u8>) -> Seq<u8> {
    if s.len() <= b.len() && b.subrange(b.len() - s.len(), b.len() as int) == s {
        b.subrange(0, b.len() - s.len())
    } else {
        b
    }
}

/// `b` without the prefix `p` when it starts with it.
pub open spec fn strip_prefix_bytes(b: Seq<u8>, p: Seq<u8>) -> Seq<u8> {
    if p.len() <= b.len() && b.subrange(0, p.len() as int) == p {
        b.subrange(p.len() as int, b.len() as int)
    } else {
        b
    }
}

proof fn lemma_valid_before_ascii(b: Seq<u8>, idx: int)
    requires
        valid_utf8(b),
        0 <= idx < b.len(),
        b[idx] < 0x80,
    ensures
        valid_utf8(b.subrange(0, idx)),
{
    is_char_boundary_iff_not_is_continuation_byte(b, idx);
    valid_utf8_split(b, idx);
}

proof fn lemma_valid_after_ascii(b: Seq<u8>, idx: int)
    requires
        valid_utf8(b),
        1 <= idx <= b.len(),
        b[idx - 1] < 0x80,
    ensures
        valid_utf8(b.subrange(idx, b.len() as int)),
{
    is_char_boundary_iff_not_is_continuation_byte(b, idx - 1);
    valid_utf8_split(b, idx - 1);
    let s = b.subrange(idx - 1, b.len() as int);
    assert(s[0] == b[idx - 1]);
    assert(length_of_first_scalar(s) == 1);
    assert(pop_first_scalar(s) =~= b.subrange(idx, b.len() as int));
}

/// The text of `b` without the suffix `s`, when `b` is UTF-8.
#[verifier::opaque]
pub open spec fn spec_decode_strip_suffix(b: Seq<u8>, s: Seq<u8>) -> Option<Seq<char>> {
    if valid_utf8(b) {
        Some(decode_utf8(strip_suffix_bytes(b, s)))
    } else {
        None
    }
}

/// The text of `b` without the prefix `p`, when `b` is UTF-8.
#[verifier::opaque]
pub open spec fn spec_decode_strip_prefix(b: Seq<u8>, p: Seq<u8>) -> Option<Seq<char>> {
    if valid_utf8(b) {
        Some(decode_utf8(strip_prefix_bytes(b, p)))
    } else {
        None
    }
}

/// An optional string as its characters.
pub open spec fn opt_chars(o: Option<String>) -> Option<Seq<char>> {
    match o {
        Some(s) => Some(s@),
        None => None,
    }
}

/// Decode `bytes` as UTF-8 and drop the ASCII `suffix` when it ends the
/// text; `None` when the bytes are not UTF-8.
pub fn decode_strip_suffix(bytes: &[u8], suffix: &[u8]) -> (r: Option<String>)
    requires
        suffix@.len() > 0,
        suffix@[0] < 0x80,
    ensures
        opt_chars(r) == spec_decode_strip_suffix(bytes@, suffix@),
{
    reveal(spec_decode_strip_suffix);
    if str_from_utf8(bytes).is_none() {
        return None;
    }
    let n = bytes.len();
    let m = suffix.len();
    if m <= n && crate::bytes::matches_at(bytes, n - m, suffix) {
        proof {
            lemma_valid_before_ascii(bytes@, n - m);
        }
        match str_from_utf8(&bytes[0..n - m]) {
            Some(text) => Some(text.to_owned()),
            None => None,
        }
    } else {
        match str_from_utf8(bytes) {
            Some(text) => Some(text.to_owned()),
            None => None,
        }
    }
}

/// Decode `bytes` as UTF-8 and drop the `prefix` (ending in an ASCII
/// byte) when it starts the text; `None` when the bytes are not UTF-8.
pub fn decode_strip_prefix(bytes: &[u8], prefix: &[u8]) -> (r: Option<String>)
    requires
        prefix@.len() > 0,
        prefix@.last() < 0x80,
    ensures
        opt_chars(r) == spec_decode_strip_prefix(bytes@, prefix@),
{
    reveal(spec_decode_strip_prefix);
    if str_from_utf8(bytes).is_none() {
        return None;
    }
    let n = bytes.len();
    let m = prefix.len();
    if crate::bytes::matches_at(bytes, 0, prefix) {
        proof {
            assert(bytes@.subrange(0, m as int)[m - 1] == bytes@[m - 1]);
            lemma_valid_after_ascii(bytes@, m as int);
        }
        match str_from_utf8(&bytes[m..n]) {
            Some(text) => Some(text.to_owned()),
            None => None,
        }
    } else {
        match str_from_utf8(bytes) {
            Some(text) => Some(text.to_owned()),
            None => None,
        }
    }
}

} // verus!
