//! Byte-level helpers, searches, decimal rendering and error messages.

use alters_save_core::bytes::{lstr, read_i32, read_lstr, read_usize, splice};
use alters_save_core::error::Error;
use alters_save_core::search::{find, find_all, rfind};
use alters_save_core::text::{push_decimal, push_signed_decimal};

#[test]
fn little_endian_reads() {
    let bytes = [0xff, 0xff, 0xff, 0xff, 0x05, 0x00, 0x00, 0x00];
    assert_eq!(read_i32(&bytes, 0), Some(-1));
    assert_eq!(read_i32(&bytes, 4), Some(5));
    assert_eq!(read_i32(&bytes, 5), None);
    assert_eq!(read_usize(&bytes, 0), None);
    assert_eq!(read_usize(&bytes, 4), Some(5));
}

#[test]
fn lstr_roundtrip() {
    let encoded = lstr(b"None");
    assert_eq!(encoded, vec![5, 0, 0, 0, b'N', b'o', b'n', b'e', 0]);
    assert_eq!(read_lstr(&encoded, 0), Some((&b"None"[..], 9)));
    assert_eq!(read_lstr(&encoded[..8], 0), None);
}

#[test]
fn splice_replaces_a_span() {
    assert_eq!(splice(b"abcdef", 2, 2, b"XYZ"), b"abXYZef".to_vec());
    assert_eq!(splice(b"abc", 3, 0, b"d"), b"abcd".to_vec());
}

#[test]
fn searches_find_first_last_and_all() {
    let hay = b"abcabcab";
    assert_eq!(find(hay, b"bc"), Some(1));
    assert_eq!(rfind(hay, b"bc"), Some(4));
    assert_eq!(find(hay, b"zz"), None);
    assert_eq!(find_all(b"aaaa", b"aa"), vec![0, 2]);
}

#[test]
fn decimals_render() {
    let mut s = String::new();
    push_decimal(&mut s, 1_234_567);
    s.push(' ');
    push_signed_decimal(&mut s, -42);
    s.push(' ');
    push_signed_decimal(&mut s, i64::MIN);
    assert_eq!(s, "1234567 -42 -9223372036854775808");
}

#[test]
fn error_messages_read_as_sentences() {
    assert_eq!(
        Error::UnsupportedArchiveVersion(2).message(),
        "unsupported archive version 2 for this operation"
    );
    assert_eq!(
        Error::OutOfBounds { what: "i32 field", value: 10, len: 8 }.message(),
        "i32 field out of bounds: 10 (file len 8)"
    );
    assert_eq!(
        Error::SizeFieldCount(3).message(),
        "expected 2 EOF-relative size fields in prefix, found 3"
    );
    assert_eq!(
        Error::MalformedChunk { offset: 7, reason: "bad tag".to_owned() }.message(),
        "malformed chunk header at offset 7: bad tag"
    );
}

#[test]
fn every_buffer_length_is_within_the_address_space() {
    assert!(alters_save_core::within_address_space(0));
    assert!(alters_save_core::within_address_space(usize::MAX / 2));
    assert!(!alters_save_core::within_address_space(usize::MAX));
    assert!(alters_save_core::has_room(10, 256));
    assert!(!alters_save_core::has_room(usize::MAX / 2, 1));
}
