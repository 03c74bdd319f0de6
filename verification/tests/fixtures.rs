//! End-to-end checks on synthetic world saves: one archive v3 save and one
//! archive v2 save, each with a resource container, an item list holding
//! one stack, and a load-screen icon in the prefix.

use std::io::Write as _;

use alters_save_core::sav::{ArchiveVersion, SaveFile};
use alters_save_core::{error, items, resources, verify};

fn lstr(text: &[u8]) -> Vec<u8> {
    let mut out = ((text.len() + 1) as i32).to_le_bytes().to_vec();
    out.extend_from_slice(text);
    out.push(0);
    out
}

fn i32s(v: i32) -> Vec<u8> {
    v.to_le_bytes().to_vec()
}

const MARKER: [u8; 8] = [0x04, 0, 0, 0, 0x09, 0, 0x09, 0];

fn filler(len: usize, seed: u32) -> Vec<u8> {
    let mut state = seed;
    (0..len)
        .map(|_| {
            state = state.wrapping_mul(1_103_515_245).wrapping_add(12_345);
            // Keep to bytes that never start a searched pattern.
            b'a' + ((state >> 16) % 20) as u8
        })
        .collect()
}

fn container(name: &str, amount: i32, second: i32) -> Vec<u8> {
    let class = format!("/Game/P9Playable/Resources/BP_Resource_{name}.BP_Resource_{name}_C");
    let mut out = lstr(class.as_bytes());
    out.extend(i32s(0));
    out.extend(lstr(b"/Script/P9Playable.P9ResourceContainer"));
    out.extend(lstr(b"P9ResourceContainer_7"));
    let mut payload = lstr(b"None");
    payload.extend(i32s(0));
    payload.push(0);
    payload.extend(MARKER);
    payload.extend(i32s(amount));
    payload.extend(MARKER);
    payload.extend(i32s(second));
    out.extend(i32s(0));
    out.extend(i32s(payload.len() as i32));
    out.push(0);
    out.extend(payload);
    out
}

fn count_prop(version: i32) -> Vec<u8> {
    let mut out = lstr(b"Count");
    out.extend(lstr(b"IntProperty"));
    if version == 2 {
        out.extend([4, 0, 0, 0, 0, 0, 0, 0, 0]);
    } else {
        out.extend([0, 0, 0, 0, 4, 0, 0, 0, 0]);
    }
    out
}

fn stack_record(version: i32, item: &str, id: u32, count: i32) -> Vec<u8> {
    let mut props = vec![0u8];
    props.extend(lstr(b"Durability"));
    props.extend(lstr(b"None"));
    props.extend(i32s(0));
    let mut inner = vec![0x2e, 0x01, 0x2e, 0x01];
    inner.extend(i32s(0));
    let class = format!("/Game/P9Playable/Items/BP_Item_{item}.BP_Item_{item}_C");
    inner.extend(lstr(class.as_bytes()));
    inner.extend(lstr(format!("BP_Item_{item}_C_{id}").as_bytes()));
    inner.extend(i32s(0));
    inner.extend(i32s(props.len() as i32));
    inner.extend(props);
    inner.extend(lstr(b"/Engine/Transient"));
    let mut content = vec![0u8];
    content.extend(count_prop(version));
    content.extend(i32s(count));
    content.extend(lstr(b"None"));
    content.extend(i32s(0));
    content.extend(i32s(inner.len() as i32));
    content.extend(inner);
    let mut out = lstr(b"/Script/P9Playable.P9ItemStack");
    out.extend(lstr(format!("P9ItemStack_{}", id + 1).as_bytes()));
    out.extend(i32s(0));
    out.extend(i32s(content.len() as i32));
    out.extend(content);
    out
}

fn subsystem(version: i32) -> Vec<u8> {
    let records = stack_record(version, "RepairKit", 1000, 3);
    let mut list = i32s((records.len() + 12) as i32);
    list.extend([0x2e, 0x41, 0x2e, 0x41]);
    list.extend(i32s(1));
    list.extend(i32s(0));
    list.extend(records);
    let mut content = filler(24, 7);
    content.extend(list);
    content.extend(filler(16, 9));
    let mut out = lstr(b"/Script/P9Playable.P9ResourceSubsystem");
    out.extend(lstr(b"P9ResourceSubsystem_0"));
    out.extend(i32s(0));
    out.extend(i32s(content.len() as i32));
    out.extend(content);
    out
}

fn body(version: i32) -> Vec<u8> {
    let mut out = i32s(0);
    out.extend(filler(1500, 1));
    out.extend(container("Metals", 120, 500));
    out.extend(filler(40, 2));
    out.extend(subsystem(version));
    out.extend(filler(1500, 3));
    let len = out.len() as i32;
    out[0..4].copy_from_slice(&len.to_le_bytes());
    out
}

fn compress(data: &[u8]) -> Vec<u8> {
    let mut encoder = flate2::write::ZlibEncoder::new(Vec::new(), flate2::Compression::default());
    encoder.write_all(data).expect("write");
    encoder.finish().expect("finish")
}

fn save_bytes(version: i32, body: &[u8]) -> Vec<u8> {
    let mut payload = Vec::new();
    for block in body.chunks(0x2_0000) {
        let compressed = compress(block);
        payload.extend(0x2222_2222_9E2A_83C1u64.to_le_bytes());
        payload.extend(0x2_0000u64.to_le_bytes());
        payload.push(3);
        for size in [compressed.len(), block.len(), compressed.len(), block.len()] {
            payload.extend((size as u64).to_le_bytes());
        }
        payload.extend(compressed);
    }
    let mut prefix = b"GVAS".to_vec();
    prefix.extend(filler(32, 4));
    let inner = prefix.len();
    prefix.extend(i32s(0));
    prefix.extend(i32s(version));
    prefix.extend(i32s(1));
    // The icon path names the icon twice, so two entries are synced.
    prefix.extend(b"T_Resource_icon_Metals.T_Resource_icon_Metals\0");
    prefix.extend(MARKER);
    prefix.extend(i32s(5));
    prefix.extend(filler(64, 5));
    let total = prefix.len();
    prefix.extend(i32s(0));
    let file_len = prefix.len() + payload.len();
    let inner_value = (file_len - inner - 4) as i32;
    prefix[inner..inner + 4].copy_from_slice(&inner_value.to_le_bytes());
    let total_value = (file_len - total - 4) as i32;
    prefix[total..total + 4].copy_from_slice(&total_value.to_le_bytes());
    let mut out = prefix;
    out.extend(payload);
    out
}

#[test]
fn act0_fixture_is_v3_and_verifies() {
    let bytes = save_bytes(3, &body(3));
    let save = SaveFile::parse(&bytes).expect("parses");
    assert_eq!(save.archive_version(), ArchiveVersion::V3);
    assert!(!resources::containers(&save.body).is_empty());
    let verify::Outcome::Pass(summary) = verify::verify(&bytes) else {
        panic!("expected pass");
    };
    assert!(summary.contains("injection"), "{summary}");
}

#[test]
fn act2_fixture_is_v2_and_verifies() {
    let bytes = save_bytes(2, &body(2));
    let save = SaveFile::parse(&bytes).expect("parses");
    assert_eq!(save.archive_version(), ArchiveVersion::V2);
    let inventory =
        items::inventory(&save.body, save.archive_version()).expect("v2 inventory lists");
    assert!(!inventory.stacks.is_empty());
    let verify::Outcome::Pass(summary) = verify::verify(&bytes) else {
        panic!("expected pass");
    };
    assert!(summary.contains("injection skipped"), "{summary}");
}

#[test]
fn v2_injection_is_refused() {
    let bytes = save_bytes(2, &body(2));
    let save = SaveFile::parse(&bytes).expect("parses");
    let result = items::add_stack(
        &save.body,
        save.archive_version(),
        &items::ItemClass("BridgePylon".to_owned()),
        4,
    );
    assert!(matches!(
        result,
        Err(error::Error::UnsupportedArchiveVersion(2))
    ));
}

#[test]
fn v3_save_verifies_with_exact_summary() {
    let body = body(3);
    let bytes = save_bytes(3, &body);
    let verify::Outcome::Pass(summary) = verify::verify(&bytes) else {
        panic!("expected pass");
    };
    assert_eq!(
        summary,
        format!(
            "body {} bytes, 1 resource containers, 2 meta counts, injection ok (2 stacks)",
            body.len()
        )
    );
}

#[test]
fn v2_save_verifies_with_skipped_injection() {
    let body = body(2);
    let bytes = save_bytes(2, &body);
    let verify::Outcome::Pass(summary) = verify::verify(&bytes) else {
        panic!("expected pass");
    };
    assert_eq!(
        summary,
        format!(
            "body {} bytes, 1 resource containers, 2 meta counts, injection skipped (unsupported archive version 2 for this operation)",
            body.len()
        )
    );
}

#[test]
fn random_bytes_are_not_a_world_save() {
    let bytes = filler(5000, 11);
    assert!(matches!(verify::verify(&bytes), verify::Outcome::NotWorldSave));
}

fn chunk_start(bytes: &[u8]) -> usize {
    let tag = 0x2222_2222_9E2A_83C1u64.to_le_bytes();
    bytes.windows(8).position(|w| w == tag).expect("chunk")
}

fn parse_error(bytes: &[u8]) -> error::Error {
    SaveFile::parse(bytes).err().expect("refused")
}

#[test]
fn unknown_compression_is_refused() {
    let mut bytes = save_bytes(3, &body(3));
    let start = chunk_start(&bytes);
    bytes[start + 16] = 4;
    assert!(matches!(parse_error(&bytes), error::Error::UnsupportedCompression(4)));
}

#[test]
fn corrupt_zlib_data_is_an_inflate_error() {
    let mut bytes = save_bytes(3, &body(3));
    let start = chunk_start(&bytes);
    bytes[start + 49] ^= 0xff;
    bytes[start + 50] ^= 0xff;
    match parse_error(&bytes) {
        error::Error::Inflate { offset, .. } => assert_eq!(offset, start),
        other => panic!("unexpected {}", other.message()),
    }
}

#[test]
fn declared_length_mismatch_is_malformed() {
    let mut bytes = save_bytes(3, &body(3));
    let start = chunk_start(&bytes);
    let declared = u64::from_le_bytes(bytes[start + 25..start + 33].try_into().unwrap());
    for at in [start + 25, start + 41] {
        bytes[at..at + 8].copy_from_slice(&(declared - 1).to_le_bytes());
    }
    assert_eq!(
        parse_error(&bytes).message(),
        format!(
            "malformed chunk header at offset {start}: inflated {declared} bytes, header declared {}",
            declared - 1
        )
    );
}

#[test]
fn chunk_data_past_the_end_is_out_of_bounds() {
    let mut bytes = save_bytes(3, &body(3));
    let start = chunk_start(&bytes);
    let huge = 0x10_0000u64.to_le_bytes();
    bytes[start + 17..start + 25].copy_from_slice(&huge);
    bytes[start + 33..start + 41].copy_from_slice(&huge);
    let len = bytes.len();
    match parse_error(&bytes) {
        error::Error::OutOfBounds { what, value, len: file_len } => {
            assert_eq!(what, "chunk data");
            assert_eq!(value, start + 49 + 0x10_0000);
            assert_eq!(file_len, len);
        }
        other => panic!("unexpected {}", other.message()),
    }
}

#[test]
fn missing_size_fields_are_counted() {
    let good = save_bytes(3, &body(3));
    let start = chunk_start(&good);
    let mut no_total = good.clone();
    no_total[start - 4..start].copy_from_slice(&0i32.to_le_bytes());
    assert!(matches!(parse_error(&no_total), error::Error::SizeFieldCount(0)));
    let mut no_inner = good.clone();
    no_inner[36..40].copy_from_slice(&0i32.to_le_bytes());
    assert!(matches!(parse_error(&no_inner), error::Error::SizeFieldCount(1)));
}

#[test]
fn stale_container_offset_is_out_of_bounds() {
    let full = body(3);
    let found = resources::containers(&full);
    let mut short = full[..100].to_vec();
    match resources::set_amount(&mut short, &found[0], 1) {
        Err(error::Error::OutOfBounds { what, len, .. }) => {
            assert_eq!(what, "resource amount field");
            assert_eq!(len, 100);
        }
        _ => panic!("expected out of bounds"),
    }
}

#[test]
fn body_without_subsystem_has_no_inventory() {
    let body = filler(400, 17);
    let error = items::inventory(&body, ArchiveVersion::V3).err().expect("fails");
    assert_eq!(
        error.message(),
        "malformed chunk header at offset 0: item list structure: P9ResourceSubsystem record not found"
    );
    let other = items::inventory(&body, ArchiveVersion::Other(9)).err().expect("fails");
    assert!(matches!(other, error::Error::UnsupportedArchiveVersion(9)));
}
