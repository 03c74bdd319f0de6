//! The editor's summary and edits on a synthetic archive v3 save holding
//! every kind of editable record: a resource container, an item list, the
//! game clock, research arrays, an alter with emotions and radiation, and
//! a dead alter.

use std::io::Write as _;

use alters_save_core::editor::{
    apply_edits, summarize, AddItemEdit, Edits, EmotionEdit, ItemCountEdit, RadiationEdit,
    ResourceEdit, TimeEdit,
};
use alters_save_core::sav::SaveFile;
use alters_save_core::{alters, items, research, resources, time};

fn lstr(text: &[u8]) -> Vec<u8> {
    let mut out = ((text.len() + 1) as i32).to_le_bytes().to_vec();
    out.extend_from_slice(text);
    out.push(0);
    out
}

fn i32s(v: i32) -> Vec<u8> {
    v.to_le_bytes().to_vec()
}

const MARKER: [u8; 8] = [0x04, 0, 0, 0, 0x09, 0, 0x09, 0];
const FLOAT_MARKER: [u8; 8] = [0x04, 0, 0, 0, 0x15, 0, 0x15, 0];

fn filler(len: usize, seed: u32) -> Vec<u8> {
    let mut state = seed;
    (0..len)
        .map(|_| {
            state = state.wrapping_mul(1_103_515_245).wrapping_add(12_345);
            b'a' + ((state >> 16) % 20) as u8
        })
        .collect()
}

fn record(class: &[u8], instance: &[u8], content: &[u8]) -> Vec<u8> {
    let mut out = lstr(class);
    out.extend(lstr(instance));
    out.extend(i32s(0));
    out.extend(i32s(content.len() as i32));
    out.extend_from_slice(content);
    out
}

fn component(class: &[u8], instance: &[u8], content: &[u8]) -> Vec<u8> {
    let mut out = lstr(class);
    out.extend(lstr(instance));
    out.extend(i32s(1));
    out.extend(lstr(b"Elb_Serializable"));
    out.extend(i32s(content.len() as i32));
    out.extend_from_slice(content);
    out
}

fn container(name: &str, amount: i32, second: i32) -> Vec<u8> {
    let class = format!("/Game/P9Playable/Resources/BP_Resource_{name}.BP_Resource_{name}_C");
    let mut out = lstr(class.as_bytes());
    out.extend(i32s(0));
    out.extend(lstr(b"/Script/P9Playable.P9ResourceContainer"));
    out.extend(lstr(b"P9ResourceContainer_7"));
    let mut payload = lstr(b"None");
    payload.extend(i32s(0));
    payload.push(0);
    payload.extend(MARKER);
    payload.extend(i32s(amount));
    payload.extend(MARKER);
    payload.extend(i32s(second));
    out.extend(i32s(0));
    out.extend(i32s(payload.len() as i32));
    out.push(0);
    out.extend(payload);
    out
}

fn int_prop(name: &[u8]) -> Vec<u8> {
    let mut out = lstr(name);
    out.extend(lstr(b"IntProperty"));
    out.extend([0, 0, 0, 0, 4, 0, 0, 0, 0]);
    out
}

fn stack_record(item: &str, id: u32, count: i32) -> Vec<u8> {
    let mut props = vec![0u8];
    props.extend(lstr(b"Durability"));
    props.extend(lstr(b"None"));
    props.extend(i32s(0));
    let mut inner = vec![0x2e, 0x01, 0x2e, 0x01];
    inner.extend(i32s(0));
    let class = format!("/Game/P9Playable/Items/BP_Item_{item}.BP_Item_{item}_C");
    inner.extend(lstr(class.as_bytes()));
    inner.extend(lstr(format!("BP_Item_{item}_C_{id}").as_bytes()));
    inner.extend(i32s(0));
    inner.extend(i32s(props.len() as i32));
    inner.extend(props);
    inner.extend(lstr(b"/Engine/Transient"));
    let mut content = vec![0u8];
    content.extend(int_prop(b"Count"));
    content.extend(i32s(count));
    content.extend(lstr(b"None"));
    content.extend(i32s(0));
    content.extend(i32s(inner.len() as i32));
    content.extend(inner);
    let mut out = lstr(b"/Script/P9Playable.P9ItemStack");
    out.extend(lstr(format!("P9ItemStack_{}", id + 1).as_bytes()));
    out.extend(i32s(0));
    out.extend(i32s(content.len() as i32));
    out.extend(content);
    out
}

fn item_subsystem() -> Vec<u8> {
    let records = stack_record("RepairKit", 1000, 3);
    let mut list = i32s((records.len() + 12) as i32);
    list.extend([0x2e, 0x41, 0x2e, 0x41]);
    list.extend(i32s(1));
    list.extend(i32s(0));
    list.extend(records);
    let mut content = filler(24, 7);
    content.extend(list);
    content.extend(filler(16, 9));
    record(b"/Script/P9Playable.P9ResourceSubsystem", b"P9ResourceSubsystem_0", &content)
}

fn time_system(day: i32, hour: i32, minute: i32) -> Vec<u8> {
    let mut content = filler(20, 21);
    content.extend(lstr(b"CurrentTime"));
    content.extend(lstr(b"StructProperty"));
    content.extend(int_prop(b"Date"));
    content.extend(i32s(day));
    content.extend(int_prop(b"Hour"));
    content.extend(i32s(hour));
    content.extend(int_prop(b"Minute"));
    content.extend(i32s(minute));
    content.extend(filler(20, 22));
    record(b"/Script/P9Playable.P9TimeSystem", b"P9TimeSystem_0", &content)
}

fn object_array(name: &[u8], paths: &[&str]) -> Vec<u8> {
    let mut out = lstr(name);
    out.extend(lstr(b"ArrayProperty"));
    out.extend(i32s(1));
    out.extend(lstr(b"ObjectProperty"));
    out.extend(i32s(0));
    let mut elements = Vec::new();
    for path in paths {
        elements.extend(lstr(path.as_bytes()));
    }
    out.extend(i32s((elements.len() + 4) as i32));
    out.push(0);
    out.extend(i32s(paths.len() as i32));
    out.extend(elements);
    out
}

fn research_subsystem() -> Vec<u8> {
    let mut content = filler(12, 31);
    content.extend(object_array(
        b"UnlockedResearches",
        &["/Game/Tech/BP_Technology_A.BP_Technology_A_C", "/Game/Tech/BP_Technology_B.BP_Technology_B_C"],
    ));
    content.extend(object_array(
        b"DiscoveredTechnologies",
        &["/Game/Tech/BP_Technology_A.BP_Technology_A_C"],
    ));
    content.extend(filler(12, 32));
    record(b"/Script/P9Playable.P9ResearchSubsystem", b"P9ResearchSubsystem_0", &content)
}

fn emotion(name: &str, bits: u32) -> Vec<u8> {
    let class =
        format!("/Game/P9Playable/Systems/Pawn/Emotions/BP_Emotion_{name}.BP_Emotion_{name}_C");
    let mut content = filler(6, 41);
    content.extend(FLOAT_MARKER);
    content.extend(bits.to_le_bytes());
    record(class.as_bytes(), format!("BP_Emotion_{name}_C_3").as_bytes(), &content)
}

fn radiation(bits: u32) -> Vec<u8> {
    let mut content = filler(6, 42);
    content.extend(FLOAT_MARKER);
    content.extend(bits.to_le_bytes());
    component(
        b"/Game/P9Playable/Systems/Pawn/Radiation/BP_CloneRadiation.BP_CloneRadiation_C",
        b"BP_CloneRadiation_C_4",
        &content,
    )
}

fn character_manager() -> Vec<u8> {
    let mut content = filler(8, 51);
    content.extend(lstr(b"DeadAlters"));
    content.extend(lstr(b"ArrayProperty"));
    content.extend(i32s(0));
    content.extend(lstr(b"NameProperty"));
    content.extend(i32s(0));
    content.extend(i32s(40));
    content.push(0);
    content.extend(i32s(1));
    content.extend(lstr(b"Jan Botanist"));
    content.extend(filler(8, 52));
    record(
        b"/Script/P9Playable.P9CharacterManagerSubsystem",
        b"P9CharacterManagerSubsystem_0",
        &content,
    )
}

const HALF: u32 = 0x3f00_0000;
const ONE: u32 = 0x3f80_0000;
const QUARTER: u32 = 0x3e80_0000;

fn body() -> Vec<u8> {
    let mut out = i32s(0);
    out.extend(filler(1500, 1));
    out.extend(container("Metals", 120, 500));
    out.extend(filler(40, 2));
    out.extend(item_subsystem());
    out.extend(time_system(12, 7, 30));
    out.extend(research_subsystem());
    out.extend(lstr(b"Jan_Technician_0"));
    out.extend(emotion("Fun", HALF));
    out.extend(emotion("Gloom", QUARTER));
    out.extend(emotion("Fun", HALF));
    out.extend(radiation(ONE));
    out.extend(character_manager());
    out.extend(filler(1500, 3));
    let len = out.len() as i32;
    out[0..4].copy_from_slice(&len.to_le_bytes());
    out
}

fn save_bytes(body: &[u8]) -> Vec<u8> {
    let mut payload = Vec::new();
    for block in body.chunks(0x2_0000) {
        let mut encoder =
            flate2::write::ZlibEncoder::new(Vec::new(), flate2::Compression::default());
        encoder.write_all(block).expect("write");
        let compressed = encoder.finish().expect("finish");
        payload.extend(0x2222_2222_9E2A_83C1u64.to_le_bytes());
        payload.extend(0x2_0000u64.to_le_bytes());
        payload.push(3);
        for size in [compressed.len(), block.len(), compressed.len(), block.len()] {
            payload.extend((size as u64).to_le_bytes());
        }
        payload.extend(compressed);
    }
    let mut prefix = b"GVAS".to_vec();
    prefix.extend(filler(32, 4));
    let inner = prefix.len();
    prefix.extend(i32s(0));
    prefix.extend(i32s(3));
    prefix.extend(i32s(1));
    prefix.extend(b"T_Resource_icon_Metals\0");
    prefix.extend(MARKER);
    prefix.extend(i32s(5));
    prefix.extend(filler(64, 5));
    let total = prefix.len();
    prefix.extend(i32s(0));
    let file_len = prefix.len() + payload.len();
    let inner_value = (file_len - inner - 4) as i32;
    prefix[inner..inner + 4].copy_from_slice(&inner_value.to_le_bytes());
    let total_value = (file_len - total - 4) as i32;
    prefix[total..total + 4].copy_from_slice(&total_value.to_le_bytes());
    let mut out = prefix;
    out.extend(payload);
    out
}

fn no_edits() -> Edits {
    Edits {
        resources: Vec::new(),
        item_counts: Vec::new(),
        add_items: Vec::new(),
        time: None,
        alter_emotions: Vec::new(),
        alter_radiation: Vec::new(),
        complete_research: false,
    }
}

#[test]
fn summary_lists_every_editable_record() {
    let summary = summarize(&save_bytes(&body())).expect("summarizes");
    assert_eq!(summary.archive_version, "3");
    assert_eq!(summary.body_len, body().len());
    assert_eq!(summary.resources.len(), 1);
    assert_eq!(summary.resources[0].name, "Metals");
    assert_eq!(summary.resources[0].amount, 120);
    assert_eq!(summary.items.len(), 1);
    assert_eq!(summary.items[0].name, "RepairKit");
    assert_eq!(summary.items[0].count, 3);
    assert!(summary.items_error.is_none());
    assert!(summary.can_add_items);
    let clock = summary.time.expect("clock");
    assert_eq!((clock.day, clock.hour, clock.minute), (12, 7, 30));
    assert_eq!(summary.alters.len(), 1);
    let alter = &summary.alters[0];
    assert_eq!(alter.name, "Jan_Technician_0");
    assert_eq!(alter.radiation_bits, ONE);
    let emotions: Vec<(&str, u32)> =
        alter.emotions.iter().map(|e| (e.name.as_str(), e.value_bits)).collect();
    assert_eq!(emotions, vec![("Fun", HALF), ("Gloom", QUARTER)]);
    assert_eq!(summary.dead_alters, vec!["Jan Botanist".to_owned()]);
    let research = summary.research.expect("research");
    assert_eq!((research.unlocked, research.discovered), (2, 1));
    assert_eq!(
        research.missing,
        vec!["/Game/Tech/BP_Technology_B.BP_Technology_B_C".to_owned()]
    );
    assert!(summary.can_complete_research);
}

#[test]
fn summary_of_garbage_is_the_parse_error() {
    let message = summarize(&filler(3000, 99)).err().expect("fails");
    assert_eq!(message, "no compressed chunk stream found (not a world save?)");
}

#[test]
fn edits_apply_and_survive_the_rebuild() {
    let mut edits = no_edits();
    edits.resources.push(ResourceEdit { name: "Metals".to_owned(), amount: 999 });
    edits.item_counts.push(ItemCountEdit { name: "RepairKit".to_owned(), count: 9 });
    edits.add_items.push(AddItemEdit { name: "BridgePylon".to_owned(), count: 4 });
    edits.time = Some(TimeEdit { day: 40, hour: 1, minute: 2 });
    edits.alter_emotions.push(EmotionEdit {
        alter: "Jan_Technician_0".to_owned(),
        emotion: "Fun".to_owned(),
        value_bits: ONE,
    });
    edits.alter_radiation.push(RadiationEdit {
        alter: "Jan_Technician_0".to_owned(),
        value_bits: 0,
    });
    edits.complete_research = true;
    let rebuilt = apply_edits(&save_bytes(&body()), &edits).expect("applies");
    let save = SaveFile::parse(&rebuilt).expect("reparses");
    let containers = resources::containers(&save.body);
    assert_eq!(containers[0].amount, 999);
    let inventory = items::inventory(&save.body, save.archive_version()).expect("inventory");
    let stacks: Vec<(String, i32)> =
        inventory.stacks.iter().map(|s| (s.item.0.clone(), s.count)).collect();
    assert_eq!(
        stacks,
        vec![("BridgePylon".to_owned(), 4), ("RepairKit".to_owned(), 9)]
    );
    let clock = time::game_time(&save.body, save.archive_version()).expect("clock");
    assert_eq!((clock.day, clock.hour, clock.minute), (40, 1, 2));
    let roster = alters::alters(&save.body).expect("alters");
    assert!(roster[0]
        .emotions
        .iter()
        .all(|e| e.name != "Fun" || e.value_bits == ONE));
    assert!(roster[0]
        .emotions
        .iter()
        .any(|e| e.name == "Gloom" && e.value_bits == QUARTER));
    assert_eq!(roster[0].radiation[0].0, 0);
    let state = research::research(&save.body, save.archive_version()).expect("research");
    assert_eq!(state.discovered.len(), 2);
    assert!(research::missing(&state).is_empty());
    // The load-screen count follows the container.
    let icon = b"T_Resource_icon_Metals\0";
    let at = save.prefix().windows(icon.len()).position(|w| w == icon).expect("icon") + icon.len();
    assert_eq!(&save.prefix()[at + 8..at + 12], &999i32.to_le_bytes());
}

#[test]
fn unknown_names_are_refused() {
    let bytes = save_bytes(&body());
    let mut edits = no_edits();
    edits.resources.push(ResourceEdit { name: "Gold".to_owned(), amount: 1 });
    assert_eq!(apply_edits(&bytes, &edits).err(), Some("unknown resource: Gold".to_owned()));
    let mut edits = no_edits();
    edits.item_counts.push(ItemCountEdit { name: "Laser".to_owned(), count: 1 });
    assert_eq!(
        apply_edits(&bytes, &edits).err(),
        Some("unknown item stack: Laser".to_owned())
    );
    let mut edits = no_edits();
    edits.alter_radiation.push(RadiationEdit { alter: "Jan_Miner_1".to_owned(), value_bits: 0 });
    assert_eq!(
        apply_edits(&bytes, &edits).err(),
        Some("unknown alter: Jan_Miner_1".to_owned())
    );
}

#[test]
fn no_edits_keeps_the_body() {
    let pristine = body();
    let rebuilt = apply_edits(&save_bytes(&pristine), &no_edits()).expect("applies");
    let save = SaveFile::parse(&rebuilt).expect("reparses");
    assert_eq!(save.body, pristine);
}

#[test]
fn dead_alters_are_listed() {
    let names = alters::dead_alters(&body(), alters_save_core::sav::ArchiveVersion::V3);
    assert_eq!(names, vec!["Jan Botanist".to_owned()]);
}

#[test]
fn orphan_emotion_is_an_error() {
    let mut out = filler(100, 61);
    out.extend(emotion("Burden", HALF));
    let error = alters::alters(&out).err().expect("fails");
    assert_eq!(
        error.message(),
        "malformed chunk header at offset 100: emotion Burden without preceding alter instance"
    );
}

// Laws, checked on concrete values.

fn differing_positions(a: &[u8], b: &[u8]) -> Vec<usize> {
    assert_eq!(a.len(), b.len());
    (0..a.len()).filter(|&i| a[i] != b[i]).collect()
}

#[test]
fn rebuild_roundtrip_keeps_body_prefix_and_fields() {
    let bytes = save_bytes(&body());
    let save = SaveFile::parse(&bytes).expect("parses");
    let rebuilt = save.to_bytes();
    let again = SaveFile::parse(&rebuilt).expect("reparses");
    assert_eq!(again.body, save.body);
    assert_eq!(again.size_field_offsets(), save.size_field_offsets());
    let mut before = save.prefix().to_vec();
    let mut after = again.prefix().to_vec();
    for offset in save.size_field_offsets() {
        before[offset..offset + 4].fill(0);
        after[offset..offset + 4].fill(0);
    }
    assert_eq!(before, after);
}

#[test]
fn rebuilt_size_fields_count_bytes_to_the_end() {
    let save = SaveFile::parse(&save_bytes(&body())).expect("parses");
    let rebuilt = save.to_bytes();
    for offset in save.size_field_offsets() {
        let value = i32::from_le_bytes(rebuilt[offset..offset + 4].try_into().unwrap());
        assert_eq!(value as usize, rebuilt.len() - offset - 4);
    }
}

#[test]
fn set_amount_changes_only_its_field() {
    let pristine = body();
    let found = resources::containers(&pristine);
    let mut edited = pristine.clone();
    resources::set_amount(&mut edited, &found[0], -7).expect("lands");
    let changed = differing_positions(&pristine, &edited);
    assert!(!changed.is_empty() && changed.len() <= 4);
    assert_eq!(resources::containers(&edited)[0].amount, -7);
}

#[test]
fn set_amount_reads_back_with_others_unchanged() {
    let mut pristine = filler(300, 9);
    pristine.extend(container("Metals", 120, 500));
    pristine.extend(container("Rapidium", 5, 60));
    pristine.extend(container("Minerals", 9, 90));
    pristine.extend(filler(64, 10));
    let before = resources::containers(&pristine);
    assert_eq!(before.len(), 3);
    assert_eq!(before[1].amount, 5);
    let mut edited = pristine.clone();
    resources::set_amount(&mut edited, &before[1], 123_456).expect("lands");
    let after = resources::containers(&edited);
    assert_eq!(after.len(), before.len());
    for (k, (old, new)) in before.iter().zip(after.iter()).enumerate() {
        assert_eq!(old.resource, new.resource);
        assert_eq!(old.second, new.second);
        if k == 1 {
            assert_eq!(new.amount, 123_456);
        } else {
            assert_eq!(new.amount, old.amount);
        }
    }
}

#[test]
fn set_count_reads_back_with_others_unchanged() {
    let mut records = stack_record("RepairKit", 1000, 3);
    records.extend(stack_record("Recharger", 1001, 7));
    records.extend(stack_record("BridgePylon", 1002, 4));
    let mut list = i32s((records.len() + 12) as i32);
    list.extend([0x2e, 0x41, 0x2e, 0x41]);
    list.extend(i32s(3));
    list.extend(i32s(0));
    list.extend(records);
    let mut content = filler(24, 7);
    content.extend(list);
    content.extend(filler(16, 9));
    let mut pristine = filler(64, 5);
    pristine.extend(record(
        b"/Script/P9Playable.P9ResourceSubsystem",
        b"P9ResourceSubsystem_0",
        &content,
    ));
    pristine.extend(filler(64, 6));
    let v3 = alters_save_core::sav::ArchiveVersion::V3;
    let before = items::inventory(&pristine, v3).unwrap();
    assert_eq!(before.stacks.len(), 3);
    let mut edited = pristine.clone();
    items::set_count(&mut edited, &before.stacks[2], 40).expect("lands");
    let after = items::inventory(&edited, v3).unwrap();
    assert_eq!(after.stacks.len(), 3);
    let counts: Vec<i32> = after.stacks.iter().map(|s| s.count).collect();
    assert_eq!(counts, vec![3, 7, 40]);
    for (old, new) in before.stacks.iter().zip(after.stacks.iter()) {
        assert_eq!(old.item, new.item);
    }
}

#[test]
fn set_count_changes_only_its_field() {
    let pristine = body();
    let inventory = items::inventory(&pristine, alters_save_core::sav::ArchiveVersion::V3).unwrap();
    let mut edited = pristine.clone();
    items::set_count(&mut edited, &inventory.stacks[0], 77).expect("lands");
    assert!(differing_positions(&pristine, &edited).len() <= 4);
    let again = items::inventory(&edited, alters_save_core::sav::ArchiveVersion::V3).unwrap();
    assert_eq!(again.stacks[0].count, 77);
}

#[test]
fn set_game_time_changes_only_the_clock() {
    let pristine = body();
    let v3 = alters_save_core::sav::ArchiveVersion::V3;
    let clock = time::game_time(&pristine, v3).unwrap();
    let mut edited = pristine.clone();
    time::set_game_time(&mut edited, &clock, 100, 23, 59).expect("lands");
    assert!(differing_positions(&pristine, &edited).len() <= 12);
    let again = time::game_time(&edited, v3).unwrap();
    assert_eq!((again.day, again.hour, again.minute), (100, 23, 59));
}

#[test]
fn alter_edits_land_on_their_body() {
    let pristine = body();
    let roster = alters::alters(&pristine).unwrap();
    let mut edited = pristine.clone();
    alters::set_emotion(&mut edited, &roster[0], "Gloom", ONE).expect("lands");
    alters::set_radiation(&mut edited, &roster[0], HALF).expect("lands");
    assert_eq!(edited.len(), pristine.len());
    assert!(differing_positions(&pristine, &edited).len() <= 8);
    let again = alters::alters(&edited).unwrap();
    assert!(again[0].emotions.iter().any(|e| e.name == "Gloom" && e.value_bits == ONE));
    assert_eq!(again[0].radiation[0].0, HALF);
}

#[test]
fn emotion_edit_reads_back_with_the_rest_unchanged() {
    let pristine = body();
    let roster = alters::alters(&pristine).unwrap();
    let mut edited = pristine.clone();
    alters::set_emotion(&mut edited, &roster[0], "Fun", QUARTER).expect("lands");
    let again = alters::alters(&edited).unwrap();
    assert_eq!(again.len(), roster.len());
    assert_eq!(again[0].name, roster[0].name);
    assert_eq!(again[0].emotions.len(), roster[0].emotions.len());
    for (old, new) in roster[0].emotions.iter().zip(again[0].emotions.iter()) {
        assert_eq!(old.name, new.name);
        if old.name == "Fun" {
            assert_eq!(new.value_bits, QUARTER);
        } else {
            assert_eq!(new.value_bits, old.value_bits);
        }
    }
    assert_eq!(again[0].radiation, roster[0].radiation);
}

#[test]
fn injection_inserts_before_the_first_stack_and_grows_the_fields() {
    let pristine = body();
    let v3 = alters_save_core::sav::ArchiveVersion::V3;
    let before = items::inventory(&pristine, v3).unwrap();
    let out = items::add_stack(&pristine, v3, &items::ItemClass("BridgePylon".to_owned()), 4)
        .expect("injects");
    let inserted = out.len() - pristine.len();
    assert!(inserted > 0);
    // Everything from the old first record on is kept, shifted.
    let script = b"/Script/P9Playable.P9ItemStack\0";
    let first = pristine.windows(script.len()).position(|w| w == script).unwrap() - 4;
    assert_eq!(&out[first + inserted..], &pristine[first..]);
    let after = items::inventory(&out, v3).unwrap();
    assert_eq!(after.stacks.len(), before.stacks.len() + 1);
    let read = |b: &[u8], at: usize| i32::from_le_bytes(b[at..at + 4].try_into().unwrap());
    assert_eq!(read(&out, 0) as usize, read(&pristine, 0) as usize + inserted);
    assert_eq!(read(&out, first - 8), read(&pristine, first - 8) + 1);
    assert_eq!(read(&out, first - 16) as usize, read(&pristine, first - 16) as usize + inserted);
}

#[test]
fn injection_reads_back_the_new_stack_first() {
    let pristine = body();
    let v3 = alters_save_core::sav::ArchiveVersion::V3;
    let before = items::inventory(&pristine, v3).unwrap();
    let out = items::add_stack(&pristine, v3, &items::ItemClass("BridgePylon".to_owned()), 4)
        .expect("injects");
    let after = items::inventory(&out, v3).unwrap();
    assert_eq!(after.stacks.len(), before.stacks.len() + 1);
    assert_eq!(after.stacks[0].item.0, "BridgePylon");
    assert_eq!(after.stacks[0].count, 4);
    for (old, new) in before.stacks.iter().zip(after.stacks[1..].iter()) {
        assert_eq!(old.item, new.item);
        assert_eq!(old.count, new.count);
    }
    let old_containers = resources::containers(&pristine);
    let new_containers = resources::containers(&out);
    assert_eq!(new_containers.len(), old_containers.len());
    for (old, new) in old_containers.iter().zip(new_containers.iter()) {
        assert_eq!((&old.resource, old.amount, old.second), (&new.resource, new.amount, new.second));
    }
}

#[test]
fn injection_clones_a_template_whose_stack_name_is_none() {
    // The stack name lstr "None" and the pad after it spell the pattern the
    // template's s2 field is found by, so s2 coincides with s1.
    let mut content = vec![0x2e, 0x01, 0x2e, 0x01];
    content.extend(i32s(0));
    content.extend(lstr(b"/Game/P9Playable/Items/BP_Item_RepairKit.BP_Item_RepairKit_C"));
    content.extend(lstr(b"BP_Item_RepairKit_C_1000"));
    content.extend(i32s(0));
    let props = lstr(b"None");
    content.extend(i32s(props.len() as i32));
    content.extend(props);
    content.extend(int_prop(b"Count"));
    content.extend(i32s(3));
    let mut record = lstr(b"/Script/P9Playable.P9ItemStack");
    record.extend(lstr(b"None"));
    record.extend(i32s(0));
    record.extend(i32s(content.len() as i32));
    record.extend(content);
    let mut list = i32s((record.len() + 12) as i32);
    list.extend([0x2e, 0x41, 0x2e, 0x41]);
    list.extend(i32s(1));
    list.extend(i32s(0));
    list.extend(record);
    let mut sub = filler(24, 7);
    sub.extend(list);
    sub.extend(filler(16, 9));
    let mut pristine = i32s(0);
    pristine.extend(filler(64, 5));
    pristine.extend(super_record(&sub));
    pristine.extend(filler(64, 6));
    let v3 = alters_save_core::sav::ArchiveVersion::V3;
    let before = items::inventory(&pristine, v3).unwrap();
    assert_eq!(before.stacks.len(), 1);
    assert_eq!(before.stacks[0].count, 3);
    let out = items::add_stack(&pristine, v3, &items::ItemClass("BridgePylon".to_owned()), 4)
        .expect("injects");
    let after = items::inventory(&out, v3).unwrap();
    assert_eq!(after.stacks.len(), 2);
    assert_eq!(after.stacks[0].item.0, "BridgePylon");
    assert_eq!(after.stacks[0].count, 4);
    assert_eq!(after.stacks[1].count, 3);
}

fn super_record(content: &[u8]) -> Vec<u8> {
    record(b"/Script/P9Playable.P9ResourceSubsystem", b"P9ResourceSubsystem_0", content)
}

#[test]
fn completing_research_appends_missing_paths() {
    let pristine = body();
    let v3 = alters_save_core::sav::ArchiveVersion::V3;
    let state = research::research(&pristine, v3).unwrap();
    let missing = research::missing(&state);
    assert_eq!(missing, vec!["/Game/Tech/BP_Technology_B.BP_Technology_B_C".to_owned()]);
    let out = research::complete(&pristine, v3, &missing).expect("completes");
    assert_eq!(out.len(), pristine.len() + 4 + missing[0].len() + 1);
    let again = research::research(&out, v3).unwrap();
    assert_eq!(again.discovered.len(), 2);
    assert_eq!(again.discovered[1], missing[0]);
    assert_eq!(again.unlocked, state.unlocked);
    // With nothing missing the body comes back unchanged.
    let same = research::complete(&out, v3, &research::missing(&again)).expect("completes");
    assert_eq!(same, out);
}

#[test]
fn completing_research_with_discovered_listed_first() {
    let mut content = filler(12, 33);
    content.extend(object_array(b"DiscoveredTechnologies", &["/Game/Tech/BP_Technology_A.BP_Technology_A_C"]));
    content.extend(object_array(
        b"UnlockedResearches",
        &["/Game/Tech/BP_Technology_A.BP_Technology_A_C", "/Game/Tech/BP_Technology_C.BP_Technology_C_C"],
    ));
    content.extend(filler(12, 34));
    let mut pristine = i32s(0);
    pristine.extend(filler(40, 35));
    pristine.extend(record(b"/Script/P9Playable.P9ResearchSubsystem", b"P9ResearchSubsystem_0", &content));
    pristine.extend(filler(40, 36));
    let len = pristine.len() as i32;
    pristine[0..4].copy_from_slice(&len.to_le_bytes());
    let v3 = alters_save_core::sav::ArchiveVersion::V3;
    let state = research::research(&pristine, v3).unwrap();
    let missing = research::missing(&state);
    assert_eq!(missing, vec!["/Game/Tech/BP_Technology_C.BP_Technology_C_C".to_owned()]);
    let out = research::complete(&pristine, v3, &missing).expect("completes");
    let again = research::research(&out, v3).unwrap();
    assert_eq!(again.unlocked, state.unlocked);
    assert_eq!(
        again.discovered,
        vec![
            "/Game/Tech/BP_Technology_A.BP_Technology_A_C".to_owned(),
            "/Game/Tech/BP_Technology_C.BP_Technology_C_C".to_owned(),
        ]
    );
}

#[test]
fn completing_research_on_v2_is_refused() {
    let outcome = research::complete(&body(), alters_save_core::sav::ArchiveVersion::V2, &[]);
    assert!(matches!(
        outcome,
        Err(alters_save_core::error::Error::UnsupportedArchiveVersion(2))
    ));
}
