//! Laws of the whole-file operations: applying no edits rebuilds a file
//! that parses back to the same body, and a passing check battery has
//! round-tripped the file.
use vstd::prelude::*;

use crate::editor::{
    add_item_edits, alter_edits, finish_edits, item_count_edits, research_edit, resource_edits,
    spec_apply_edits, time_edit, EditsModel,
};
use crate::elb::spec_checked_write;
use crate::items::{spec_add_stack, spec_inventory};
use crate::meta::spec_sync_counts;
use crate::verify::{
    has_pylons, masked, next_amount, pylon, roundtrip_failure, spec_after_injection,
    spec_check_injection, spec_edit_outcome, spec_reparse, spec_verify, stacks_preserved,
};
use vstd::utf8::encode_utf8;
use crate::bytes::spec_write_i32;
use crate::resources::spec_containers;
use crate::roundtrip::{equal_outside_fields, lemma_rebuild_parses_back};
use crate::sav::{
    blocks_roundtrip, rebuild_fits, spec_chunk_start, spec_eof_fields, spec_parse, spec_rebuild, spec_version_at,
    SaveFrame,
};

verus! {

/// The edit set that asks for nothing.
pub open spec fn no_edits() -> EditsModel {
    EditsModel {
        resources: Seq::empty(),
        item_counts: Seq::empty(),
        add_items: Seq::empty(),
        time: None,
        alter_emotions: Seq::empty(),
        alter_radiation: Seq::empty(),
        complete_research: false,
    }
}

/// The frame of a parsed file with the load-screen counts of its prefix
/// synced to the containers of `body`.
pub open spec fn synced_frame(frame: SaveFrame, body: Seq<u8>) -> SaveFrame {
    SaveFrame {
        prefix: spec_sync_counts(frame.prefix, spec_containers(body)).0,
        fields: frame.fields,
        version: frame.version,
    }
}

/// Applying no edits to a save gives a file that parses back to the same
/// body, size-field offsets and archive version, with the prefix of the
/// save except in the two size fields and in the load-screen counts, which
/// hold the amounts of the body's containers.
///
/// This holds whenever the new file's framing is found where it was
/// written: its chunk stream is detected right after the prefix and its
/// size fields at the same offsets (which fails, for instance, for a
/// compressed payload under 1000 bytes), the inner size field lies before
/// the outer one, and the load-screen counts lie apart from the version.
#[verifier::rlimit(60)]
pub proof fn lemma_no_edits_parse_back(bytes: Seq<u8>)
    requires
        bytes.len() <= usize::MAX,
        spec_apply_edits(bytes, no_edits()) is Ok,
        ({
            let (frame, body) = spec_parse(bytes)->Ok_0;
            let synced = synced_frame(frame, body);
            let out = spec_apply_edits(bytes, no_edits())->Ok_0;
            &&& out.len() <= usize::MAX
            &&& blocks_roundtrip(body)
            &&& frame.fields.0 + 12 <= frame.fields.1
            &&& spec_version_at(synced.prefix, frame.fields.0 as int) == frame.version
            &&& spec_chunk_start(out) == Some(frame.prefix.len() as int)
            &&& spec_eof_fields(out.subrange(0, frame.prefix.len() as int), out.len() as int) == Ok::<
                (usize, usize),
                crate::error::ErrorModel,
            >(frame.fields)
        }),
    ensures
        ({
            let (frame, body) = spec_parse(bytes)->Ok_0;
            let out = spec_apply_edits(bytes, no_edits())->Ok_0;
            let new_prefix = out.subrange(0, frame.prefix.len() as int);
            &&& spec_parse(out) == Ok::<(SaveFrame, Seq<u8>), crate::error::ErrorModel>(
                (SaveFrame { prefix: new_prefix, fields: frame.fields, version: frame.version }, body),
            )
            &&& equal_outside_fields(new_prefix, synced_frame(frame, body).prefix, frame.fields)
        }),
{
    let (frame, body) = spec_parse(bytes)->Ok_0;
    let version = frame.version;
    let e = no_edits();
    reveal(resource_edits);
    reveal(item_count_edits);
    reveal(time_edit);
    reveal(alter_edits);
    reveal(add_item_edits);
    reveal(research_edit);
    assert(resource_edits(body, e.resources) == Ok::<Seq<u8>, Seq<char>>(body));
    assert(item_count_edits(body, version, e.item_counts) == Ok::<Seq<u8>, Seq<char>>(body));
    assert(time_edit(body, version, e.time) == Ok::<Seq<u8>, Seq<char>>(body));
    assert(alter_edits(body, e.alter_emotions, e.alter_radiation) == Ok::<Seq<u8>, Seq<char>>(body));
    assert(add_item_edits(body, version, e.add_items) == Ok::<Seq<u8>, Seq<char>>(body));
    assert(research_edit(body, version, e.complete_research) == Ok::<Seq<u8>, Seq<char>>(body));
    assert(spec_apply_edits(bytes, e) == finish_edits(frame, body));
    let synced = synced_frame(frame, body);
    crate::sav::lemma_parse_frame_wf(bytes);
    crate::search::lemma_occurrences_are_matches(frame.prefix, crate::meta::ICON_PREFIX@, 0);
    crate::meta::lemma_sync_len(
        frame.prefix,
        spec_containers(body),
        crate::search::occurrences(frame.prefix, crate::meta::ICON_PREFIX@),
    );
    assert(synced.prefix.len() == frame.prefix.len());
    lemma_rebuild_parses_back(synced, body);
}

/// A passing check battery on `bytes` has seen the save round-trip: its
/// rebuild parses back to the same body and size-field offsets, with the
/// prefix changed only in the size fields; when it has containers, raising
/// the first amount by one (wrapping) and rebuilding reads the new amount
/// back; and when it is an archive v3 save whose inventory has a stack and
/// takes an injected `BridgePylon` x4, the rebuilt injected save reads one
/// more stack, among them that one, every old stack's item and count, and
/// as many containers as before.
#[verifier::rlimit(80)]
pub proof fn lemma_verify_pass(bytes: Seq<u8>)
    requires
        spec_verify(bytes) is Pass,
    ensures
        spec_parse(bytes) is Ok,
        ({
            let (frame, body) = spec_parse(bytes)->Ok_0;
            let containers = spec_containers(body);
            &&& rebuild_fits(frame, body)
            &&& spec_parse(spec_rebuild(frame, body)) matches Ok((f, b)) && b == body && f.fields
                == frame.fields && masked(f.prefix, f.fields) == masked(frame.prefix, frame.fields)
            &&& containers.len() > 0 ==> {
                let amount = next_amount(containers[0].amount);
                let edited = spec_write_i32(body, containers[0].amount_offset, amount as int);
                let edited_frame = SaveFrame {
                    prefix: spec_sync_counts(frame.prefix, spec_containers(edited)).0,
                    ..frame
                };
                &&& spec_checked_write(
                    body,
                    containers[0].amount_offset,
                    amount as int,
                    "resource amount field"@,
                ) is Ok
                &&& spec_parse(spec_rebuild(edited_frame, edited)) matches Ok((_, b)) && spec_containers(
                    b,
                ).len() > 0 && spec_containers(b)[0].amount == amount
            }
            &&& (containers.len() > 0 && spec_inventory(body, frame.version) is Ok && spec_inventory(
                body,
                frame.version,
            )->Ok_0.stacks.len() > 0 && spec_add_stack(body, frame.version, encode_utf8(pylon()), 4)
                is Ok) ==> {
                let injected = spec_add_stack(body, frame.version, encode_utf8(pylon()), 4)->Ok_0;
                let before = spec_inventory(body, frame.version)->Ok_0.stacks;
                spec_parse(spec_rebuild(frame, injected)) matches Ok((f, b)) && spec_inventory(
                    b,
                    f.version,
                ) matches Ok(after) && after.stacks.len() == before.len() + 1 && has_pylons(after.stacks)
                    && stacks_preserved(before, after.stacks) && spec_containers(b).len()
                    == spec_containers(body).len()
            }
        }),
{
    let (frame, body) = spec_parse(bytes)->Ok_0;
    reveal(roundtrip_failure);
    reveal(spec_reparse);
    reveal(spec_edit_outcome);
    reveal(spec_check_injection);
    reveal(spec_after_injection);
}

/// Whether `r` is the unsupported-version error.
pub open spec fn is_version_refusal<T>(r: std::result::Result<T, crate::error::ErrorModel>) -> bool {
    r matches Err(crate::error::ErrorModel::UnsupportedArchiveVersion(_))
}

proof fn lemma_add_stack_v3_not_refused(body: Seq<u8>, stem: Seq<u8>, count: i32)
    ensures
        !is_version_refusal(spec_add_stack(body, crate::sav::ArchiveVersion::V3, stem, count)),
{
    reveal(spec_add_stack);
    reveal(crate::items::spec_inventory);
    reveal(crate::items::spec_clone_record);
    reveal(crate::items::patched_record);
}

proof fn lemma_complete_v3_not_refused(body: Seq<u8>, paths: Seq<Seq<char>>)
    ensures
        !is_version_refusal(crate::research::spec_complete(body, crate::sav::ArchiveVersion::V3, paths)),
{
    reveal(crate::research::spec_research);
}

/// The summary offers item injection exactly on saves where adding a stack
/// is not refused for the archive version, and research completion exactly
/// where completing is not: on any other version both are refused with
/// the unsupported-version error, whatever the item, count or paths.
pub proof fn lemma_summary_flags_match_edits(
    frame: SaveFrame,
    body: Seq<u8>,
    stem: Seq<u8>,
    count: i32,
    paths: Seq<Seq<char>>,
)
    ensures
        crate::editor::spec_summary(frame, body).can_add_items <==> !is_version_refusal(
            spec_add_stack(body, frame.version, stem, count),
        ),
        crate::editor::spec_summary(frame, body).can_complete_research <==> !is_version_refusal(
            crate::research::spec_complete(body, frame.version, paths),
        ),
{
    reveal(spec_add_stack);
    match frame.version {
        crate::sav::ArchiveVersion::V3 => {
            lemma_add_stack_v3_not_refused(body, stem, count);
            lemma_complete_v3_not_refused(body, paths);
        },
        _ => {},
    }
}

} // verus!
