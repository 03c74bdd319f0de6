//! Laws of the edits: an in-place edit aimed at a field that a parse of the
//! same body reported always lands, reads back as the new value and leaves
//! every other byte alone; an insertion keeps everything from the insertion
//! point on, shifted, and grows its enclosing size fields by exactly the
//! inserted length.
use vstd::prelude::*;

use crate::alters::{
    emotion_name, emotion_needle, emotion_scan, emotion_step, emotions_from, index_named,
    owner_before, radiation_scan, radiation_step, spec_alters, spec_float_after_marker,
    spec_record_content_after, spec_set_emotions, spec_set_radiation, with_emotion, with_owner,
    with_radiation, AlterModel, EmotionModel, RADIATION_PATH,
};
use crate::bytes::{
    lstr_bytes, i32_le_bytes, lemma_i32_roundtrip, lemma_u32_roundtrip, spec_read_i32,
    spec_read_u32, spec_splice, spec_write_i32, u32_le,
};
use crate::elb::{spec_adjust_i32, spec_checked_write};
use crate::research::{lemma_research_bounds, lstr_concat, not_in, spec_complete, spec_research};
use crate::resources::{containers_among, spec_containers, spec_parse_container};
use crate::items::{
    first_free_id, spec_add_stack, spec_clone_record, spec_inventory, spec_parse_template,
    spec_stack, spec_stacks, StackModel,
};
use crate::sav::ArchiveVersion;
use crate::search::{lemma_find_some, occurrences, spec_find};
use crate::time::{spec_game_time, spec_set_game_time};

verus! {

/// `a` and `b` have the same length and agree everywhere but in the four
/// bytes at `off`.
pub open spec fn same_outside(a: Seq<u8>, b: Seq<u8>, off: int) -> bool {
    &&& a.len() == b.len()
    &&& forall|i: int| 0 <= i < a.len() && !(off <= i < off + 4) ==> #[trigger] a[i] == b[i]
}

/// The four-byte fields at `a` and `b` do not overlap.
pub open spec fn apart(a: int, b: int) -> bool {
    a + 4 <= b || b + 4 <= a
}

/// Reading the four bytes at `off` of `b` gives what reading them out of
/// the same bytes anywhere else gives.
pub(crate) proof fn lemma_read_same_bytes(a: Seq<u8>, oa: int, b: Seq<u8>, ob: int)
    requires
        0 <= oa,
        oa + 4 <= a.len(),
        0 <= ob,
        ob + 4 <= b.len(),
        a.subrange(oa, oa + 4) == b.subrange(ob, ob + 4),
    ensures
        u32_le(a, oa) == u32_le(b, ob),
        spec_read_i32(a, oa) == spec_read_i32(b, ob),
        spec_read_u32(a, oa) == spec_read_u32(b, ob),
{
    reveal(u32_le);
    assert(a[oa] == a.subrange(oa, oa + 4)[0]);
    assert(a[oa + 1] == a.subrange(oa, oa + 4)[1]);
    assert(a[oa + 2] == a.subrange(oa, oa + 4)[2]);
    assert(a[oa + 3] == a.subrange(oa, oa + 4)[3]);
    assert(b[ob] == b.subrange(ob, ob + 4)[0]);
    assert(b[ob + 1] == b.subrange(ob, ob + 4)[1]);
    assert(b[ob + 2] == b.subrange(ob, ob + 4)[2]);
    assert(b[ob + 3] == b.subrange(ob, ob + 4)[3]);
}

/// A stored `i32` lies in the `i32` range.
pub proof fn lemma_read_i32_range(b: Seq<u8>, off: int)
    requires
        spec_read_i32(b, off) is Some,
    ensures
        i32::MIN <= spec_read_i32(b, off)->Some_0 <= i32::MAX,
{
    reveal(u32_le);
}

/// A write that lands changes only its four bytes, which then read back as
/// the written `i32`.
pub proof fn lemma_write_effect(b: Seq<u8>, off: int, v: int)
    requires
        0 <= off,
        off + 4 <= b.len(),
        i32::MIN <= v <= i32::MAX,
    ensures
        same_outside(b, spec_write_i32(b, off, v), off),
        spec_read_i32(spec_write_i32(b, off, v), off) == Some(v),
{
    let b2 = spec_write_i32(b, off, v);
    let enc = i32_le_bytes(v);
    lemma_i32_roundtrip(v);
    assert(b2.len() == b.len());
    assert(b2.subrange(off, off + 4) =~= enc.subrange(0, 4));
    lemma_read_same_bytes(b2, off, enc, 0);
}

/// The same for the unsigned bits of an `f32`.
pub proof fn lemma_write_bits_effect(b: Seq<u8>, off: int, v: u32)
    requires
        0 <= off,
        off + 4 <= b.len(),
    ensures
        same_outside(b, spec_write_i32(b, off, v as int), off),
        spec_read_u32(spec_write_i32(b, off, v as int), off) == Some(v as int),
{
    let b2 = spec_write_i32(b, off, v as int);
    let enc = i32_le_bytes(v as int);
    lemma_u32_roundtrip(v as int);
    assert(b2.len() == b.len());
    assert(b2.subrange(off, off + 4) =~= enc.subrange(0, 4));
    lemma_read_same_bytes(b2, off, enc, 0);
}

/// A size-field adjustment that succeeds changes only the field, which
/// then holds its old value plus `delta`.
pub proof fn lemma_adjust_effect(b: Seq<u8>, off: int, delta: int)
    requires
        spec_adjust_i32(b, off, delta) is Ok,
    ensures
        same_outside(b, spec_adjust_i32(b, off, delta)->Ok_0, off),
        spec_read_i32(spec_adjust_i32(b, off, delta)->Ok_0, off) == Some(
            spec_read_i32(b, off)->Some_0 + delta,
        ),
{
    let current = spec_read_i32(b, off)->Some_0;
    lemma_write_effect(b, off, current + delta);
}

/// Bytes that a change outside them leaves alone read the same.
pub(crate) proof fn lemma_read_kept(a: Seq<u8>, b: Seq<u8>, changed: int, off: int)
    requires
        same_outside(a, b, changed),
        apart(changed, off),
        0 <= off,
        off + 4 <= a.len(),
    ensures
        spec_read_i32(a, off) == spec_read_i32(b, off),
        spec_read_u32(a, off) == spec_read_u32(b, off),
{
    let sa = a.subrange(off, off + 4);
    let sb = b.subrange(off, off + 4);
    assert forall|k: int| 0 <= k < 4 implies #[trigger] sa[k] == sb[k] by {
        assert(!(changed <= off + k < changed + 4));
        assert(a[off + k] == b[off + k]);
    }
    assert(sa =~= sb);
    lemma_read_same_bytes(a, off, b, off);
}

pub(crate) proof fn lemma_container_offset(body: Seq<u8>, script: int)
    requires
        spec_parse_container(body, script) is Some,
    ensures
        ({
            let c = spec_parse_container(body, script)->Some_0;
            &&& 0 <= c.amount_offset
            &&& c.amount_offset + 4 <= body.len()
            &&& spec_read_i32(body, c.amount_offset) == Some(c.amount as int)
        }),
{
    reveal(spec_parse_container);
    let c = spec_parse_container(body, script)->Some_0;
    let (_, after_name) = crate::bytes::spec_read_lstr(
        body,
        script + crate::resources::CONTAINER_SCRIPT@.len(),
    )->Some_0;
    let size = spec_read_i32(body, after_name + 4)->Some_0;
    let payload_start = after_name + 9;
    let payload = body.subrange(payload_start, payload_start + size);
    lemma_find_some(payload, crate::resources::VALUE_MARKER@);
    let first = spec_find(payload, crate::resources::VALUE_MARKER@)->Some_0;
    let at = first + crate::resources::VALUE_MARKER@.len();
    assert(payload.subrange(at, at + 4) =~= body.subrange(payload_start + at, payload_start + at + 4));
    lemma_read_same_bytes(payload, at, body, payload_start + at);
    lemma_read_i32_range(payload, at);
}

pub(crate) proof fn lemma_containers_parsed(body: Seq<u8>, occ: Seq<int>, k: int)
    requires
        0 <= k < containers_among(body, occ).len(),
    ensures
        exists|s: int|
            occ.contains(s) && spec_parse_container(body, s) == Some(
                #[trigger] containers_among(body, occ)[k],
            ),
    decreases occ.len(),
{
    let rest = containers_among(body, occ.drop_first());
    match spec_parse_container(body, occ[0]) {
        Some(c) => {
            if k == 0 {
                assert(containers_among(body, occ)[0] == c);
                assert(occ.contains(occ[0]));
                assert(spec_parse_container(body, occ[0]) == Some(containers_among(body, occ)[k]));
            } else {
                lemma_containers_parsed(body, occ.drop_first(), k - 1);
                assert(containers_among(body, occ)[k] == rest[k - 1]);
                let s = choose|s: int|
                    occ.drop_first().contains(s) && spec_parse_container(body, s) == Some(
                        #[trigger] containers_among(body, occ.drop_first())[k - 1],
                    );
                let j = choose|j: int| 0 <= j < occ.drop_first().len() && occ.drop_first()[j] == s;
                assert(occ[j + 1] == s);
                assert(occ.contains(s));
            }
        },
        None => {
            lemma_containers_parsed(body, occ.drop_first(), k);
            let s = choose|s: int|
                occ.drop_first().contains(s) && spec_parse_container(body, s) == Some(
                    #[trigger] containers_among(body, occ.drop_first())[k],
                );
            let j = choose|j: int| 0 <= j < occ.drop_first().len() && occ.drop_first()[j] == s;
            assert(occ[j + 1] == s);
            assert(occ.contains(s));
        },
    }
}

/// A container that [`crate::resources::containers`] reports holds its
/// amount at its offset, and setting the amount there on the same body
/// lands: the field reads back the new amount and no other byte changes.
pub proof fn lemma_set_amount_lands(body: Seq<u8>, k: int, amount: i32)
    requires
        0 <= k < spec_containers(body).len(),
    ensures
        ({
            let c = spec_containers(body)[k];
            let written = spec_checked_write(
                body,
                c.amount_offset,
                amount as int,
                "resource amount field"@,
            );
            &&& spec_read_i32(body, c.amount_offset) == Some(c.amount as int)
            &&& written is Ok
            &&& same_outside(body, written->Ok_0, c.amount_offset)
            &&& spec_read_i32(written->Ok_0, c.amount_offset) == Some(amount as int)
        }),
{
    let occ = occurrences(body, crate::resources::CONTAINER_SCRIPT@);
    lemma_containers_parsed(body, occ, k);
    let c = spec_containers(body)[k];
    let s = choose|s: int| spec_parse_container(body, s) == Some(c);
    lemma_container_offset(body, s);
    lemma_write_effect(body, c.amount_offset, amount as int);
}

pub(crate) proof fn lemma_stacks_elements(
    body: Seq<u8>,
    starts: Seq<int>,
    list_end: int,
    count_prop: Seq<u8>,
    i: int,
)
    requires
        0 <= i <= starts.len(),
        spec_stacks(body, starts, list_end, count_prop, i) is Ok,
    ensures
        ({
            let ss = spec_stacks(body, starts, list_end, count_prop, i)->Ok_0;
            &&& ss.len() == starts.len() - i
            &&& forall|j: int|
                0 <= j < ss.len() ==> spec_stack(body, starts, i + j, list_end, count_prop) == Ok::<
                    StackModel,
                    Seq<char>,
                >(#[trigger] ss[j])
        }),
    decreases starts.len() - i,
{
    if i < starts.len() {
        lemma_stacks_elements(body, starts, list_end, count_prop, i + 1);
        let ss = spec_stacks(body, starts, list_end, count_prop, i)->Ok_0;
        let rest = spec_stacks(body, starts, list_end, count_prop, i + 1)->Ok_0;
        assert forall|j: int| 0 <= j < ss.len() implies spec_stack(
            body,
            starts,
            i + j,
            list_end,
            count_prop,
        ) == Ok::<StackModel, Seq<char>>(#[trigger] ss[j]) by {
            if j > 0 {
                assert(ss[j] == rest[j - 1]);
            }
        }
    }
}

/// A stack that [`crate::items::inventory`] reports holds its count at its
/// offset, and setting the count there on the same body lands: the field
/// reads back the new count and no other byte changes.
pub proof fn lemma_set_count_lands(body: Seq<u8>, version: ArchiveVersion, k: int, count: i32)
    requires
        spec_inventory(body, version) is Ok,
        0 <= k < spec_inventory(body, version)->Ok_0.stacks.len(),
    ensures
        ({
            let s = spec_inventory(body, version)->Ok_0.stacks[k];
            let written = spec_checked_write(body, s.count_offset, count as int, "stack count field"@);
            &&& spec_read_i32(body, s.count_offset) == Some(s.count as int)
            &&& written is Ok
            &&& same_outside(body, written->Ok_0, s.count_offset)
            &&& spec_read_i32(written->Ok_0, s.count_offset) == Some(count as int)
        }),
{
    reveal(spec_inventory);
    let count_prop = crate::items::spec_count_prop(version)->Ok_0;
    let (script, _, subsystem_end) = crate::items::spec_subsystem(body)->Ok_0;
    let starts = crate::items::stack_starts(
        body,
        occurrences(body, crate::items::STACK_SCRIPT@),
        script,
        subsystem_end,
    );
    let (_, _, list_end) = crate::items::spec_list_header(body, starts, subsystem_end)->Ok_0;
    lemma_stacks_elements(body, starts, list_end, count_prop, 0);
    let ss = spec_stacks(body, starts, list_end, count_prop, 0)->Ok_0;
    assert(spec_stack(body, starts, k, list_end, count_prop) == Ok::<StackModel, Seq<char>>(ss[k]));
    let s = ss[k];
    lemma_read_i32_range(body, s.count_offset);
    lemma_write_effect(body, s.count_offset, count as int);
}

/// The clock that [`crate::time::game_time`] reports can be set on the same
/// body: every write lands, and when the three fields do not overlap each
/// reads back its new value and no other byte changes.
pub proof fn lemma_set_game_time_lands(
    body: Seq<u8>,
    version: ArchiveVersion,
    day: i32,
    hour: i32,
    minute: i32,
)
    requires
        spec_game_time(body, version) is Ok,
    ensures
        ({
            let t = spec_game_time(body, version)->Ok_0;
            let (after, outcome) = spec_set_game_time(body, t, day, hour, minute);
            &&& outcome is Ok
            &&& after.len() == body.len()
            &&& apart(t.day_offset, t.hour_offset) && apart(t.day_offset, t.minute_offset) && apart(
                t.hour_offset,
                t.minute_offset,
            ) ==> {
                &&& spec_read_i32(after, t.day_offset) == Some(day as int)
                &&& spec_read_i32(after, t.hour_offset) == Some(hour as int)
                &&& spec_read_i32(after, t.minute_offset) == Some(minute as int)
                &&& forall|i: int|
                    0 <= i < body.len() && !(t.day_offset <= i < t.day_offset + 4) && !(t.hour_offset
                        <= i < t.hour_offset + 4) && !(t.minute_offset <= i < t.minute_offset + 4)
                        ==> #[trigger] after[i] == body[i]
            }
        }),
{
    let t = spec_game_time(body, version)->Ok_0;
    assert(spec_read_i32(body, t.day_offset) is Some);
    assert(spec_read_i32(body, t.hour_offset) is Some);
    assert(spec_read_i32(body, t.minute_offset) is Some);
    let b1 = spec_write_i32(body, t.day_offset, day as int);
    lemma_write_effect(body, t.day_offset, day as int);
    let b2 = spec_write_i32(b1, t.hour_offset, hour as int);
    lemma_write_effect(b1, t.hour_offset, hour as int);
    let b3 = spec_write_i32(b2, t.minute_offset, minute as int);
    lemma_write_effect(b2, t.minute_offset, minute as int);
    if apart(t.day_offset, t.hour_offset) && apart(t.day_offset, t.minute_offset) && apart(
        t.hour_offset,
        t.minute_offset,
    ) {
        lemma_read_kept(b1, b2, t.hour_offset, t.day_offset);
        lemma_read_kept(b2, b3, t.minute_offset, t.day_offset);
        lemma_read_kept(b2, b3, t.minute_offset, t.hour_offset);
    }
}

/// The four size fields that an insertion at `at` grows lie before it and
/// do not overlap.
pub open spec fn fields_before(at: int, a: int, b: int, c: int) -> bool {
    &&& 4 <= at
    &&& 0 <= a && a + 4 <= at
    &&& 0 <= b && b + 4 <= at
    &&& 0 <= c && c + 4 <= at
    &&& apart(a, b) && apart(a, c) && apart(b, c)
    &&& apart(0, a) && apart(0, b) && apart(0, c)
}

/// `out` is `body` with `inserted` bytes put at `at`, the fields at `a` and
/// `c` and at offset 0 grown by their number, the field at `b` grown by
/// `count`, and nothing else changed.
pub open spec fn grown_by_insertion(
    body: Seq<u8>,
    out: Seq<u8>,
    at: int,
    inserted: Seq<u8>,
    a: int,
    b: int,
    c: int,
    count: int,
) -> bool {
    let n = inserted.len() as int;
    &&& out.len() == body.len() + n
    &&& out.subrange(at, at + n) == inserted
    &&& out.subrange(at + n, out.len() as int) == body.subrange(at, body.len() as int)
    &&& spec_read_i32(out, a) == Some(spec_read_i32(body, a)->Some_0 + n)
    &&& spec_read_i32(out, b) == Some(spec_read_i32(body, b)->Some_0 + count)
    &&& spec_read_i32(out, c) == Some(spec_read_i32(body, c)->Some_0 + n)
    &&& spec_read_i32(out, 0) == Some(spec_read_i32(body, 0)->Some_0 + n)
    &&& forall|i: int|
        0 <= i < at && !(a <= i < a + 4) && !(b <= i < b + 4) && !(c <= i < c + 4) && !(0 <= i < 4)
            ==> #[trigger] out[i] == body[i]
}

/// Splicing `inserted` in at `at` and then adjusting the four fields before
/// it as an insertion does gives [`grown_by_insertion`].
pub(crate) proof fn lemma_insertion(
    body: Seq<u8>,
    at: int,
    inserted: Seq<u8>,
    a: int,
    b: int,
    c: int,
    count: int,
)
    requires
        at <= body.len(),
        fields_before(at, a, b, c),
        ({
            let grown = spec_splice(body, at, 0, inserted);
            let n = inserted.len() as int;
            &&& spec_adjust_i32(grown, a, n) is Ok
            &&& spec_adjust_i32(spec_adjust_i32(grown, a, n)->Ok_0, b, count) is Ok
            &&& spec_adjust_i32(
                spec_adjust_i32(spec_adjust_i32(grown, a, n)->Ok_0, b, count)->Ok_0,
                c,
                n,
            ) is Ok
            &&& spec_adjust_i32(
                spec_adjust_i32(
                    spec_adjust_i32(spec_adjust_i32(grown, a, n)->Ok_0, b, count)->Ok_0,
                    c,
                    n,
                )->Ok_0,
                0,
                n,
            ) is Ok
        }),
    ensures
        ({
            let grown = spec_splice(body, at, 0, inserted);
            let n = inserted.len() as int;
            let b1 = spec_adjust_i32(grown, a, n)->Ok_0;
            let b2 = spec_adjust_i32(b1, b, count)->Ok_0;
            let b3 = spec_adjust_i32(b2, c, n)->Ok_0;
            let out = spec_adjust_i32(b3, 0, n)->Ok_0;
            grown_by_insertion(body, out, at, inserted, a, b, c, count)
        }),
{
    let grown = spec_splice(body, at, 0, inserted);
    let n = inserted.len() as int;
    let b1 = spec_adjust_i32(grown, a, n)->Ok_0;
    let b2 = spec_adjust_i32(b1, b, count)->Ok_0;
    let b3 = spec_adjust_i32(b2, c, n)->Ok_0;
    let out = spec_adjust_i32(b3, 0, n)->Ok_0;
    assert(grown.len() == body.len() + n);
    assert forall|i: int| 0 <= i < at implies #[trigger] grown[i] == body[i] by {}
    lemma_adjust_effect(grown, a, n);
    lemma_adjust_effect(b1, b, count);
    lemma_adjust_effect(b2, c, n);
    lemma_adjust_effect(b3, 0, n);
    // the fields read before the insertion as in the body
    assert(grown.subrange(a, a + 4) =~= body.subrange(a, a + 4));
    lemma_read_same_bytes(grown, a, body, a);
    assert(grown.subrange(b, b + 4) =~= body.subrange(b, b + 4));
    lemma_read_same_bytes(grown, b, body, b);
    assert(grown.subrange(c, c + 4) =~= body.subrange(c, c + 4));
    lemma_read_same_bytes(grown, c, body, c);
    assert(grown.subrange(0, 4) =~= body.subrange(0, 4));
    lemma_read_same_bytes(grown, 0, body, 0);
    // each adjusted field survives the later adjustments
    lemma_read_kept(b1, b2, b, a);
    lemma_read_kept(b2, b3, c, a);
    lemma_read_kept(b3, out, 0, a);
    lemma_read_kept(b2, b3, c, b);
    lemma_read_kept(b3, out, 0, b);
    lemma_read_kept(b3, out, 0, c);
    lemma_read_kept(grown, b1, a, b);
    lemma_read_kept(grown, b1, a, c);
    lemma_read_kept(b1, b2, b, c);
    lemma_read_kept(grown, b1, a, 0);
    lemma_read_kept(b1, b2, b, 0);
    lemma_read_kept(b2, b3, c, 0);
    assert forall|i: int| at <= i < out.len() implies #[trigger] out[i] == grown[i] by {}
    assert(out.subrange(at, at + n) =~= inserted);
    assert(out.subrange(at + n, out.len() as int) =~= body.subrange(at, body.len() as int));
}

/// Injecting a stack keeps every byte from the first stack record on,
/// shifted past the new record; grows the list size, the subsystem size
/// and the whole-body size by the record's length and the stack count by
/// one; and changes nothing else before the list - when those four fields
/// lie before the first record and do not overlap.
pub proof fn lemma_add_stack_effect(body: Seq<u8>, version: ArchiveVersion, stem: Seq<u8>, count: i32)
    requires
        spec_add_stack(body, version, stem, count) is Ok,
        ({
            let inv = spec_inventory(body, version)->Ok_0;
            fields_before(
                inv.first_record_start,
                inv.list_size_offset,
                inv.stack_count_offset,
                inv.subsystem_size_offset,
            )
        }),
    ensures
        ({
            let inv = spec_inventory(body, version)->Ok_0;
            let out = spec_add_stack(body, version, stem, count)->Ok_0;
            let at = inv.first_record_start;
            exists|record: Seq<u8>|
                #![trigger record.len()]
                record.len() > 0 && grown_by_insertion(
                    body,
                    out,
                    at,
                    record,
                    inv.list_size_offset,
                    inv.stack_count_offset,
                    inv.subsystem_size_offset,
                    1,
                )
        }),
{
    reveal(spec_add_stack);
    let inv = spec_inventory(body, version)->Ok_0;
    crate::items::lemma_inventory_first_record(body, version);
    let t = inv.stacks[0];
    let template = body.subrange(t.record_start, t.record_end);
    let p = spec_parse_template(template)->Some_0;
    let id = first_free_id(body, 0)->Some_0;
    let record = spec_clone_record(template, p, stem, id, count)->Ok_0;
    crate::items::lemma_clone_record_nonempty(template, p, stem, id, count);
    lemma_insertion(
        body,
        inv.first_record_start,
        record,
        inv.list_size_offset,
        inv.stack_count_offset,
        inv.subsystem_size_offset,
        1,
    );
    assert(record.len() > 0);
}

/// Completing research appends the `lstr` of every path not yet
/// discovered right after the `DiscoveredTechnologies` elements, keeps
/// every later byte (shifted), grows the array's payload size, the record
/// size and the whole-body size by the appended length and the element
/// count by the number of paths, and changes nothing else before it - when
/// those four fields lie before the elements' end and do not overlap. With
/// nothing to add the body comes back unchanged.
pub proof fn lemma_complete_effect(body: Seq<u8>, version: ArchiveVersion, paths: Seq<Seq<char>>)
    requires
        spec_complete(body, version, paths) is Ok,
        ({
            let state = spec_research(body, version)->Ok_0;
            fields_before(
                state.elements_end,
                state.array_size_offset,
                state.count_offset,
                state.record_size_offset,
            )
        }),
    ensures
        ({
            let state = spec_research(body, version)->Ok_0;
            let out = spec_complete(body, version, paths)->Ok_0;
            let to_add = not_in(paths, state.discovered);
            if to_add.len() == 0 {
                out == body
            } else {
                grown_by_insertion(
                    body,
                    out,
                    state.elements_end,
                    lstr_concat(to_add),
                    state.array_size_offset,
                    state.count_offset,
                    state.record_size_offset,
                    to_add.len() as int,
                )
            }
        }),
{
    let state = spec_research(body, version)->Ok_0;
    lemma_research_bounds(body, version);
    let to_add = not_in(paths, state.discovered);
    if to_add.len() > 0 {
        lemma_insertion(
            body,
            state.elements_end,
            lstr_concat(to_add),
            state.array_size_offset,
            state.count_offset,
            state.record_size_offset,
            to_add.len() as int,
        );
    }
}

/// Every emotion and radiation field of `r` lies inside a body of `len`
/// bytes.
pub open spec fn offsets_within(r: Seq<AlterModel>, len: int) -> bool {
    &&& forall|i: int, j: int|
        0 <= i < r.len() && 0 <= j < r[i].emotions.len() ==> 0 <= (#[trigger] r[i].emotions[j]).value_offset
            && r[i].emotions[j].value_offset + 4 <= len
    &&& forall|i: int, j: int|
        0 <= i < r.len() && 0 <= j < r[i].radiation.len() ==> 0 <= (#[trigger] r[i].radiation[j]).1
            && r[i].radiation[j].1 + 4 <= len
}

pub(crate) proof fn lemma_index_named_bound(r: Seq<AlterModel>, owner: Seq<char>)
    ensures
        0 <= index_named(r, owner) <= r.len(),
        index_named(r, owner) < r.len() ==> r[index_named(r, owner)].name == owner,
    decreases r.len(),
{
    if r.len() > 0 && r[0].name != owner {
        lemma_index_named_bound(r.drop_first(), owner);
    }
}

proof fn lemma_with_emotion_within(r: Seq<AlterModel>, owner: Seq<char>, e: EmotionModel, len: int)
    requires
        offsets_within(r, len),
        0 <= e.value_offset,
        e.value_offset + 4 <= len,
    ensures
        offsets_within(with_emotion(r, owner, e), len),
{
    lemma_index_named_bound(r, owner);
    let grown = with_owner(r, owner);
    let k = index_named(r, owner);
    let out = with_emotion(r, owner, e);
    assert forall|i: int, j: int|
        0 <= i < out.len() && 0 <= j < out[i].emotions.len() implies 0 <= (
        #[trigger] out[i].emotions[j]).value_offset && out[i].emotions[j].value_offset + 4 <= len by {
        if i != k && i < r.len() {
            assert(out[i] == r[i]);
        }
        if i == k && j < grown[k].emotions.len() && k < r.len() {
            assert(out[i].emotions[j] == r[k].emotions[j]);
        }
    }
    assert forall|i: int, j: int|
        0 <= i < out.len() && 0 <= j < out[i].radiation.len() implies 0 <= (
        #[trigger] out[i].radiation[j]).1 && out[i].radiation[j].1 + 4 <= len by {
        if i < r.len() {
            assert(out[i].radiation == r[i].radiation);
        }
    }
}

proof fn lemma_with_radiation_within(r: Seq<AlterModel>, owner: Seq<char>, v: (u32, int), len: int)
    requires
        offsets_within(r, len),
        0 <= v.1,
        v.1 + 4 <= len,
    ensures
        offsets_within(with_radiation(r, owner, v), len),
{
    lemma_index_named_bound(r, owner);
    let grown = with_owner(r, owner);
    let k = index_named(r, owner);
    let out = with_radiation(r, owner, v);
    assert forall|i: int, j: int|
        0 <= i < out.len() && 0 <= j < out[i].emotions.len() implies 0 <= (
        #[trigger] out[i].emotions[j]).value_offset && out[i].emotions[j].value_offset + 4 <= len by {
        if i < r.len() {
            assert(out[i].emotions == r[i].emotions);
        }
    }
    assert forall|i: int, j: int|
        0 <= i < out.len() && 0 <= j < out[i].radiation.len() implies 0 <= (
        #[trigger] out[i].radiation[j]).1 && out[i].radiation[j].1 + 4 <= len by {
        if i != k && i < r.len() {
            assert(out[i] == r[i]);
        }
        if i == k && j < grown[k].radiation.len() && k < r.len() {
            assert(out[i].radiation[j] == r[k].radiation[j]);
        }
    }
}

proof fn lemma_float_within(body: Seq<u8>, start: int, size: int)
    requires
        spec_float_after_marker(body, start, size) is Some,
    ensures
        0 <= spec_float_after_marker(body, start, size)->Some_0.1,
        spec_float_after_marker(body, start, size)->Some_0.1 + 4 <= body.len(),
{
}

proof fn lemma_emotion_scan_within(
    body: Seq<u8>,
    owners: Seq<(int, Seq<char>)>,
    r: Seq<AlterModel>,
    which: int,
    cands: Seq<int>,
)
    requires
        offsets_within(r, body.len() as int),
        emotion_scan(body, owners, r, which, cands) is Ok,
    ensures
        offsets_within(emotion_scan(body, owners, r, which, cands)->Ok_0, body.len() as int),
    decreases cands.len(),
{
    if cands.len() > 0 {
        let next = emotion_step(body, owners, r, which, cands[0])->Ok_0;
        match spec_record_content_after(body, cands[0] + emotion_needle(which).len()) {
            None => {},
            Some((cs, size)) => match spec_float_after_marker(body, cs, size) {
                None => {},
                Some((bits, offset)) => match owner_before(owners, cands[0]) {
                    None => {},
                    Some(owner) => {
                        lemma_float_within(body, cs, size);
                        lemma_with_emotion_within(
                            r,
                            owner,
                            EmotionModel { name: emotion_name(which), value_bits: bits, value_offset: offset },
                            body.len() as int,
                        );
                    },
                },
            },
        }
        lemma_emotion_scan_within(body, owners, next, which, cands.drop_first());
    }
}

proof fn lemma_emotions_from_within(
    body: Seq<u8>,
    owners: Seq<(int, Seq<char>)>,
    r: Seq<AlterModel>,
    which: int,
)
    requires
        offsets_within(r, body.len() as int),
        emotions_from(body, owners, r, which) is Ok,
    ensures
        offsets_within(emotions_from(body, owners, r, which)->Ok_0, body.len() as int),
    decreases 8 - which,
{
    if 0 <= which < 8 {
        let cands = occurrences(body, emotion_needle(which));
        lemma_emotion_scan_within(body, owners, r, which, cands);
        let next = emotion_scan(body, owners, r, which, cands)->Ok_0;
        lemma_emotions_from_within(body, owners, next, which + 1);
    }
}

proof fn lemma_radiation_scan_within(
    body: Seq<u8>,
    owners: Seq<(int, Seq<char>)>,
    r: Seq<AlterModel>,
    cands: Seq<int>,
)
    requires
        offsets_within(r, body.len() as int),
    ensures
        offsets_within(radiation_scan(body, owners, r, cands), body.len() as int),
    decreases cands.len(),
{
    if cands.len() > 0 {
        let next = radiation_step(body, owners, r, cands[0]);
        match spec_record_content_after(body, cands[0] + lstr_bytes(RADIATION_PATH@).len()) {
            None => {},
            Some((cs, size)) => match spec_float_after_marker(body, cs, size) {
                None => {},
                Some((bits, offset)) => match owner_before(owners, cands[0]) {
                    None => {},
                    Some(owner) => {
                        lemma_float_within(body, cs, size);
                        lemma_with_radiation_within(r, owner, (bits, offset), body.len() as int);
                    },
                },
            },
        }
        lemma_radiation_scan_within(body, owners, next, cands.drop_first());
    }
}

proof fn lemma_set_emotions_lands(
    body: Seq<u8>,
    emotions: Seq<EmotionModel>,
    name: Seq<char>,
    bits: u32,
    i: int,
)
    requires
        0 <= i,
        forall|j: int|
            0 <= j < emotions.len() ==> 0 <= (#[trigger] emotions[j]).value_offset
                && emotions[j].value_offset + 4 <= body.len(),
    ensures
        spec_set_emotions(body, emotions, name, bits, i).1 is Ok,
        spec_set_emotions(body, emotions, name, bits, i).0.len() == body.len(),
    decreases emotions.len() - i,
{
    if i < emotions.len() {
        if emotions[i].name != name {
            lemma_set_emotions_lands(body, emotions, name, bits, i + 1);
        } else {
            let next = spec_write_i32(body, emotions[i].value_offset, bits as int);
            lemma_write_bits_effect(body, emotions[i].value_offset, bits);
            lemma_set_emotions_lands(next, emotions, name, bits, i + 1);
        }
    }
}

proof fn lemma_set_radiation_lands(body: Seq<u8>, radiation: Seq<(u32, int)>, bits: u32, i: int)
    requires
        0 <= i,
        forall|j: int|
            0 <= j < radiation.len() ==> 0 <= (#[trigger] radiation[j]).1 && radiation[j].1 + 4
                <= body.len(),
    ensures
        spec_set_radiation(body, radiation, bits, i).1 is Ok,
        spec_set_radiation(body, radiation, bits, i).0.len() == body.len(),
    decreases radiation.len() - i,
{
    if i < radiation.len() {
        let next = spec_write_i32(body, radiation[i].1, bits as int);
        lemma_write_bits_effect(body, radiation[i].1, bits);
        lemma_set_radiation_lands(next, radiation, bits, i + 1);
    }
}

/// Every field of the alters read from a body lies inside it.
pub(crate) proof fn lemma_alters_within(body: Seq<u8>)
    requires
        spec_alters(body) is Ok,
    ensures
        offsets_within(spec_alters(body)->Ok_0, body.len() as int),
{
    let owners = crate::alters::spec_owners(body);
    let empty = Seq::<AlterModel>::empty();
    assert(offsets_within(empty, body.len() as int));
    lemma_emotions_from_within(body, owners, empty, 0);
    let r = emotions_from(body, owners, empty, 0)->Ok_0;
    lemma_radiation_scan_within(
        body,
        owners,
        r,
        occurrences(body, lstr_bytes(RADIATION_PATH@)),
    );
}

/// Every emotion and radiation field that [`crate::alters::alters`]
/// reports lies inside the body, so setting any emotion or the radiation
/// of any reported alter on the same body lands and keeps its length.
pub proof fn lemma_alter_edits_land(body: Seq<u8>, k: int, emotion: Seq<char>, bits: u32)
    requires
        spec_alters(body) is Ok,
        0 <= k < spec_alters(body)->Ok_0.len(),
    ensures
        ({
            let a = spec_alters(body)->Ok_0[k];
            &&& spec_set_emotions(body, a.emotions, emotion, bits, 0).1 is Ok
            &&& spec_set_emotions(body, a.emotions, emotion, bits, 0).0.len() == body.len()
            &&& spec_set_radiation(body, a.radiation, bits, 0).1 is Ok
            &&& spec_set_radiation(body, a.radiation, bits, 0).0.len() == body.len()
        }),
{
    let owners = crate::alters::spec_owners(body);
    let empty = Seq::<AlterModel>::empty();
    assert(offsets_within(empty, body.len() as int));
    lemma_emotions_from_within(body, owners, empty, 0);
    let r = emotions_from(body, owners, empty, 0)->Ok_0;
    lemma_radiation_scan_within(
        body,
        owners,
        r,
        occurrences(body, lstr_bytes(RADIATION_PATH@)),
    );
    let a = spec_alters(body)->Ok_0[k];
    lemma_set_emotions_lands(body, a.emotions, emotion, bits, 0);
    lemma_set_radiation_lands(body, a.radiation, bits, 0);
}

} // verus!
