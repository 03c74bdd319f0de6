//! Laws that read a body again after an edit: what the parser reports of
//! the edited body, against what it reported before.
use vstd::prelude::*;

use crate::bytes::{
    lemma_first_stop_frame, lemma_first_stop_some, spec_first_stop, spec_read_i32, spec_read_lstr,
    spec_read_usize,
    spec_write_i32, Stop,
};
use crate::error::ErrorModel;
use crate::items::{
    spec_count_prop, spec_inventory, spec_item_class, spec_list_header, spec_stack, spec_stacks,
    spec_subsystem, stack_starts, InventoryModel, StackModel, ITEM_PATH_PREFIX, STACK_SCRIPT,
};
use crate::sav::ArchiveVersion;
use crate::edit_laws::{lemma_containers_parsed, lemma_stacks_elements, lemma_read_same_bytes, lemma_write_effect};
use crate::elb::spec_checked_write;
use crate::resources::{
    containers_among, spec_containers, spec_parse_container, ContainerModel, BACK_WINDOW, CLASS_STEM, CONTAINER_SCRIPT, VALUE_MARKER,
};
use crate::search::{
    lemma_find_around, lemma_find_frame, lemma_find_some, occurrences, occurs_at, spec_find, spec_rfind,
};

verus! {

/// Two sequences of one length agree on every position from `lo` up to `hi`.
pub open spec fn agree_on(a: Seq<u8>, b: Seq<u8>, lo: int, hi: int) -> bool {
    &&& a.len() == b.len()
    &&& forall|i: int| lo <= i < hi && 0 <= i < a.len() ==> #[trigger] a[i] == b[i]
}

/// Where the back window before a script path at `t` starts.
pub open spec fn window_start(t: int) -> int {
    if t >= BACK_WINDOW {
        t - BACK_WINDOW
    } else {
        0
    }
}

/// The end of the payload of the container record whose script path
/// starts at `t`, as its header gives it (the body's end when the header
/// does not read).
pub open spec fn payload_end(body: Seq<u8>, t: int) -> int {
    match spec_read_lstr(body, t + CONTAINER_SCRIPT@.len()) {
        Some((_, after_name)) => match spec_read_i32(body, after_name + 4) {
            Some(size) => after_name + 9 + size,
            None => body.len() as int,
        },
        None => body.len() as int,
    }
}

/// The bytes that reading the container record at the script path `t`
/// looks at lie from `.0` up to `.1`: from the last class stem in the back
/// window (the window's start when there is none) to the end of the
/// record's payload, or to the end of the body when the record does not
/// parse.
pub open spec fn container_span(body: Seq<u8>, t: int) -> (int, int) {
    let ws = window_start(t);
    let lo = match spec_rfind(body.subrange(ws, t), CLASS_STEM@) {
        Some(q) => ws + q,
        None => ws,
    };
    let hi = if spec_parse_container(body, t) is Some {
        payload_end(body, t)
    } else {
        body.len() as int
    };
    (lo, hi)
}

/// `m` with its amount set to `amount` when its amount is stored at `off`.
pub open spec fn amount_set_at(m: ContainerModel, off: int, amount: i32) -> ContainerModel {
    if m.amount_offset == off {
        ContainerModel {
            resource: m.resource,
            amount,
            second: m.second,
            amount_offset: m.amount_offset,
        }
    } else {
        m
    }
}

#[verifier::rlimit(30)]
proof fn lemma_i32_frame(a: Seq<u8>, b: Seq<u8>, lo: int, hi: int, off: int)
    requires
        agree_on(a, b, lo, hi),
        lo <= off,
        off + 4 <= hi || hi >= a.len(),
    ensures
        spec_read_i32(b, off) == spec_read_i32(a, off),
{
    if 0 <= off && off + 4 <= a.len() {
        assert(a.subrange(off, off + 4) =~= b.subrange(off, off + 4));
        lemma_read_same_bytes(a, off, b, off);
    }
}

#[verifier::rlimit(30)]
proof fn lemma_lstr_frame(a: Seq<u8>, b: Seq<u8>, lo: int, hi: int, off: int)
    requires
        agree_on(a, b, lo, hi),
        lo <= off,
        hi >= a.len() || (spec_read_lstr(a, off) matches Some((_, e)) && e <= hi),
    ensures
        spec_read_lstr(b, off) == spec_read_lstr(a, off),
{
    lemma_i32_frame(a, b, lo, hi, off);
    match spec_read_i32(a, off) {
        Some(len) => {
            let end = off + 4 + len;
            if len >= 1 && end <= a.len() {
                assert(a[end - 1] == b[end - 1]);
                assert(a.subrange(off + 4, end - 1) =~= b.subrange(off + 4, end - 1));
            }
        },
        None => {},
    }
}

/// A body that agrees with `a` on the span of the container record at `t`
/// parses that record as `a` does.
#[verifier::rlimit(60)]
proof fn lemma_parse_frame(a: Seq<u8>, b: Seq<u8>, t: int)
    requires
        occurs_at(a, CONTAINER_SCRIPT@, t),
        agree_on(a, b, container_span(a, t).0, container_span(a, t).1),
    ensures
        spec_parse_container(b, t) == spec_parse_container(a, t),
{
    let (lo, hi) = container_span(a, t);
    let ws = window_start(t);
    let wa = a.subrange(ws, t);
    let wb = b.subrange(ws, t);
    let parsed = spec_parse_container(a, t);
    reveal(spec_parse_container);
    if parsed is Some {
        let (_, an) = spec_read_lstr(a, t + 39)->Some_0;
        assert(an >= t + 44);
        assert(hi == payload_end(a, t));
        assert(hi >= an + 9);
    }
    assert(hi >= t);
    match spec_rfind(wa, CLASS_STEM@) {
        None => {
            assert(wb =~= wa);
            assert(parsed is None);
        },
        Some(q) => {
            crate::search::lemma_rfind_some(wa, CLASS_STEM@);
            assert(lo == ws + q);
            crate::search::lemma_rfind_frame(wa, wb, CLASS_STEM@, q);
            let ta = wa.subrange(q + 12, wa.len() as int);
            let tb = wb.subrange(q + 12, wb.len() as int);
            assert(ta =~= tb);
            lemma_lstr_frame(a, b, lo, hi, t + 39);
            match spec_read_lstr(a, t + 39) {
                None => {},
                Some((_, an)) => {
                    lemma_i32_frame(a, b, lo, hi, an);
                    lemma_i32_frame(a, b, lo, hi, an + 4);
                    match spec_read_i32(a, an + 4) {
                        None => {},
                        Some(size) => {
                            let ps = an + 9;
                            if size >= 0 && ps + size <= a.len() {
                                assert(a.subrange(ps, ps + size) =~= b.subrange(ps, ps + size));
                            }
                        },
                    }
                },
            }
        },
    }
}

/// Writing a container's amount field makes that record parse with the new
/// amount; the value marker before the field stays in place.
#[verifier::rlimit(60)]
proof fn lemma_parse_rewritten(a: Seq<u8>, t: int, amount: i32)
    requires
        0 <= t,
        spec_parse_container(a, t) is Some,
    ensures
        ({
            let m = spec_parse_container(a, t)->Some_0;
            let b = spec_write_i32(a, m.amount_offset, amount as int);
            &&& t + 39 <= m.amount_offset - 8
            &&& m.amount_offset + 4 <= a.len()
            &&& occurs_at(a, VALUE_MARKER@, m.amount_offset - 8)
            &&& spec_parse_container(b, t) == Some(amount_set_at(m, m.amount_offset, amount))
        }),
{
    let m = spec_parse_container(a, t)->Some_0;
    let o = m.amount_offset;
    reveal(spec_parse_container);
    let (_, an) = spec_read_lstr(a, t + 39)->Some_0;
    let size = spec_read_i32(a, an + 4)->Some_0;
    let ps = an + 9;
    let pa = a.subrange(ps, ps + size);
    crate::search::lemma_find_some(pa, VALUE_MARKER@);
    let first = spec_find(pa, VALUE_MARKER@)->Some_0;
    let at = first + 8;
    assert(o == ps + at);
    lemma_write_effect(a, o, amount as int);
    let b = spec_write_i32(a, o, amount as int);
    assert(agree_on(a, b, 0, o));
    assert(pa.subrange(first, first + 8) =~= a.subrange(o - 8, o));
    let ws = window_start(t);
    assert(b.subrange(ws, t) =~= a.subrange(ws, t));
    lemma_lstr_frame(a, b, 0, o, t + 39);
    lemma_i32_frame(a, b, 0, o, an);
    lemma_i32_frame(a, b, 0, o, an + 4);
    let pb = b.subrange(ps, ps + size);
    assert forall|i: int| 0 <= i < first + 8 implies #[trigger] pb[i] == pa[i] by {
        assert(a[ps + i] == b[ps + i]);
    }
    crate::search::lemma_find_frame(pa, pb, VALUE_MARKER@, first);
    assert(pb.subrange(at, at + 4) =~= b.subrange(o, o + 4));
    lemma_read_same_bytes(pb, at, b, o);
    assert(pb.subrange(at + 4, size) =~= pa.subrange(at + 4, size));
}

#[verifier::rlimit(30)]
proof fn lemma_script_bytes()
    ensures
        CONTAINER_SCRIPT@.len() == 39,
        CONTAINER_SCRIPT@[38] == 0,
        forall|j: int| 0 <= j < 38 ==> CONTAINER_SCRIPT@[j] != 0,
{
}

#[verifier::rlimit(30)]
proof fn lemma_no_script_across(h: Seq<u8>, o: int, i: int)
    requires
        0 <= i < o < i + 39,
        o <= h.len(),
        h[o - 1] == 0,
    ensures
        !occurs_at(h, CONTAINER_SCRIPT@, i),
{
    lemma_script_bytes();
    if occurs_at(h, CONTAINER_SCRIPT@, i) {
        assert(h.subrange(i, i + 39)[o - 1 - i] == h[o - 1]);
    }
}

#[verifier::rlimit(30)]
proof fn lemma_script_at(a: Seq<u8>, b: Seq<u8>, o: int, i: int)
    requires
        1 <= o,
        o + 4 <= a.len(),
        crate::edit_laws::same_outside(a, b, o),
        a[o - 1] == 0,
        !(o <= i < o + 4) || (!occurs_at(a, CONTAINER_SCRIPT@, i) && !occurs_at(b, CONTAINER_SCRIPT@, i)),
    ensures
        occurs_at(a, CONTAINER_SCRIPT@, i) == occurs_at(b, CONTAINER_SCRIPT@, i),
{
    lemma_script_bytes();
    if 0 <= i && i + 39 <= a.len() {
        if i + 39 <= o || o + 4 <= i {
            assert(a.subrange(i, i + 39) =~= b.subrange(i, i + 39));
        } else if i < o {
            lemma_no_script_across(a, o, i);
            lemma_no_script_across(b, o, i);
        }
    }
}

/// Writing a container's amount field keeps the script-path occurrences,
/// unless a script path starts inside the field before or after the write.
#[verifier::rlimit(30)]
proof fn lemma_scripts_kept(a: Seq<u8>, t: int, amount: i32)
    requires
        0 <= t,
        spec_parse_container(a, t) is Some,
        ({
            let o = spec_parse_container(a, t)->Some_0.amount_offset;
            forall|i: int| o <= i < o + 4 ==> !#[trigger] occurs_at(a, CONTAINER_SCRIPT@, i)
                && !occurs_at(spec_write_i32(a, o, amount as int), CONTAINER_SCRIPT@, i)
        }),
    ensures
        ({
            let o = spec_parse_container(a, t)->Some_0.amount_offset;
            occurrences(spec_write_i32(a, o, amount as int), CONTAINER_SCRIPT@) == occurrences(
                a,
                CONTAINER_SCRIPT@,
            )
        }),
{
    let o = spec_parse_container(a, t)->Some_0.amount_offset;
    let b = spec_write_i32(a, o, amount as int);
    let n = CONTAINER_SCRIPT@;
    lemma_parse_rewritten(a, t, amount);
    lemma_write_effect(a, o, amount as int);
    assert(a[o - 1] == a.subrange(o - 8, o)[7]);
    assert(a[o - 1] == 0);
    assert(b[o - 1] == 0);
    assert forall|i: int| #[trigger] occurs_at(a, n, i) == occurs_at(b, n, i) by {
        lemma_script_at(a, b, o, i);
    }
    crate::search::lemma_occurrences_same(a, b, n, 0);
}

/// The script path at `t` either starts the record whose amount lies at
/// `o`, or its record is read from bytes apart from the field at `o`.
pub open spec fn apart_from_amount(body: Seq<u8>, t: int, o: int) -> bool {
    ||| (spec_parse_container(body, t) matches Some(m) && m.amount_offset == o)
    ||| o + 4 <= container_span(body, t).0
    ||| container_span(body, t).1 <= o
}

#[verifier::rlimit(30)]
proof fn lemma_among_rewritten(a: Seq<u8>, o: int, amount: i32, occ: Seq<int>)
    requires
        0 <= o,
        o + 4 <= a.len(),
        forall|k: int| 0 <= k < occ.len() ==> occurs_at(a, CONTAINER_SCRIPT@, #[trigger] occ[k]),
        forall|k: int| 0 <= k < occ.len() ==> apart_from_amount(a, #[trigger] occ[k], o),
    ensures
        containers_among(spec_write_i32(a, o, amount as int), occ) == containers_among(a, occ).map_values(
            |m: ContainerModel| amount_set_at(m, o, amount),
        ),
    decreases occ.len(),
{
    let b = spec_write_i32(a, o, amount as int);
    let f = |m: ContainerModel| amount_set_at(m, o, amount);
    if occ.len() == 0 {
        assert(containers_among(a, occ).map_values(f) =~= Seq::<ContainerModel>::empty());
    } else {
        let t = occ[0];
        let tail = occ.drop_first();
        assert forall|k: int| 0 <= k < tail.len() implies occurs_at(a, CONTAINER_SCRIPT@, #[trigger] tail[k])
            && apart_from_amount(a, tail[k], o) by {
            assert(tail[k] == occ[k + 1]);
        }
        lemma_among_rewritten(a, o, amount, tail);
        let ra = containers_among(a, tail);
        lemma_write_effect(a, o, amount as int);
        let (lo, hi) = container_span(a, t);
        if spec_parse_container(a, t) matches Some(m) && m.amount_offset == o {
            lemma_parse_rewritten(a, t, amount);
        } else {
            assert(agree_on(a, b, lo, hi));
            lemma_parse_frame(a, b, t);
        }
        match spec_parse_container(a, t) {
            Some(m) => {
                assert(containers_among(a, occ) == seq![m] + ra);
                assert((seq![m] + ra).map_values(f) =~= seq![f(m)] + ra.map_values(f));
            },
            None => {},
        }
    }
}

/// Setting a container's amount and reading the containers of the edited
/// body again reports the same containers, in the same order, with the new
/// amount on the edited one and every other value unchanged.
///
/// This holds unless the four written bytes are part of a container's
/// script path in the body before or after the write, or lie inside the
/// bytes that another script path's record is read from (its
/// [`container_span`]). In a save whose container records follow one
/// another, neither happens.
#[verifier::rlimit(60)]
pub proof fn lemma_set_amount_reads_back(body: Seq<u8>, k: int, amount: i32)
    requires
        0 <= k < spec_containers(body).len(),
        ({
            let o = spec_containers(body)[k].amount_offset;
            &&& forall|i: int| o <= i < o + 4 ==> !#[trigger] occurs_at(body, CONTAINER_SCRIPT@, i)
                && !occurs_at(spec_write_i32(body, o, amount as int), CONTAINER_SCRIPT@, i)
            &&& forall|t: int| #[trigger] occurrences(body, CONTAINER_SCRIPT@).contains(t)
                ==> apart_from_amount(body, t, o)
        }),
    ensures
        ({
            let o = spec_containers(body)[k].amount_offset;
            let written = spec_checked_write(body, o, amount as int, "resource amount field"@);
            &&& written is Ok
            &&& spec_containers(written->Ok_0) == spec_containers(body).map_values(
                |m: ContainerModel| amount_set_at(m, o, amount),
            )
            &&& spec_containers(written->Ok_0)[k].amount == amount
        }),
{
    let c = spec_containers(body)[k];
    let o = c.amount_offset;
    let occ = occurrences(body, CONTAINER_SCRIPT@);
    lemma_containers_parsed(body, occ, k);
    let s = choose|s: int| occ.contains(s) && spec_parse_container(body, s) == Some(
        #[trigger] containers_among(body, occ)[k],
    );
    crate::search::lemma_occurrences_are_matches(body, CONTAINER_SCRIPT@, 0);
    let j = choose|j: int| 0 <= j < occ.len() && occ[j] == s;
    assert(occurs_at(body, CONTAINER_SCRIPT@, occ[j]));
    lemma_parse_rewritten(body, s, amount);
    lemma_scripts_kept(body, s, amount);
    assert forall|i: int| 0 <= i < occ.len() implies apart_from_amount(body, #[trigger] occ[i], o) by {
        assert(occ.contains(occ[i]));
    }
    lemma_among_rewritten(body, o, amount, occ);
}

/// `m` with its count set to `count` when its count is stored at `off`.
pub open spec fn count_set_at(m: StackModel, off: int, count: i32) -> StackModel {
    if m.count_offset == off {
        StackModel {
            item: m.item,
            count,
            record_start: m.record_start,
            record_end: m.record_end,
            count_offset: m.count_offset,
        }
    } else {
        m
    }
}

/// Where the item class text of a stack record ends: just past the `.`
/// after its item path (the record's length when there is none).
pub open spec fn item_class_end(record: Seq<u8>) -> int {
    match spec_find(record, ITEM_PATH_PREFIX@) {
        None => record.len() as int,
        Some(p) => {
            let tail = record.subrange(p + ITEM_PATH_PREFIX@.len(), record.len() as int);
            match spec_first_stop(tail, Stop::Dot) {
                None => record.len() as int,
                Some(dot) => p + ITEM_PATH_PREFIX@.len() + dot + 1,
            }
        },
    }
}

/// The item class of `record` is read apart from the four bytes at `rel`:
/// its text ends before them, or its item path starts after them.
pub open spec fn class_apart(record: Seq<u8>, rel: int) -> bool {
    ||| item_class_end(record) <= rel
    ||| (spec_find(record, ITEM_PATH_PREFIX@) matches Some(p) && rel + 4 <= p)
}

/// A body that agrees with `a` on the bytes a stack record and its count
/// field occupy parses that stack as `a` does.
#[verifier::rlimit(30)]
proof fn lemma_stack_frame(
    a: Seq<u8>,
    b: Seq<u8>,
    starts: Seq<int>,
    j: int,
    list_end: int,
    count_prop: Seq<u8>,
    hi: int,
)
    requires
        0 <= j < starts.len(),
        0 <= starts[j],
        spec_stack(a, starts, j, list_end, count_prop) matches Ok(m) && m.record_end <= hi
            && m.count_offset + 4 <= hi,
        agree_on(a, b, starts[j], hi),
    ensures
        spec_stack(b, starts, j, list_end, count_prop) == spec_stack(a, starts, j, list_end, count_prop),
{
    let m = spec_stack(a, starts, j, list_end, count_prop)->Ok_0;
    let r = a.subrange(m.record_start, m.record_end);
    lemma_find_some(r, count_prop);
    assert(a.subrange(m.record_start, m.record_end) =~= b.subrange(m.record_start, m.record_end));
    lemma_i32_frame(a, b, starts[j], hi, m.count_offset);
}

#[verifier::rlimit(60)]
proof fn lemma_item_class_kept(r: Seq<u8>, r2: Seq<u8>, rel: int)
    requires
        r2.len() == r.len(),
        0 <= rel,
        rel + 4 <= r.len(),
        forall|i: int| 0 <= i < r.len() && !(rel <= i < rel + 4) ==> #[trigger] r2[i] == r[i],
        forall|i: int| i < rel + 4 && rel < i + ITEM_PATH_PREFIX@.len() ==> !#[trigger] occurs_at(
            r2,
            ITEM_PATH_PREFIX@,
            i,
        ),
        class_apart(r, rel),
        spec_item_class(r) is Some,
    ensures
        spec_item_class(r2) == spec_item_class(r),
{
    let n = ITEM_PATH_PREFIX@;
    let p = spec_find(r, n)->Some_0;
    lemma_find_some(r, n);
    let tail = r.subrange(p + 23, r.len() as int);
    let tail2 = r2.subrange(p + 23, r2.len() as int);
    if item_class_end(r) <= rel {
        let d = spec_first_stop(tail, Stop::Dot)->Some_0;
        lemma_first_stop_some(tail, Stop::Dot);
        assert(n.len() == 23);
        assert(p + 23 + d + 1 <= rel);
        assert forall|i: int| 0 <= i < p + n.len() implies #[trigger] r2[i] == r[i] by {
            assert(i < rel);
        }
        lemma_find_frame(r, r2, n, p);
        lemma_first_stop_some(tail, Stop::Dot);
        assert forall|i: int| 0 <= i <= d implies #[trigger] tail2[i] == tail[i] by {
            assert(r2[p + 23 + i] == r[p + 23 + i]);
        }
        lemma_first_stop_frame(tail, tail2, Stop::Dot, d);
        assert(tail.subrange(0, d) =~= tail2.subrange(0, d));
    } else {
        lemma_find_around(r, r2, n, p, rel, rel + 4);
        assert(tail =~= tail2);
    }
}

/// Writing a stack's count field makes that stack parse with the new count,
/// when the field lies inside its record, its item class is read apart from
/// it, and after the write no item path touches it.
#[verifier::rlimit(60)]
proof fn lemma_stack_rewritten(
    a: Seq<u8>,
    starts: Seq<int>,
    k: int,
    list_end: int,
    count_prop: Seq<u8>,
    count: i32,
)
    requires
        0 <= k < starts.len(),
        0 <= starts[k],
        count_prop.len() == 35,
        spec_stack(a, starts, k, list_end, count_prop) is Ok,
        ({
            let m = spec_stack(a, starts, k, list_end, count_prop)->Ok_0;
            let o = m.count_offset;
            &&& o + 4 <= m.record_end
            &&& class_apart(a.subrange(m.record_start, m.record_end), o - m.record_start)
            &&& forall|i: int| o < i + ITEM_PATH_PREFIX@.len() && i < o + 4 ==> !#[trigger] occurs_at(
                spec_write_i32(a, o, count as int),
                ITEM_PATH_PREFIX@,
                i,
            )
        }),
    ensures
        ({
            let m = spec_stack(a, starts, k, list_end, count_prop)->Ok_0;
            let b = spec_write_i32(a, m.count_offset, count as int);
            spec_stack(b, starts, k, list_end, count_prop) == Ok::<StackModel, Seq<char>>(
                count_set_at(m, m.count_offset, count),
            )
        }),
{
    let m = spec_stack(a, starts, k, list_end, count_prop)->Ok_0;
    let o = m.count_offset;
    let st = m.record_start;
    let en = m.record_end;
    let b = spec_write_i32(a, o, count as int);
    let r = a.subrange(st, en);
    let r2 = b.subrange(st, en);
    let rel = o - st;
    let at = spec_find(r, count_prop)->Some_0;
    lemma_find_some(r, count_prop);
    assert(rel == at + 35);
    lemma_write_effect(a, o, count as int);
    assert(r2.len() == r.len());
    assert forall|i: int| 0 <= i < r.len() && !(rel <= i < rel + 4) implies #[trigger] r2[i] == r[i] by {
        assert(a[st + i] == b[st + i]);
    }
    // the Count header before the field is found again
    lemma_find_frame(r, r2, count_prop, at);
    assert forall|i: int| i < rel + 4 && rel < i + ITEM_PATH_PREFIX@.len() implies !#[trigger] occurs_at(
        r2,
        ITEM_PATH_PREFIX@,
        i,
    ) by {
        if occurs_at(r2, ITEM_PATH_PREFIX@, i) {
            assert(b.subrange(st + i, st + i + 23) =~= r2.subrange(i, i + 23));
            assert(occurs_at(b, ITEM_PATH_PREFIX@, st + i));
        }
    }
    lemma_item_class_kept(r, r2, rel);
    assert(r2.subrange(at + 35, at + 39) =~= b.subrange(o, o + 4));
    lemma_read_same_bytes(r2, at + 35, b, o);
}

#[verifier::rlimit(30)]
pub(crate) proof fn lemma_stack_bounds(a: Seq<u8>, starts: Seq<int>, j: int, list_end: int, count_prop: Seq<u8>)
    requires
        0 <= j < starts.len(),
        0 <= starts[j],
        count_prop.len() == 35,
        spec_stack(a, starts, j, list_end, count_prop) is Ok,
    ensures
        ({
            let m = spec_stack(a, starts, j, list_end, count_prop)->Ok_0;
            &&& m.record_start == starts[j]
            &&& m.record_end == if j + 1 < starts.len() {
                starts[j + 1]
            } else {
                list_end
            }
            &&& m.record_start + 35 <= m.count_offset <= m.record_end <= a.len()
            &&& m.count_offset + 4 <= a.len()
        }),
{
    let m = spec_stack(a, starts, j, list_end, count_prop)->Ok_0;
    lemma_find_some(a.subrange(m.record_start, m.record_end), count_prop);
}

/// The stacks from `i` on, parsed again after the count of stack `k` was
/// written, are the old ones with that count set.
#[verifier::rlimit(60)]
proof fn lemma_stacks_rewritten(
    a: Seq<u8>,
    starts: Seq<int>,
    list_end: int,
    count_prop: Seq<u8>,
    i: int,
    k: int,
    count: i32,
)
    requires
        0 <= i <= starts.len(),
        0 <= k < starts.len(),
        forall|x: int| 0 <= x < starts.len() ==> 0 <= #[trigger] starts[x],
        forall|x: int, y: int| 0 <= x < y < starts.len() ==> starts[x] < starts[y],
        count_prop.len() == 35,
        spec_stacks(a, starts, list_end, count_prop, i) is Ok,
        spec_stack(a, starts, k, list_end, count_prop) is Ok,
        ({
            let m = spec_stack(a, starts, k, list_end, count_prop)->Ok_0;
            let o = m.count_offset;
            &&& o + 4 <= m.record_end
            &&& class_apart(a.subrange(m.record_start, m.record_end), o - m.record_start)
            &&& forall|x: int| o < x + ITEM_PATH_PREFIX@.len() && x < o + 4 ==> !#[trigger] occurs_at(
                spec_write_i32(a, o, count as int),
                ITEM_PATH_PREFIX@,
                x,
            )
        }),
    ensures
        ({
            let o = spec_stack(a, starts, k, list_end, count_prop)->Ok_0.count_offset;
            let b = spec_write_i32(a, o, count as int);
            spec_stacks(b, starts, list_end, count_prop, i) == Ok::<Seq<StackModel>, Seq<char>>(
                spec_stacks(a, starts, list_end, count_prop, i)->Ok_0.map_values(
                    |m: StackModel| count_set_at(m, o, count),
                ),
            )
        }),
    decreases starts.len() - i,
{
    let mk = spec_stack(a, starts, k, list_end, count_prop)->Ok_0;
    let o = mk.count_offset;
    let b = spec_write_i32(a, o, count as int);
    let f = |m: StackModel| count_set_at(m, o, count);
    lemma_stack_bounds(a, starts, k, list_end, count_prop);
    lemma_write_effect(a, o, count as int);
    if i == starts.len() {
        assert(spec_stacks(a, starts, list_end, count_prop, i)->Ok_0.map_values(f) =~= Seq::<
            StackModel,
        >::empty());
    } else {
        lemma_stacks_rewritten(a, starts, list_end, count_prop, i + 1, k, count);
        let mi = spec_stack(a, starts, i, list_end, count_prop)->Ok_0;
        lemma_stack_bounds(a, starts, i, list_end, count_prop);
        if i == k {
            lemma_stack_rewritten(a, starts, k, list_end, count_prop, count);
        } else if i < k {
            assert(mi.record_end <= starts[k]) by {
                if i + 1 < k {
                    assert(starts[i + 1] < starts[k]);
                }
            }
            assert(agree_on(a, b, starts[i], o));
            lemma_stack_frame(a, b, starts, i, list_end, count_prop, o);
        } else {
            assert(starts[k + 1] <= starts[i]) by {
                if k + 1 < i {
                    assert(starts[k + 1] < starts[i]);
                }
            }
            assert(agree_on(a, b, starts[i], a.len() as int));
            lemma_stack_frame(a, b, starts, i, list_end, count_prop, a.len() as int);
        }
        let rest = spec_stacks(a, starts, list_end, count_prop, i + 1)->Ok_0;
        assert((seq![mi] + rest).map_values(f) =~= seq![f(mi)] + rest.map_values(f));
    }
}

#[verifier::rlimit(30)]
pub(crate) proof fn lemma_starts_shape(body: Seq<u8>, occ: Seq<int>, script: int, end: int)
    requires
        forall|x: int, y: int| 0 <= x < y < occ.len() ==> occ[x] < occ[y],
    ensures
        ({
            let ss = stack_starts(body, occ, script, end);
            &&& forall|x: int| 0 <= x < ss.len() ==> 0 <= #[trigger] ss[x]
            &&& forall|x: int, y: int| 0 <= x < y < ss.len() ==> ss[x] < ss[y]
            &&& occ.len() > 0 ==> forall|x: int| 0 <= x < ss.len() ==> occ[0] - 4 <= #[trigger] ss[x]
        }),
    decreases occ.len(),
{
    if occ.len() > 0 {
        let tail = occ.drop_first();
        assert forall|x: int, y: int| 0 <= x < y < tail.len() implies tail[x] < tail[y] by {
            assert(tail[x] == occ[x + 1] && tail[y] == occ[y + 1]);
        }
        lemma_starts_shape(body, tail, script, end);
        let rest = stack_starts(body, tail, script, end);
        if tail.len() > 0 {
            assert(occ[0] < occ[1]);
        }
        let ss = stack_starts(body, occ, script, end);
        if occ[0] >= 4 && spec_read_usize(body, occ[0] - 4) == Some(STACK_SCRIPT@.len() as int)
            && occ[0] - 4 > script && occ[0] - 4 < end {
            assert(ss == seq![occ[0] - 4] + rest);
            assert forall|x: int, y: int| 0 <= x < y < ss.len() implies ss[x] < ss[y] by {
                assert(ss[y] == rest[y - 1]);
                if x > 0 {
                    assert(ss[x] == rest[x - 1]);
                }
            }
            assert forall|x: int| 0 <= x < ss.len() implies 0 <= #[trigger] ss[x] && occ[0] - 4 <= ss[x] by {
                if x > 0 {
                    assert(ss[x] == rest[x - 1]);
                }
            }
        }
    }
}

/// Positions whose four-byte length field and script path both lie apart
/// from the four bytes at `o` keep their stack-record test.
#[verifier::rlimit(30)]
proof fn lemma_starts_kept(a: Seq<u8>, b: Seq<u8>, o: int, occ: Seq<int>, script: int, end: int)
    requires
        crate::edit_laws::same_outside(a, b, o),
        forall|x: int| 0 <= x < occ.len() ==> #[trigger] occ[x] + 31 <= o || o + 8 <= occ[x],
    ensures
        stack_starts(b, occ, script, end) == stack_starts(a, occ, script, end),
    decreases occ.len(),
{
    if occ.len() > 0 {
        let tail = occ.drop_first();
        assert forall|x: int| 0 <= x < tail.len() implies #[trigger] tail[x] + 31 <= o || o + 8 <= tail[x] by {
            assert(tail[x] == occ[x + 1]);
        }
        lemma_starts_kept(a, b, o, tail, script, end);
        let t = occ[0];
        if t >= 4 && t <= a.len() {
            assert(agree_on(a, b, t - 4, t));
            lemma_i32_frame(a, b, t - 4, t, t - 4);
        }
    }
}

#[verifier::rlimit(30)]
proof fn lemma_stack_script_at(a: Seq<u8>, b: Seq<u8>, o: int, i: int)
    requires
        crate::edit_laws::same_outside(a, b, o),
        (occurs_at(a, STACK_SCRIPT@, i) || occurs_at(b, STACK_SCRIPT@, i)) ==> i + 31 <= o || o + 8 <= i,
    ensures
        occurs_at(a, STACK_SCRIPT@, i) == occurs_at(b, STACK_SCRIPT@, i),
{
    assert(STACK_SCRIPT@.len() == 31);
    if 0 <= i && i + 31 <= a.len() && (i + 31 <= o || o + 4 <= i) {
        assert(a.subrange(i, i + 31) =~= b.subrange(i, i + 31));
    }
}

/// Setting a stack's count and reading the inventory of the edited body
/// again reports the same inventory: the same stacks in the same order, the
/// new count on the edited one, every other value and every offset
/// unchanged.
///
/// This holds when the written field lies apart from what the inventory is
/// read from, as it does in the record layout: the field lies inside its
/// stack record, after the subsystem record's header; the edited record's
/// item class is read apart from it; and no stack script path or its length
/// field, nor after the write an item path, overlaps it.
#[verifier::rlimit(60)]
pub proof fn lemma_set_count_reads_back(body: Seq<u8>, version: ArchiveVersion, k: int, count: i32)
    requires
        spec_inventory(body, version) is Ok,
        0 <= k < spec_inventory(body, version)->Ok_0.stacks.len(),
        ({
            let inv = spec_inventory(body, version)->Ok_0;
            let s = inv.stacks[k];
            let o = s.count_offset;
            let written = spec_write_i32(body, o, count as int);
            &&& o + 4 <= s.record_end
            &&& inv.subsystem_size_offset + 4 <= o
            &&& class_apart(body.subrange(s.record_start, s.record_end), o - s.record_start)
            &&& forall|t: int|
                #![trigger occurs_at(body, STACK_SCRIPT@, t)]
                #![trigger occurs_at(written, STACK_SCRIPT@, t)]
                occurs_at(body, STACK_SCRIPT@, t) || occurs_at(written, STACK_SCRIPT@, t) ==> t + 31
                    <= o || o + 8 <= t
            &&& forall|x: int| o < x + ITEM_PATH_PREFIX@.len() && x < o + 4 ==> !#[trigger] occurs_at(
                written,
                ITEM_PATH_PREFIX@,
                x,
            )
        }),
    ensures
        ({
            let inv = spec_inventory(body, version)->Ok_0;
            let o = inv.stacks[k].count_offset;
            let written = spec_checked_write(body, o, count as int, "stack count field"@);
            &&& written is Ok
            &&& spec_inventory(written->Ok_0, version) == Ok::<InventoryModel, ErrorModel>(
                InventoryModel {
                    stacks: inv.stacks.map_values(|m: StackModel| count_set_at(m, o, count)),
                    list_size_offset: inv.list_size_offset,
                    stack_count_offset: inv.stack_count_offset,
                    subsystem_size_offset: inv.subsystem_size_offset,
                    first_record_start: inv.first_record_start,
                },
            )
            &&& spec_inventory(written->Ok_0, version)->Ok_0.stacks[k].count == count
        }),
{
    reveal(spec_inventory);
    let inv = spec_inventory(body, version)->Ok_0;
    let s = inv.stacks[k];
    let o = s.count_offset;
    let b = spec_write_i32(body, o, count as int);
    let cp = spec_count_prop(version)->Ok_0;
    assert(cp.len() == 35);
    let (script, so, send) = spec_subsystem(body)->Ok_0;
    let occ = occurrences(body, STACK_SCRIPT@);
    let starts = stack_starts(body, occ, script, send);
    let (ls, sc, list_end) = spec_list_header(body, starts, send)->Ok_0;
    lemma_stacks_elements(body, starts, list_end, cp, 0);
    assert(spec_stack(body, starts, k, list_end, cp) == Ok::<StackModel, Seq<char>>(s));
    crate::search::lemma_occurrences_are_matches(body, STACK_SCRIPT@, 0);
    crate::items::lemma_occurrences_increasing(body, STACK_SCRIPT@, 0);
    lemma_starts_shape(body, occ, script, send);
    lemma_stack_bounds(body, starts, k, list_end, cp);
    lemma_write_effect(body, o, count as int);
    // the subsystem header
    let sub = crate::items::SUBSYSTEM_SCRIPT@;
    lemma_find_some(body, sub);
    assert(agree_on(body, b, 0, o));
    assert forall|i: int| 0 <= i < script + sub.len() implies #[trigger] b[i] == body[i] by {}
    lemma_find_frame(body, b, sub, script);
    lemma_lstr_frame(body, b, 0, o, script + sub.len());
    let (_, after_name) = spec_read_lstr(body, script + sub.len())->Some_0;
    lemma_i32_frame(body, b, 0, o, after_name);
    lemma_i32_frame(body, b, 0, o, after_name + 4);
    assert(spec_subsystem(b) == spec_subsystem(body));
    // the stack records' starts
    assert forall|i: int| #[trigger] occurs_at(body, STACK_SCRIPT@, i) == occurs_at(b, STACK_SCRIPT@, i) by {
        lemma_stack_script_at(body, b, o, i);
    }
    crate::search::lemma_occurrences_same(body, b, STACK_SCRIPT@, 0);
    assert forall|x: int| 0 <= x < occ.len() implies #[trigger] occ[x] + 31 <= o || o + 8 <= occ[x] by {
        assert(occurs_at(body, STACK_SCRIPT@, occ[x]));
    }
    lemma_starts_kept(body, b, o, occ, script, send);
    // the list header
    let first = starts[0];
    assert(first <= starts[k]);
    lemma_i32_frame(body, b, 0, o, first - 16);
    lemma_i32_frame(body, b, 0, o, first - 8);
    assert(body.subrange(first - 12, first - 8) =~= b.subrange(first - 12, first - 8));
    assert(body.subrange(first - 4, first) =~= b.subrange(first - 4, first));
    assert(spec_list_header(b, starts, send) == spec_list_header(body, starts, send));
    // the records
    lemma_stacks_rewritten(body, starts, list_end, cp, 0, k, count);
}

} // verus!
