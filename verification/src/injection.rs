//! The law of stack injection: the inventory read from a body after
//! [`crate::items::add_stack`] is the old one with the new stack in front.
use vstd::prelude::*;
use vstd::utf8::{
    encode_utf8, encode_utf8_decode_utf8, encode_utf8_valid_utf8, partial_valid_utf8,
    partial_valid_utf8_extend_ascii_block, valid_utf8, valid_utf8_concat,
};

use crate::bytes::{
    is_first_stop, lemma_first_stop_found, lstr_bytes, spec_read_i32, spec_read_lstr, spec_read_usize,
    spec_splice, spec_write_i32, stops, u32_le, Stop,
};
use crate::edit_laws::{
    apart, fields_before, lemma_read_same_bytes, grown_by_insertion, lemma_adjust_effect, lemma_insertion, lemma_write_effect,
};
use crate::elb::spec_adjust_i32;
use crate::error::ErrorModel;
use crate::items::{
    class_path_text, first_free_id, instance_text, spec_add_stack, spec_inventory, spec_item_class, spec_list_header, spec_stack, spec_stacks, InventoryModel, StackModel, spec_subsystem, stack_starts, ITEM_CLASS_PREFIX, ITEM_PATH_PREFIX,
    STACK_SCRIPT, SUBSYSTEM_SCRIPT, spec_clone_record, spec_parse_template, spans_ordered,
    spliced_record, stack_name_text, TemplateSpans, COUNT_PROP_V3, EMPTY_PROPS,
};
use crate::sav::ArchiveVersion;
use crate::text::spec_decode_strip_prefix;
use crate::search::{
    lemma_find_frame, lemma_find_is, lemma_find_some, lemma_occurrences_concat, occurrences, occurs_at,
    shifted, spec_find,
};

verus! {

/// Where the item class path `lstr` of a record cloned from a template with
/// spans `p` for stack id `id` starts.
pub open spec fn cloned_class_start(p: TemplateSpans, id: nat) -> int {
    p.class_path_start + lstr_bytes(stack_name_text(id + 1)).len() - p.stack_name_len
}

/// The record with the names spliced in holds the new class path's `lstr`
/// at [`cloned_class_start`] and keeps the template's first four bytes.
#[verifier::rlimit(30)]
proof fn lemma_spliced_facts(template: Seq<u8>, p: TemplateSpans, stem: Seq<u8>, id: nat)
    requires
        spans_ordered(p, template.len() as int),
        p.stack_name_start >= 4,
        p.s1_offset + 4 <= p.class_path_start,
    ensures
        ({
            let cp = lstr_bytes(class_path_text(stem));
            let t4 = spliced_record(
                template,
                p,
                cp,
                lstr_bytes(instance_text(stem, id)),
                lstr_bytes(stack_name_text(id + 1)),
            );
            let cs = cloned_class_start(p, id);
            &&& t4.subrange(0, 4) == template.subrange(0, 4)
            &&& 0 <= cs
            &&& cs + cp.len() <= t4.len()
            &&& t4.subrange(cs, cs + cp.len()) == cp
        }),
{
    let class_path = lstr_bytes(class_path_text(stem));
    let instance = lstr_bytes(instance_text(stem, id));
    let stack_name = lstr_bytes(stack_name_text(id + 1));
    let d_name = stack_name.len() - p.stack_name_len;
    let t1 = spec_splice(template, p.props_start, p.props_len, EMPTY_PROPS@);
    let t2 = spec_splice(t1, p.instance_name_start, p.instance_name_len, instance);
    let t3 = spec_splice(t2, p.class_path_start, p.class_path_len, class_path);
    let t4 = spec_splice(t3, p.stack_name_start, p.stack_name_len, stack_name);
    let cs = p.class_path_start + d_name;
    assert(t3.subrange(p.class_path_start, p.class_path_start + class_path.len()) =~= class_path);
    assert(t4.subrange(cs, cs + class_path.len()) =~= class_path);
    assert(t4.subrange(0, 4) =~= template.subrange(0, 4));
}

/// A cloned record keeps the template's first four bytes, finds its `Count`
/// header where the count was written and reads the count back there, and,
/// when that count lies before its class path, holds the new class path's
/// `lstr` at [`cloned_class_start`].
#[verifier::rlimit(40)]
proof fn lemma_clone_facts(template: Seq<u8>, p: TemplateSpans, stem: Seq<u8>, id: nat, count: i32)
    requires
        spans_ordered(p, template.len() as int),
        p.stack_name_start >= 4,
        p.s1_offset + 4 <= p.class_path_start,
        spec_clone_record(template, p, stem, id, count) is Ok,
    ensures
        ({
            let r = spec_clone_record(template, p, stem, id, count)->Ok_0;
            let cp = lstr_bytes(class_path_text(stem));
            let cs = cloned_class_start(p, id);
            &&& r.subrange(0, 4) == template.subrange(0, 4)
            &&& spec_find(r, COUNT_PROP_V3@) is Some
            &&& spec_read_i32(r, spec_find(r, COUNT_PROP_V3@)->Some_0 + 35) == Some(count as int)
            &&& spec_find(r, COUNT_PROP_V3@)->Some_0 + 39 <= cs ==> cs + cp.len() <= r.len()
                && r.subrange(cs, cs + cp.len()) == cp
        }),
{
    reveal(spec_clone_record);
    reveal(crate::items::patched_record);
    lemma_spliced_facts(template, p, stem, id);
    let class_path = lstr_bytes(class_path_text(stem));
    let instance = lstr_bytes(instance_text(stem, id));
    let stack_name = lstr_bytes(stack_name_text(id + 1));
    let d_name = stack_name.len() - p.stack_name_len;
    let d_class = class_path.len() - p.class_path_len;
    let d_instance = instance.len() - p.instance_name_len;
    let t4 = spliced_record(template, p, class_path, instance, stack_name);
    let cs = cloned_class_start(p, id);
    let s1 = p.s1_offset + d_name;
    let s2 = p.s2_offset + d_name;
    let s3 = p.s3_offset + d_name + d_class + d_instance;
    let d_inner = (EMPTY_PROPS@.len() - p.props_len) + d_class + d_instance;
    let b1 = spec_adjust_i32(t4, s1, d_inner)->Ok_0;
    let b2 = spec_adjust_i32(b1, s2, d_inner)->Ok_0;
    lemma_adjust_effect(t4, s1, d_inner);
    lemma_adjust_effect(b1, s2, d_inner);
    let b3 = spec_write_i32(b2, s3, EMPTY_PROPS@.len() as int);
    lemma_write_effect(b2, s3, EMPTY_PROPS@.len() as int);
    let at = spec_find(b3, COUNT_PROP_V3@)->Some_0;
    lemma_find_some(b3, COUNT_PROP_V3@);
    let r = spec_write_i32(b3, at + 35, count as int);
    assert(r == spec_clone_record(template, p, stem, id, count)->Ok_0);
    lemma_write_effect(b3, at + 35, count as int);
    assert forall|i: int| 0 <= i < at + 35 implies #[trigger] r[i] == b3[i] by {}
    lemma_find_frame(b3, r, COUNT_PROP_V3@, at);
    assert forall|i: int| 0 <= i < 4 implies #[trigger] r[i] == template[i] by {
        assert(t4[i] == t4.subrange(0, 4)[i]);
    }
    assert(r.subrange(0, 4) =~= template.subrange(0, 4));
    if at + 39 <= cs {
        assert forall|i: int| 0 <= i < class_path.len() implies #[trigger] r[cs + i] == class_path[i] by {
            assert(t4[cs + i] == t4.subrange(cs, cs + class_path.len())[i]);
        }
        assert(r.subrange(cs, cs + class_path.len()) =~= class_path);
    }
}

/// The first stack record of the body's inventory, which an injection
/// clones.
pub open spec fn injection_template(body: Seq<u8>) -> Seq<u8> {
    let t = spec_inventory(body, ArchiveVersion::V3)->Ok_0.stacks[0];
    body.subrange(t.record_start, t.record_end)
}

/// The stack id an injection into `body` uses.
pub open spec fn injection_id(body: Seq<u8>) -> nat {
    first_free_id(body, 0)->Some_0
}

/// The record an injection of `count` x `stem` into `body` inserts.
#[verifier::opaque]
pub open spec fn injected_record(body: Seq<u8>, stem: Seq<u8>, count: i32) -> Seq<u8> {
    let template = injection_template(body);
    spec_clone_record(
        template,
        spec_parse_template(template)->Some_0,
        stem,
        injection_id(body),
        count,
    )->Ok_0
}

/// Where the class path `lstr` of the injected record starts inside it.
#[verifier::opaque]
pub open spec fn injected_class_start(body: Seq<u8>) -> int {
    cloned_class_start(
        spec_parse_template(injection_template(body))->Some_0,
        injection_id(body),
    )
}

/// The template's `s1` size field ends before its item class path starts
/// (as in the record layout), so growing it leaves the new class path
/// alone.
pub open spec fn template_s1_before_class(body: Seq<u8>) -> bool {
    let p = spec_parse_template(injection_template(body))->Some_0;
    p.s1_offset + 4 <= p.class_path_start
}

/// An injection that succeeds inserts [`injected_record`] at the first
/// stack record and grows the four enclosing fields.
#[verifier::rlimit(30)]
pub(crate) proof fn lemma_injection_shape(body: Seq<u8>, stem: Seq<u8>, count: i32)
    requires
        spec_add_stack(body, ArchiveVersion::V3, stem, count) is Ok,
        ({
            let inv = spec_inventory(body, ArchiveVersion::V3)->Ok_0;
            fields_before(
                inv.first_record_start,
                inv.list_size_offset,
                inv.stack_count_offset,
                inv.subsystem_size_offset,
            )
        }),
    ensures
        ({
            let inv = spec_inventory(body, ArchiveVersion::V3)->Ok_0;
            let r = injected_record(body, stem, count);
            let first = inv.first_record_start;
            let cs = injected_class_start(body);
            let cp = lstr_bytes(class_path_text(stem));
            &&& spec_inventory(body, ArchiveVersion::V3) is Ok
            &&& inv.stacks.len() > 0
            &&& r.len() > 0
            &&& first + 4 <= body.len()
            &&& template_s1_before_class(body) ==> {
                &&& r.len() >= 4
                &&& r.subrange(0, 4) == body.subrange(first, first + 4)
                &&& spec_find(r, COUNT_PROP_V3@) is Some
                &&& spec_read_i32(r, spec_find(r, COUNT_PROP_V3@)->Some_0 + 35) == Some(count as int)
                &&& spec_find(r, COUNT_PROP_V3@)->Some_0 + 39 <= cs ==> 0 <= cs && cs + cp.len() <= r.len()
                    && r.subrange(cs, cs + cp.len()) == cp
            }
            &&& grown_by_insertion(
                body,
                spec_add_stack(body, ArchiveVersion::V3, stem, count)->Ok_0,
                first,
                r,
                inv.list_size_offset,
                inv.stack_count_offset,
                inv.subsystem_size_offset,
                1,
            )
        }),
{
    reveal(spec_add_stack);
    reveal(injected_record);
    reveal(injected_class_start);
    let inv = spec_inventory(body, ArchiveVersion::V3)->Ok_0;
    crate::items::lemma_inventory_first_record(body, ArchiveVersion::V3);
    let template = injection_template(body);
    let p = spec_parse_template(template)->Some_0;
    let id = injection_id(body);
    let record = injected_record(body, stem, count);
    crate::items::lemma_clone_record_nonempty(template, p, stem, id, count);
    crate::items::lemma_template_ordered(template);
    if p.s1_offset + 4 <= p.class_path_start {
        lemma_clone_facts(template, p, stem, id, count);
        lemma_spliced_facts(template, p, stem, id);
    }
    assert(template.subrange(0, 4) =~= body.subrange(inv.first_record_start, inv.first_record_start + 4));
    lemma_insertion(
        body,
        inv.first_record_start,
        record,
        inv.list_size_offset,
        inv.stack_count_offset,
        inv.subsystem_size_offset,
        1,
    );
}

/// Two sequences agree on the positions from `lo` up to `hi`, which lie
/// inside both.
pub open spec fn same_span(a: Seq<u8>, b: Seq<u8>, lo: int, hi: int) -> bool {
    &&& 0 <= lo <= hi
    &&& hi <= a.len()
    &&& hi <= b.len()
    &&& forall|i: int| lo <= i < hi ==> #[trigger] a[i] == b[i]
}

#[verifier::rlimit(30)]
proof fn lemma_read_i32_same(a: Seq<u8>, b: Seq<u8>, lo: int, hi: int, off: int)
    requires
        same_span(a, b, lo, hi),
        lo <= off,
        off + 4 <= hi,
    ensures
        spec_read_i32(a, off) == spec_read_i32(b, off),
{
    assert(a.subrange(off, off + 4) =~= b.subrange(off, off + 4));
    lemma_read_same_bytes(a, off, b, off);
}

#[verifier::rlimit(30)]
proof fn lemma_read_lstr_same(a: Seq<u8>, b: Seq<u8>, lo: int, hi: int, off: int)
    requires
        same_span(a, b, lo, hi),
        lo <= off,
        spec_read_lstr(a, off) matches Some((_, e)) && e <= hi,
    ensures
        spec_read_lstr(b, off) == spec_read_lstr(a, off),
{
    lemma_read_i32_same(a, b, lo, hi, off);
    let (_, e) = spec_read_lstr(a, off)->Some_0;
    assert(a.subrange(off + 4, e - 1) =~= b.subrange(off + 4, e - 1));
}

/// The subsystem header reads the same from the grown body, with its size
/// grown by the inserted length.
#[verifier::rlimit(30)]
proof fn lemma_subsystem_grown(body: Seq<u8>, out: Seq<u8>, first: int, r: Seq<u8>, ls: int, sc: int, so: int)
    requires
        grown_by_insertion(body, out, first, r, ls, sc, so, 1),
        fields_before(first, ls, sc, so),
        so + 4 <= ls,
        ls + 8 == sc,
        spec_subsystem(body) matches Ok((script, o, _)) && o == so && 4 <= script,
        forall|s: int| 0 <= s < 4 ==> !#[trigger] occurs_at(out, SUBSYSTEM_SCRIPT@, s),
    ensures
        spec_subsystem(out) == match spec_subsystem(body) {
            Ok((script, o, e)) => Ok::<(int, int, int), Seq<char>>((script, o, e + r.len())),
            Err(m) => Err(m),
        },
{
    let (script, _, send) = spec_subsystem(body)->Ok_0;
    let n = SUBSYSTEM_SCRIPT@;
    lemma_find_some(body, n);
    let (_, after_name) = spec_read_lstr(body, script + n.len())->Some_0;
    assert(after_name + 4 == so);
    assert(same_span(body, out, 4, so));
    assert(out.subrange(script, script + n.len()) =~= body.subrange(script, script + n.len()));
    assert forall|j: int| 0 <= j < script implies !#[trigger] occurs_at(out, n, j) by {
        if occurs_at(out, n, j) && j >= 4 {
            assert(out.subrange(j, j + n.len()) =~= body.subrange(j, j + n.len()));
            assert(occurs_at(body, n, j));
        }
    }
    lemma_find_is(out, n, script);
    lemma_read_lstr_same(body, out, 4, so, script + n.len());
    lemma_read_i32_same(body, out, 4, so, after_name);
}

#[verifier::rlimit(30)]
proof fn lemma_stack_script_bytes()
    ensures
        STACK_SCRIPT@.len() == 31,
        STACK_SCRIPT@[30] == 0,
        forall|j: int| 0 <= j < 30 ==> #[trigger] STACK_SCRIPT@[j] != 0 && STACK_SCRIPT@[j] != 31,
{
}

/// No stack script path covers a zero byte but with its last byte, nor a
/// byte 31 at all.
#[verifier::rlimit(30)]
proof fn lemma_no_script_over(h: Seq<u8>, z: int, s: int)
    requires
        0 <= z < h.len(),
        (h[z] == 0 && s <= z < s + 30) || (h[z] == 31 && s <= z < s + 31),
    ensures
        !occurs_at(h, STACK_SCRIPT@, s),
{
    lemma_stack_script_bytes();
    if occurs_at(h, STACK_SCRIPT@, s) {
        assert(h.subrange(s, s + 31)[z - s] == h[z]);
    }
}

/// The `i32` 31 is stored as the bytes 31, 0, 0, 0.
#[verifier::rlimit(30)]
proof fn lemma_length_31_bytes(h: Seq<u8>, off: int)
    requires
        spec_read_usize(h, off) == Some(31int),
    ensures
        h[off] == 31,
        h[off + 1] == 0,
        h[off + 2] == 0,
        h[off + 3] == 0,
{
    reveal(u32_le);
}

/// Stack-record starts of a concatenation of candidate lists.
#[verifier::rlimit(30)]
proof fn lemma_starts_concat(h: Seq<u8>, q1: Seq<int>, q2: Seq<int>, script: int, end: int)
    ensures
        stack_starts(h, q1 + q2, script, end) == stack_starts(h, q1, script, end) + stack_starts(
            h,
            q2,
            script,
            end,
        ),
    decreases q1.len(),
{
    if q1.len() == 0 {
        assert(q1 + q2 =~= q2);
        assert(Seq::<int>::empty() + stack_starts(h, q2, script, end) =~= stack_starts(h, q2, script, end));
    } else {
        assert((q1 + q2).drop_first() =~= q1.drop_first() + q2);
        assert((q1 + q2)[0] == q1[0]);
        lemma_starts_concat(h, q1.drop_first(), q2, script, end);
        let a = stack_starts(h, q1.drop_first(), script, end);
        let b = stack_starts(h, q2, script, end);
        assert(seq![q1[0] - 4] + (a + b) =~= (seq![q1[0] - 4] + a) + b);
    }
}

/// Candidates below `bound + 4` give starts below `bound`.
#[verifier::rlimit(30)]
proof fn lemma_starts_below(h: Seq<u8>, q: Seq<int>, script: int, end: int, bound: int)
    requires
        forall|x: int| 0 <= x < q.len() ==> #[trigger] q[x] < bound + 4,
    ensures
        forall|x: int| 0 <= x < stack_starts(h, q, script, end).len() ==> #[trigger] stack_starts(
            h,
            q,
            script,
            end,
        )[x] < bound,
    decreases q.len(),
{
    if q.len() > 0 {
        let tail = q.drop_first();
        assert forall|x: int| 0 <= x < tail.len() implies #[trigger] tail[x] < bound + 4 by {
            assert(tail[x] == q[x + 1]);
        }
        lemma_starts_below(h, tail, script, end, bound);
        let rest = stack_starts(h, tail, script, end);
        let ss = stack_starts(h, q, script, end);
        assert forall|x: int| 0 <= x < ss.len() implies #[trigger] ss[x] < bound by {
            if ss.len() > rest.len() && x > 0 {
                assert(ss[x] == rest[x - 1]);
            }
        }
    }
}

/// A stack script path and its length field lie apart from the size field
/// at `f`.
pub open spec fn clear_of(t: int, f: int) -> bool {
    t + 31 <= f || f + 8 <= t
}

/// Candidates before the insertion point whose length fields lie apart
/// from the grown size fields are tested alike in the grown body.
#[verifier::rlimit(30)]
proof fn lemma_starts_front(
    body: Seq<u8>,
    out: Seq<u8>,
    q: Seq<int>,
    script: int,
    send: int,
    n: int,
    first: int,
    fields: Seq<int>,
)
    requires
        0 <= n,
        first < send,
        first <= body.len(),
        first <= out.len(),
        forall|i: int|
            0 <= i < first && (forall|k: int| 0 <= k < fields.len() ==> !(#[trigger] fields[k] <= i < fields[k] + 4))
                ==> #[trigger] out[i] == body[i],
        forall|x: int| 0 <= x < q.len() ==> 0 <= #[trigger] q[x] && q[x] + 31 <= first,
        forall|x: int, k: int| 0 <= x < q.len() && 0 <= k < fields.len() ==> clear_of(#[trigger] q[x], #[trigger] fields[k]),
    ensures
        stack_starts(out, q, script, send + n) == stack_starts(body, q, script, send),
    decreases q.len(),
{
    if q.len() > 0 {
        let tail = q.drop_first();
        assert forall|x: int| 0 <= x < tail.len() implies 0 <= #[trigger] tail[x] && tail[x] + 31 <= first by {
            assert(tail[x] == q[x + 1]);
        }
        assert forall|x: int, k: int| 0 <= x < tail.len() && 0 <= k < fields.len() implies clear_of(#[trigger] tail[x], #[trigger] fields[k]) by {
            assert(tail[x] == q[x + 1]);
        }
        lemma_starts_front(body, out, tail, script, send, n, first, fields);
        let t = q[0];
        if t >= 4 {
            assert forall|i: int| t - 4 <= i < t implies #[trigger] out[i] == body[i] by {
                assert forall|k: int| 0 <= k < fields.len() implies !(#[trigger] fields[k] <= i < fields[k] + 4) by {
                    assert(clear_of(q[0], fields[k]));
                }
            }
            assert(out.subrange(t - 4, t) =~= body.subrange(t - 4, t));
            lemma_read_same_bytes(out, t - 4, body, t - 4);
        }
    }
}

/// Candidates after the insertion point are tested in the grown body as
/// in the old one, moved by the inserted length.
#[verifier::rlimit(30)]
proof fn lemma_starts_back(
    body: Seq<u8>,
    out: Seq<u8>,
    q: Seq<int>,
    script: int,
    send: int,
    n: int,
    first: int,
)
    requires
        script < first,
        0 <= first <= body.len(),
        out.len() == body.len() + n,
        0 <= n,
        forall|i: int| 0 <= i < body.len() - first ==> #[trigger] out[first + n + i] == body[first + i],
        forall|x: int| 0 <= x < q.len() ==> 4 <= #[trigger] q[x] && first + q[x] <= body.len(),
    ensures
        stack_starts(out, shifted(q, first + n), script, send + n) == shifted(
            stack_starts(body, shifted(q, first), script, send),
            n,
        ),
    decreases q.len(),
{
    if q.len() == 0 {
        assert(shifted(q, first + n) =~= Seq::<int>::empty());
        assert(shifted(q, first) =~= Seq::<int>::empty());
        assert(shifted(Seq::<int>::empty(), n) =~= Seq::<int>::empty());
    } else {
        let tail = q.drop_first();
        assert forall|x: int| 0 <= x < tail.len() implies 4 <= #[trigger] tail[x] && first + tail[x] <= body.len() by {
            assert(tail[x] == q[x + 1]);
        }
        lemma_starts_back(body, out, tail, script, send, n, first);
        assert(shifted(q, first + n).drop_first() =~= shifted(tail, first + n));
        assert(shifted(q, first).drop_first() =~= shifted(tail, first));
        let u = q[0];
        assert(shifted(q, first + n)[0] == first + n + u);
        assert(shifted(q, first)[0] == first + u);
        let t = first + u;
        let so = out.subrange(t + n - 4, t + n);
        let sb = body.subrange(t - 4, t);
        assert forall|k: int| 0 <= k < 4 implies #[trigger] so[k] == sb[k] by {
            assert(out[first + n + (u - 4 + k)] == body[first + (u - 4 + k)]);
        }
        assert(so =~= sb);
        lemma_read_same_bytes(out, t + n - 4, body, t - 4);
        let rest = stack_starts(body, shifted(tail, first), script, send);
        assert(shifted(seq![t - 4] + rest, n) =~= seq![t + n - 4] + shifted(rest, n));
    }
}

/// The stack-record starts of the grown body are the inserted record's,
/// then the old ones moved by the inserted length.
/// The stack script occurrences of the grown body: those before the
/// insertion point, the inserted record's, then the old ones after it,
/// moved.
#[verifier::rlimit(60)]
proof fn lemma_occurrences_grown(
    body: Seq<u8>,
    out: Seq<u8>,
    r: Seq<u8>,
    first: int,
    ls: int,
    sc: int,
    so: int,
)
    requires
        grown_by_insertion(body, out, first, r, ls, sc, so, 1),
        fields_before(first, ls, sc, so),
        ls + 16 == first,
        sc + 8 == first,
        so + 4 <= ls,
        first + 4 <= body.len(),
        body[first - 1] == 0,
        spec_read_usize(body, first) == Some(31int),
        occurrences(r, STACK_SCRIPT@) == seq![4int],
        forall|t: int|
            #![trigger occurs_at(body, STACK_SCRIPT@, t)]
            #![trigger occurs_at(out, STACK_SCRIPT@, t)]
            t < first && (occurs_at(body, STACK_SCRIPT@, t) || occurs_at(out, STACK_SCRIPT@, t)) ==> clear_of(t, 0)
                && clear_of(t, ls) && clear_of(t, sc) && clear_of(t, so),
    ensures
        ({
            let a = body.subrange(0, first);
            let b = body.subrange(first, body.len() as int);
            let n = r.len() as int;
            &&& occurrences(body, STACK_SCRIPT@) == occurrences(a, STACK_SCRIPT@) + shifted(
                occurrences(b, STACK_SCRIPT@),
                first,
            )
            &&& occurrences(out, STACK_SCRIPT@) == occurrences(a, STACK_SCRIPT@) + (seq![first + 4]
                + shifted(occurrences(b, STACK_SCRIPT@), first + n))
        }),
{
    let ss = STACK_SCRIPT@;
    let n = r.len() as int;
    lemma_stack_script_bytes();
    lemma_length_31_bytes(body, first);
    let a = body.subrange(0, first);
    let b = body.subrange(first, body.len() as int);
    assert(a + b =~= body);
    assert forall|s: int| a.len() - ss.len() < s < a.len() implies !#[trigger] occurs_at(a + b, ss, s) by {
        lemma_no_script_over(body, first - 1, s);
    }
    lemma_occurrences_concat(a, b, ss, 0);
    let a2 = out.subrange(0, first);
    let rb = out.subrange(first, out.len() as int);
    assert(a2 + rb =~= out);
    assert(out[first - 1] == 0);
    assert forall|s: int| a2.len() - ss.len() < s < a2.len() implies !#[trigger] occurs_at(a2 + rb, ss, s) by {
        lemma_no_script_over(out, first - 1, s);
    }
    lemma_occurrences_concat(a2, rb, ss, 0);
    assert(rb =~= r + b) by {
        assert(out.subrange(first, first + n) == r);
        assert(out.subrange(first + n, out.len() as int) == b);
    }
    assert(rb[n] == 31) by {
        assert(out.subrange(first + n, out.len() as int)[0] == b[0]);
    }
    assert forall|s: int| r.len() - ss.len() < s < r.len() implies !#[trigger] occurs_at(r + b, ss, s) by {
        lemma_no_script_over(r + b, n, s);
    }
    lemma_occurrences_concat(r, b, ss, 0);
    assert forall|i: int| #[trigger] occurs_at(a, ss, i) == occurs_at(a2, ss, i) by {
        if 0 <= i && i + 31 <= first {
            assert(a.subrange(i, i + 31) =~= body.subrange(i, i + 31));
            assert(a2.subrange(i, i + 31) =~= out.subrange(i, i + 31));
            if occurs_at(body, ss, i) || occurs_at(out, ss, i) {
                assert(body.subrange(i, i + 31) =~= out.subrange(i, i + 31));
            }
        }
    }
    crate::search::lemma_occurrences_same(a, a2, ss, 0);
    let occ_b = occurrences(b, ss);
    assert(shifted(seq![4int] + shifted(occ_b, n), first) =~= seq![first + 4] + shifted(occ_b, first + n));
}

/// The stack-record starts of the grown body are the inserted record's,
/// then the old ones moved by the inserted length.
#[verifier::rlimit(60)]
proof fn lemma_starts_grown(
    body: Seq<u8>,
    out: Seq<u8>,
    r: Seq<u8>,
    first: int,
    ls: int,
    sc: int,
    so: int,
    script: int,
    send: int,
)
    requires
        grown_by_insertion(body, out, first, r, ls, sc, so, 1),
        fields_before(first, ls, sc, so),
        ls + 16 == first,
        sc + 8 == first,
        so + 4 <= ls,
        script < first < send,
        first + 4 <= body.len(),
        body[first - 1] == 0,
        spec_read_usize(body, first) == Some(31int),
        r.len() >= 4,
        r.subrange(0, 4) == body.subrange(first, first + 4),
        occurrences(r, STACK_SCRIPT@) == seq![4int],
        stack_starts(body, occurrences(body, STACK_SCRIPT@), script, send).len() > 0,
        stack_starts(body, occurrences(body, STACK_SCRIPT@), script, send)[0] == first,
        forall|t: int|
            #![trigger occurs_at(body, STACK_SCRIPT@, t)]
            #![trigger occurs_at(out, STACK_SCRIPT@, t)]
            t < first && (occurs_at(body, STACK_SCRIPT@, t) || occurs_at(out, STACK_SCRIPT@, t)) ==> clear_of(t, 0)
                && clear_of(t, ls) && clear_of(t, sc) && clear_of(t, so),
    ensures
        stack_starts(out, occurrences(out, STACK_SCRIPT@), script, send + r.len()) == seq![first]
            + shifted(stack_starts(body, occurrences(body, STACK_SCRIPT@), script, send), r.len() as int),
{
    let ss = STACK_SCRIPT@;
    let n = r.len() as int;
    lemma_stack_script_bytes();
    lemma_occurrences_grown(body, out, r, first, ls, sc, so);
    let a = body.subrange(0, first);
    let b = body.subrange(first, body.len() as int);
    let occ_a = occurrences(a, ss);
    let occ_b = occurrences(b, ss);
    crate::search::lemma_occurrences_are_matches(a, ss, 0);
    crate::search::lemma_occurrences_are_matches(b, ss, 0);
    lemma_starts_concat(out, occ_a, seq![first + 4] + shifted(occ_b, first + n), script, send + n);
    lemma_starts_concat(out, seq![first + 4], shifted(occ_b, first + n), script, send + n);
    lemma_starts_concat(body, occ_a, shifted(occ_b, first), script, send);
    // before: no starts, in the old body or the grown one
    let fields = seq![0int, ls, sc, so];
    assert forall|x: int| 0 <= x < occ_a.len() implies 0 <= #[trigger] occ_a[x] && occ_a[x] + 31 <= first by {}
    assert forall|x: int, k: int| 0 <= x < occ_a.len() && 0 <= k < fields.len() implies clear_of(#[trigger] occ_a[x], #[trigger] fields[k]) by {
        assert(a.subrange(occ_a[x], occ_a[x] + 31) =~= body.subrange(occ_a[x], occ_a[x] + 31));
        assert(occurs_at(body, ss, occ_a[x]));
    }
    assert forall|i: int|
        0 <= i < first && (forall|k: int| 0 <= k < fields.len() ==> !(#[trigger] fields[k] <= i < fields[k] + 4))
            implies #[trigger] out[i] == body[i] by {
        assert(!(fields[0] <= i < fields[0] + 4));
        assert(!(fields[1] <= i < fields[1] + 4));
        assert(!(fields[2] <= i < fields[2] + 4));
        assert(!(fields[3] <= i < fields[3] + 4));
    }
    lemma_starts_front(body, out, occ_a, script, send, n, first, fields);
    lemma_starts_below(body, occ_a, script, send, first);
    let ss_a = stack_starts(body, occ_a, script, send);
    if ss_a.len() > 0 {
        assert(stack_starts(body, occurrences(body, ss), script, send)[0] == ss_a[0]);
    }
    assert(ss_a =~= Seq::<int>::empty());
    // the inserted record's start
    assert(out.subrange(first, first + 4) =~= body.subrange(first, first + 4)) by {
        assert(out.subrange(first, first + n).subrange(0, 4) =~= out.subrange(first, first + 4));
    }
    lemma_read_same_bytes(out, first, body, first);
    let one = seq![first + 4];
    assert(one[0] == first + 4);
    assert(one.drop_first() =~= Seq::<int>::empty());
    assert(spec_read_usize(out, first) == Some(31int));
    assert(stack_starts(out, one.drop_first(), script, send + n) =~= Seq::<int>::empty());
    assert(stack_starts(out, one, script, send + n) =~= seq![first]);
    // after: the old starts, moved
    assert forall|x: int| 0 <= x < occ_b.len() implies 4 <= #[trigger] occ_b[x] && first + occ_b[x] <= body.len() by {
        if occ_b[x] < 4 {
            lemma_length_31_bytes(body, first);
            assert(b[3] == body[first + 3]);
            lemma_no_script_over(b, 3, occ_b[x]);
        }
    }
    assert forall|i: int| 0 <= i < body.len() - first implies #[trigger] out[first + n + i] == body[first + i] by {
        assert(out.subrange(first + n, out.len() as int)[i] == b[i]);
    }
    lemma_starts_back(body, out, occ_b, script, send, n, first);
    let ss_b = stack_starts(body, shifted(occ_b, first), script, send);
    assert(Seq::<int>::empty() + ss_b =~= ss_b);
    assert(Seq::<int>::empty() + (seq![first] + shifted(ss_b, n)) =~= seq![first] + shifted(ss_b, n));
}

/// The item class read from a record whose first item path is the one in
/// the class path `lstr` at `cs` built for `stem` is the stem's text, when
/// the stem has no `.`.
#[verifier::rlimit(30)]
proof fn lemma_injected_item_class(r: Seq<u8>, cs: int, stem_text: Seq<char>)
    requires
        ({
            let stem = encode_utf8(stem_text);
            let cp = lstr_bytes(class_path_text(stem));
            &&& 0 <= cs
            &&& cs + cp.len() <= r.len()
            &&& r.subrange(cs, cs + cp.len()) == cp
            &&& spec_find(r, ITEM_PATH_PREFIX@) == Some(cs + 4)
            &&& forall|i: int| 0 <= i < stem.len() ==> #[trigger] stem[i] != 0x2e
        }),
    ensures
        spec_item_class(r) == Some(stem_text),
{
    let stem = encode_utf8(stem_text);
    let text = class_path_text(stem);
    let cp = lstr_bytes(text);
    let icp = ITEM_CLASS_PREFIX@;
    let tail = r.subrange(cs + 4 + 23, r.len() as int);
    let d: int = 8 + stem.len() as int;
    assert forall|k: int| 0 <= k < text.len() implies #[trigger] r[cs + 4 + k] == text[k] by {
        assert(r.subrange(cs, cs + cp.len())[4 + k] == cp[4 + k]);
    }
    assert forall|k: int| 0 <= k < 8 implies #[trigger] tail[k] == icp[k] by {
        assert(r[cs + 4 + (23 + k)] == text[23 + k]);
    }
    assert forall|k: int| 0 <= k < stem.len() implies #[trigger] tail[8 + k] == stem[k] by {
        assert(r[cs + 4 + (31 + k)] == text[31 + k]);
    }
    assert(tail[d] == 0x2e) by {
        assert(r[cs + 4 + (31 + stem.len())] == text[31 + stem.len() as int]);
    }
    assert(is_first_stop(tail, Stop::Dot, d)) by {
        assert forall|k: int| 0 <= k < d implies !stops(#[trigger] tail[k], Stop::Dot) by {
            if k < 8 {
                assert(tail[k] == icp[k]);
            } else {
                assert(tail[8 + (k - 8)] == stem[k - 8]);
            }
        }
    }
    lemma_first_stop_found(tail, Stop::Dot, d);
    let word = tail.subrange(0, d);
    assert(word =~= icp + stem) by {
        assert forall|k: int| 0 <= k < d implies #[trigger] word[k] == (icp + stem)[k] by {
            if k >= 8 {
                assert(tail[8 + (k - 8)] == stem[k - 8]);
            }
        }
    }
    reveal(spec_decode_strip_prefix);
    assert(valid_utf8(icp)) by {
        assert(partial_valid_utf8(icp, 0)) by {
            assert(icp.subrange(0, 0) =~= Seq::<u8>::empty());
        }
        partial_valid_utf8_extend_ascii_block(icp, 0, 8);
        assert(icp.subrange(0, 8) =~= icp);
    }
    encode_utf8_valid_utf8(stem_text);
    valid_utf8_concat(icp, stem);
    assert((icp + stem).subrange(0, 8) =~= icp);
    assert((icp + stem).subrange(8, (icp + stem).len() as int) =~= stem);
    encode_utf8_decode_utf8(stem_text);
}

/// The list header reads the same from the grown body, with the list
/// grown by the inserted length and one more record.
#[verifier::rlimit(30)]
proof fn lemma_header_grown(
    body: Seq<u8>,
    out: Seq<u8>,
    r: Seq<u8>,
    starts: Seq<int>,
    starts2: Seq<int>,
    send: int,
    ls: int,
    sc: int,
    so: int,
)
    requires
        grown_by_insertion(body, out, starts[0], r, ls, sc, so, 1),
        fields_before(starts[0], ls, sc, so),
        so + 4 <= ls,
        starts.len() > 0,
        starts[0] <= body.len(),
        starts2.len() == starts.len() + 1,
        starts2[0] == starts[0],
        spec_list_header(body, starts, send) matches Ok((a, b, _)) && a == ls && b == sc,
    ensures
        spec_list_header(out, starts2, send + r.len()) == match spec_list_header(body, starts, send) {
            Ok((a, b, e)) => Ok::<(int, int, int), Seq<char>>((a, b, e + r.len())),
            Err(m) => Err(m),
        },
{
    let first = starts[0];
    assert(ls == first - 16 && sc == first - 8);
    assert(out.subrange(first - 12, first - 8) =~= body.subrange(first - 12, first - 8));
    assert(out.subrange(first - 4, first) =~= body.subrange(first - 4, first));
}

/// `m` moved right by `d` bytes.
pub open spec fn shifted_stack(m: StackModel, d: int) -> StackModel {
    StackModel {
        item: m.item,
        count: m.count,
        record_start: m.record_start + d,
        record_end: m.record_end + d,
        count_offset: m.count_offset + d,
    }
}

/// The old stacks read from the grown body at their moved starts are the
/// old ones, moved.
#[verifier::rlimit(30)]
proof fn lemma_stacks_shifted(
    body: Seq<u8>,
    out: Seq<u8>,
    starts: Seq<int>,
    list_end: int,
    n: int,
    first: int,
    i: int,
)
    requires
        0 <= i <= starts.len(),
        0 <= first,
        0 <= n,
        forall|x: int| 0 <= x < starts.len() ==> first <= #[trigger] starts[x],
        spec_stacks(body, starts, list_end, COUNT_PROP_V3@, i) is Ok,
        out.len() == body.len() + n,
        forall|k: int| 0 <= k < body.len() - first ==> #[trigger] out[first + n + k] == body[first + k],
    ensures
        spec_stacks(out, seq![first] + shifted(starts, n), list_end + n, COUNT_PROP_V3@, i + 1)
            == Ok::<Seq<StackModel>, Seq<char>>(
            spec_stacks(body, starts, list_end, COUNT_PROP_V3@, i)->Ok_0.map_values(
                |m: StackModel| shifted_stack(m, n),
            ),
        ),
    decreases starts.len() - i,
{
    let cp = COUNT_PROP_V3@;
    let starts2 = seq![first] + shifted(starts, n);
    let f = |m: StackModel| shifted_stack(m, n);
    if i == starts.len() {
        assert(spec_stacks(body, starts, list_end, cp, i)->Ok_0.map_values(f) =~= Seq::<StackModel>::empty());
    } else {
        lemma_stacks_shifted(body, out, starts, list_end, n, first, i + 1);
        let m = spec_stack(body, starts, i, list_end, cp)->Ok_0;
        crate::reparse::lemma_stack_bounds(body, starts, i, list_end, cp);
        assert(starts2[i + 1] == starts[i] + n);
        if i + 1 < starts.len() {
            assert(starts2[i + 2] == starts[i + 1] + n);
        }
        let s0 = m.record_start;
        let e0 = m.record_end;
        assert forall|k: int| 0 <= k < e0 - s0 implies #[trigger] out.subrange(s0 + n, e0 + n)[k]
            == body.subrange(s0, e0)[k] by {
            assert(out[first + n + (s0 - first + k)] == body[first + (s0 - first + k)]);
        }
        assert(out.subrange(s0 + n, e0 + n) =~= body.subrange(s0, e0));
        let c = m.count_offset;
        assert forall|k: int| 0 <= k < 4 implies #[trigger] out.subrange(c + n, c + n + 4)[k]
            == body.subrange(c, c + 4)[k] by {
            assert(out[first + n + (c - first + k)] == body[first + (c - first + k)]);
        }
        assert(out.subrange(c + n, c + n + 4) =~= body.subrange(c, c + 4));
        lemma_read_same_bytes(out, c + n, body, c);
        assert(spec_stack(out, starts2, i + 1, list_end + n, cp) == Ok::<StackModel, Seq<char>>(f(m)));
        let rest = spec_stacks(body, starts, list_end, cp, i + 1)->Ok_0;
        assert((seq![m] + rest).map_values(f) =~= seq![f(m)] + rest.map_values(f));
    }
}

/// Every stack-record start passes the test that selected it.
#[verifier::rlimit(30)]
proof fn lemma_starts_pass(h: Seq<u8>, q: Seq<int>, script: int, end: int)
    ensures
        forall|x: int|
            0 <= x < stack_starts(h, q, script, end).len() ==> {
                let st = #[trigger] stack_starts(h, q, script, end)[x];
                &&& spec_read_usize(h, st) == Some(31int)
                &&& script < st < end
            },
    decreases q.len(),
{
    if q.len() > 0 {
        lemma_starts_pass(h, q.drop_first(), script, end);
        let rest = stack_starts(h, q.drop_first(), script, end);
        let ss = stack_starts(h, q, script, end);
        assert forall|x: int| 0 <= x < ss.len() implies {
            let st = #[trigger] ss[x];
            &&& spec_read_usize(h, st) == Some(31int)
            &&& script < st < end
        } by {
            if ss.len() > rest.len() && x > 0 {
                assert(ss[x] == rest[x - 1]);
            }
        }
    }
}

/// The injected record reads as a stack of the given item and count.
#[verifier::rlimit(30)]
proof fn lemma_injected_stack(
    out: Seq<u8>,
    starts2: Seq<int>,
    r: Seq<u8>,
    first: int,
    list_end: int,
    cs: int,
    stem_text: Seq<char>,
    count: i32,
)
    requires
        starts2.len() >= 2,
        starts2[0] == first,
        starts2[1] == first + r.len(),
        0 <= first,
        first + r.len() <= out.len(),
        out.subrange(first, first + r.len() as int) == r,
        spec_find(r, COUNT_PROP_V3@) is Some,
        spec_read_i32(r, spec_find(r, COUNT_PROP_V3@)->Some_0 + 35) == Some(count as int),
        ({
            let stem = encode_utf8(stem_text);
            let cp = lstr_bytes(class_path_text(stem));
            &&& 0 <= cs
            &&& cs + cp.len() <= r.len()
            &&& r.subrange(cs, cs + cp.len()) == cp
            &&& spec_find(r, ITEM_PATH_PREFIX@) == Some(cs + 4)
            &&& forall|i: int| 0 <= i < stem.len() ==> #[trigger] stem[i] != 0x2e
        }),
    ensures
        spec_stack(out, starts2, 0, list_end, COUNT_PROP_V3@) == Ok::<StackModel, Seq<char>>(
            StackModel {
                item: stem_text,
                count,
                record_start: first,
                record_end: first + r.len(),
                count_offset: first + spec_find(r, COUNT_PROP_V3@)->Some_0 + 35,
            },
        ),
{
    lemma_injected_item_class(r, cs, stem_text);
    let at = spec_find(r, COUNT_PROP_V3@)->Some_0;
    lemma_find_some(r, COUNT_PROP_V3@);
    assert(r.subrange(at + 35, at + 39) =~= out.subrange(first + at + 35, first + at + 39));
    lemma_read_same_bytes(r, at + 35, out, first + at + 35);
}

#[verifier::rlimit(30)]
proof fn lemma_add_stack_inventory(body: Seq<u8>, stem: Seq<u8>, count: i32)
    requires
        spec_add_stack(body, ArchiveVersion::V3, stem, count) is Ok,
    ensures
        spec_inventory(body, ArchiveVersion::V3) is Ok,
{
    reveal(spec_add_stack);
}

/// The parts an inventory of archive v3 is read from.
#[verifier::rlimit(30)]
pub(crate) proof fn lemma_inventory_parts(body: Seq<u8>)
    requires
        spec_inventory(body, ArchiveVersion::V3) is Ok,
    ensures
        ({
            let inv = spec_inventory(body, ArchiveVersion::V3)->Ok_0;
            &&& spec_subsystem(body) is Ok
            &&& ({
                let (script, so, send) = spec_subsystem(body)->Ok_0;
                let starts = stack_starts(body, occurrences(body, STACK_SCRIPT@), script, send);
                &&& starts.len() > 0
                &&& spec_list_header(body, starts, send) is Ok
                &&& ({
                    let (ls, sc, list_end) = spec_list_header(body, starts, send)->Ok_0;
                    &&& spec_stacks(body, starts, list_end, COUNT_PROP_V3@, 0) is Ok
                    &&& inv.stacks == spec_stacks(body, starts, list_end, COUNT_PROP_V3@, 0)->Ok_0
                    &&& inv.list_size_offset == ls
                    &&& inv.stack_count_offset == sc
                    &&& inv.subsystem_size_offset == so
                    &&& inv.first_record_start == starts[0]
                    &&& ls + 16 == starts[0]
                    &&& sc + 8 == starts[0]
                    &&& body.subrange(starts[0] - 4, starts[0]) == crate::items::ZERO_I32@
                })
            })
        }),
{
    reveal(spec_inventory);
}

/// An inventory of archive v3 put together from its parts.
#[verifier::rlimit(30)]
proof fn lemma_inventory_whole(
    body: Seq<u8>,
    script: int,
    so: int,
    send: int,
    starts: Seq<int>,
    ls: int,
    sc: int,
    list_end: int,
    stacks: Seq<StackModel>,
)
    requires
        spec_subsystem(body) == Ok::<(int, int, int), Seq<char>>((script, so, send)),
        stack_starts(body, occurrences(body, STACK_SCRIPT@), script, send) == starts,
        starts.len() > 0,
        spec_list_header(body, starts, send) == Ok::<(int, int, int), Seq<char>>((ls, sc, list_end)),
        spec_stacks(body, starts, list_end, COUNT_PROP_V3@, 0) == Ok::<Seq<StackModel>, Seq<char>>(stacks),
    ensures
        spec_inventory(body, ArchiveVersion::V3) == Ok::<InventoryModel, ErrorModel>(
            InventoryModel {
                stacks,
                list_size_offset: ls,
                stack_count_offset: sc,
                subsystem_size_offset: so,
                first_record_start: starts[0],
            },
        ),
{
    reveal(spec_inventory);
}

/// Injecting a stack and reading the inventory of the result again gives
/// the old inventory with one more stack in front: the injected one, of
/// the given item and count, in the inserted record; every old stack
/// follows with its item and count, its offsets moved by the record's
/// length; the header offsets stay.
///
/// This holds when what the inventory is read from is apart from what the
/// injection writes, as in the record layout: the template record's `s1`
/// size field ends before its class path; the subsystem record's
/// header lies after the body size field and before the list header; no
/// subsystem script path starts in the rewritten body size field; no stack
/// script path before the list, nor its length field, overlaps a grown
/// size field; the cloned record holds the stack script path only at its
/// own start, its `Count` value before its class path and no item path
/// before the one in its class path; and the item's name has no `.`.
#[verifier::rlimit(60)]
pub proof fn lemma_add_stack_reads_back(body: Seq<u8>, stem_text: Seq<char>, count: i32)
    requires
        spec_add_stack(body, ArchiveVersion::V3, encode_utf8(stem_text), count) is Ok,
        ({
            let stem = encode_utf8(stem_text);
            let inv = spec_inventory(body, ArchiveVersion::V3)->Ok_0;
            let out = spec_add_stack(body, ArchiveVersion::V3, stem, count)->Ok_0;
            let r = injected_record(body, stem, count);
            let cs = injected_class_start(body);
            let first = inv.first_record_start;
            let (ls, sc, so) = (inv.list_size_offset, inv.stack_count_offset, inv.subsystem_size_offset);
            &&& template_s1_before_class(body)
            &&& so + 4 <= ls
            &&& 4 <= spec_subsystem(body)->Ok_0.0
            &&& forall|s: int| 0 <= s < 4 ==> !#[trigger] occurs_at(out, SUBSYSTEM_SCRIPT@, s)
            &&& forall|t: int|
                #![trigger occurs_at(body, STACK_SCRIPT@, t)]
                #![trigger occurs_at(out, STACK_SCRIPT@, t)]
                t < first && (occurs_at(body, STACK_SCRIPT@, t) || occurs_at(out, STACK_SCRIPT@, t))
                    ==> clear_of(t, 0) && clear_of(t, ls) && clear_of(t, sc) && clear_of(t, so)
            &&& occurrences(r, STACK_SCRIPT@) == seq![4int]
            &&& spec_find(r, COUNT_PROP_V3@)->Some_0 + 39 <= cs
            &&& spec_find(r, ITEM_PATH_PREFIX@) == Some(cs + 4)
            &&& forall|i: int| 0 <= i < stem.len() ==> #[trigger] stem[i] != 0x2e
        }),
    ensures
        ({
            let stem = encode_utf8(stem_text);
            let inv = spec_inventory(body, ArchiveVersion::V3)->Ok_0;
            let out = spec_add_stack(body, ArchiveVersion::V3, stem, count)->Ok_0;
            let r = injected_record(body, stem, count);
            let first = inv.first_record_start;
            let n = r.len() as int;
            let injected = StackModel {
                item: stem_text,
                count,
                record_start: first,
                record_end: first + n,
                count_offset: first + spec_find(r, COUNT_PROP_V3@)->Some_0 + 35,
            };
            spec_inventory(out, ArchiveVersion::V3) == Ok::<InventoryModel, ErrorModel>(
                InventoryModel {
                    stacks: seq![injected] + inv.stacks.map_values(|m: StackModel| shifted_stack(m, n)),
                    list_size_offset: inv.list_size_offset,
                    stack_count_offset: inv.stack_count_offset,
                    subsystem_size_offset: inv.subsystem_size_offset,
                    first_record_start: first,
                },
            )
        }),
{
    let stem = encode_utf8(stem_text);
    let v3 = ArchiveVersion::V3;
    let inv = spec_inventory(body, v3)->Ok_0;
    let out = spec_add_stack(body, v3, stem, count)->Ok_0;
    let r = injected_record(body, stem, count);
    let cs = injected_class_start(body);
    let n = r.len() as int;
    let cp = COUNT_PROP_V3@;
    lemma_add_stack_inventory(body, stem, count);
    lemma_inventory_parts(body);
    let (script, so, send) = spec_subsystem(body)->Ok_0;
    let occ = occurrences(body, STACK_SCRIPT@);
    let starts = stack_starts(body, occ, script, send);
    let (ls, sc, list_end) = spec_list_header(body, starts, send)->Ok_0;
    let first = starts[0];
    lemma_starts_pass(body, occ, script, send);
    crate::search::lemma_occurrences_are_matches(body, STACK_SCRIPT@, 0);
    crate::items::lemma_occurrences_increasing(body, STACK_SCRIPT@, 0);
    crate::reparse::lemma_starts_shape(body, occ, script, send);
    lemma_find_some(body, SUBSYSTEM_SCRIPT@);
    assert(fields_before(first, ls, sc, so));
    lemma_injection_shape(body, stem, count);
    // the facts about the body the pieces use
    assert(body[first - 1] == 0) by {
        assert(body.subrange(first - 4, first)[3] == body[first - 1]);
    }
    // the subsystem, the starts and the header
    lemma_subsystem_grown(body, out, first, r, ls, sc, so);
    lemma_starts_grown(body, out, r, first, ls, sc, so, script, send);
    let starts2 = seq![first] + shifted(starts, n);
    assert(stack_starts(out, occurrences(out, STACK_SCRIPT@), script, send + n) == starts2);
    lemma_header_grown(body, out, r, starts, starts2, send, ls, sc, so);
    // the stacks: the injected one, then the old ones moved
    assert forall|x: int| 0 <= x < starts.len() implies first <= #[trigger] starts[x] by {
        if x > 0 {
            assert(starts[0] < starts[x]);
        }
    }
    assert forall|k: int| 0 <= k < body.len() - first implies #[trigger] out[first + n + k] == body[first + k] by {
        assert(out.subrange(first + n, out.len() as int)[k] == body.subrange(first, body.len() as int)[k]);
    }
    lemma_stacks_shifted(body, out, starts, list_end, n, first, 0);
    assert(starts2[1] == first + n);
    assert(out.subrange(first, first + n) == r);
    lemma_injected_stack(out, starts2, r, first, list_end + n, cs, stem_text, count);
    let at = spec_find(r, cp)->Some_0;
    let injected = StackModel {
        item: stem_text,
        count,
        record_start: first,
        record_end: first + n,
        count_offset: first + at + 35,
    };
    let old_stacks = spec_stacks(body, starts, list_end, cp, 0)->Ok_0;
    let moved = old_stacks.map_values(|m: StackModel| shifted_stack(m, n));
    assert(spec_stacks(out, starts2, list_end + n, cp, 0) == Ok::<Seq<StackModel>, Seq<char>>(
        seq![injected] + moved,
    ));
    lemma_inventory_whole(out, script, so, send + n, starts2, ls, sc, list_end + n, seq![injected] + moved);
    assert(spec_stack(out, starts2, 0, list_end + n, cp) == Ok::<StackModel, Seq<char>>(injected));
}

/// The record with the names spliced in holds the template's inner size
/// fields `s1` and `s2`, moved by the stack name's change in length.
#[verifier::rlimit(60)]
proof fn lemma_spliced_sizes(template: Seq<u8>, p: TemplateSpans, stem: Seq<u8>, id: nat)
    requires
        spans_ordered(p, template.len() as int),
        p.s1_offset + 4 <= p.s2_offset,
    ensures
        ({
            let t4 = spliced_record(
                template,
                p,
                lstr_bytes(class_path_text(stem)),
                lstr_bytes(instance_text(stem, id)),
                lstr_bytes(stack_name_text(id + 1)),
            );
            let d_name = lstr_bytes(stack_name_text(id + 1)).len() - p.stack_name_len;
            &&& spec_read_i32(template, p.s1_offset) is Some
            &&& spec_read_i32(template, p.s2_offset) is Some
            &&& spec_read_i32(t4, p.s1_offset + d_name) == spec_read_i32(template, p.s1_offset)
            &&& spec_read_i32(t4, p.s2_offset + d_name) == spec_read_i32(template, p.s2_offset)
        }),
{
    let class_path = lstr_bytes(class_path_text(stem));
    let instance = lstr_bytes(instance_text(stem, id));
    let stack_name = lstr_bytes(stack_name_text(id + 1));
    let d_name = stack_name.len() - p.stack_name_len;
    let t3 = crate::items::class_spliced(template, p, class_path, instance);
    let t4 = spliced_record(template, p, class_path, instance, stack_name);
    let s1 = p.s1_offset + d_name;
    let s2 = p.s2_offset + d_name;
    let cs = p.class_path_start;
    assert forall|i: int| 0 <= i < cs implies #[trigger] t3[i] == template[i] by {}
    assert(t4 == spec_splice(t3, p.stack_name_start, p.stack_name_len, stack_name));
    assert forall|k: int| 0 <= k < 4 implies #[trigger] t4.subrange(s1, s1 + 4)[k] == template.subrange(
        p.s1_offset,
        p.s1_offset + 4,
    )[k] by {
        assert(t4[s1 + k] == t3[p.s1_offset + k]);
    }
    assert(t4.subrange(s1, s1 + 4) =~= template.subrange(p.s1_offset, p.s1_offset + 4));
    assert forall|k: int| 0 <= k < 4 implies #[trigger] t4.subrange(s2, s2 + 4)[k] == template.subrange(
        p.s2_offset,
        p.s2_offset + 4,
    )[k] by {
        assert(t4[s2 + k] == t3[p.s2_offset + k]);
    }
    assert(t4.subrange(s2, s2 + 4) =~= template.subrange(p.s2_offset, p.s2_offset + 4));
    lemma_read_same_bytes(t4, s1, template, p.s1_offset);
    lemma_read_same_bytes(t4, s2, template, p.s2_offset);
}

/// Patching a spliced record grows its fields at `s1` and `s2` by
/// `d_inner`, when they do not overlap each other, the `s3` field or the
/// written count.
#[verifier::rlimit(60)]
proof fn lemma_patched_sizes(t4: Seq<u8>, s1: int, s2: int, s3: int, d_inner: int, count: i32)
    requires
        crate::items::patched_record(t4, s1, s2, s3, d_inner, count) is Ok,
        s1 + 4 <= s2,
        s2 + 4 <= s3,
        spec_read_i32(t4, s1) is Some,
        spec_read_i32(t4, s2) is Some,
        ({
            let r = crate::items::patched_record(t4, s1, s2, s3, d_inner, count)->Ok_0;
            let at = spec_find(r, COUNT_PROP_V3@)->Some_0 + 35;
            &&& spec_find(r, COUNT_PROP_V3@) is Some
            &&& apart(at, s1)
            &&& apart(at, s2)
        }),
    ensures
        ({
            let r = crate::items::patched_record(t4, s1, s2, s3, d_inner, count)->Ok_0;
            &&& spec_read_i32(r, s1) == Some(spec_read_i32(t4, s1)->Some_0 + d_inner)
            &&& spec_read_i32(r, s2) == Some(spec_read_i32(t4, s2)->Some_0 + d_inner)
        }),
{
    reveal(crate::items::patched_record);
    let r = crate::items::patched_record(t4, s1, s2, s3, d_inner, count)->Ok_0;
    let b1 = spec_adjust_i32(t4, s1, d_inner)->Ok_0;
    lemma_adjust_effect(t4, s1, d_inner);
    crate::edit_laws::lemma_read_kept(t4, b1, s1, s2);
    let b2 = spec_adjust_i32(b1, s2, d_inner)->Ok_0;
    lemma_adjust_effect(b1, s2, d_inner);
    crate::edit_laws::lemma_read_kept(b1, b2, s2, s1);
    let b3 = spec_write_i32(b2, s3, EMPTY_PROPS@.len() as int);
    lemma_write_effect(b2, s3, EMPTY_PROPS@.len() as int);
    crate::edit_laws::lemma_read_kept(b2, b3, s3, s1);
    crate::edit_laws::lemma_read_kept(b2, b3, s3, s2);
    let at = spec_find(b3, COUNT_PROP_V3@)->Some_0;
    assert(r == spec_write_i32(b3, at + 35, count as int));
    lemma_find_some(b3, COUNT_PROP_V3@);
    lemma_write_effect(b3, at + 35, count as int);
    assert forall|i: int| 0 <= i < at + 35 implies #[trigger] r[i] == b3[i] by {}
    lemma_find_frame(b3, r, COUNT_PROP_V3@, at);
    crate::edit_laws::lemma_read_kept(b3, r, at + 35, s1);
    crate::edit_laws::lemma_read_kept(b3, r, at + 35, s2);
}

/// The two inner size fields of a cloned record, `s1` and `s2` moved by
/// the stack name's change in length, each hold the template's value grown
/// by the change in length of the embedded object: the new class path and
/// instance name against the old ones, and the emptied property list
/// against the old one.
///
/// This holds when `s1` ends before `s2` starts, as in the record layout,
/// and the written count lies apart from both fields.
#[verifier::rlimit(60)]
pub proof fn lemma_clone_inner_sizes(template: Seq<u8>, p: TemplateSpans, stem: Seq<u8>, id: nat, count: i32)
    requires
        spans_ordered(p, template.len() as int),
        p.s1_offset + 4 <= p.s2_offset,
        spec_clone_record(template, p, stem, id, count) is Ok,
        ({
            let r = spec_clone_record(template, p, stem, id, count)->Ok_0;
            let d_name = lstr_bytes(stack_name_text(id + 1)).len() - p.stack_name_len;
            let at = spec_find(r, COUNT_PROP_V3@)->Some_0 + 35;
            &&& spec_find(r, COUNT_PROP_V3@) is Some
            &&& apart(at, p.s1_offset + d_name)
            &&& apart(at, p.s2_offset + d_name)
        }),
    ensures
        ({
            let r = spec_clone_record(template, p, stem, id, count)->Ok_0;
            let d_name = lstr_bytes(stack_name_text(id + 1)).len() - p.stack_name_len;
            let d_inner = (EMPTY_PROPS@.len() - p.props_len) + (lstr_bytes(class_path_text(stem)).len()
                - p.class_path_len) + (lstr_bytes(instance_text(stem, id)).len() - p.instance_name_len);
            &&& spec_read_i32(template, p.s1_offset) is Some
            &&& spec_read_i32(template, p.s2_offset) is Some
            &&& spec_read_i32(r, p.s1_offset + d_name) == Some(
                spec_read_i32(template, p.s1_offset)->Some_0 + d_inner,
            )
            &&& spec_read_i32(r, p.s2_offset + d_name) == Some(
                spec_read_i32(template, p.s2_offset)->Some_0 + d_inner,
            )
        }),
{
    let class_path = lstr_bytes(class_path_text(stem));
    let instance = lstr_bytes(instance_text(stem, id));
    let stack_name = lstr_bytes(stack_name_text(id + 1));
    let d_name = stack_name.len() - p.stack_name_len;
    let d_class = class_path.len() - p.class_path_len;
    let d_instance = instance.len() - p.instance_name_len;
    let d_inner = (EMPTY_PROPS@.len() - p.props_len) + d_class + d_instance;
    let t4 = spliced_record(template, p, class_path, instance, stack_name);
    let s1 = p.s1_offset + d_name;
    let s2 = p.s2_offset + d_name;
    let s3 = p.s3_offset + d_name + d_class + d_instance;
    lemma_spliced_sizes(template, p, stem, id);
    if p.stack_name_start + p.stack_name_len > crate::items::class_spliced(template, p, class_path, instance).len() {
        crate::items::lemma_clone_spec_range(template, p, stem, id, count);
    }
    crate::items::lemma_clone_spec_patched(template, p, stem, id, count, class_path, instance, stack_name);
    lemma_patched_sizes(t4, s1, s2, s3, d_inner, count);
}

/// The record that injecting a stack inserts at the first stack record
/// holds, at the template's `s1` and `s2` offsets moved by the stack
/// name's change in length, the template's inner sizes grown by the
/// change in length of the embedded object (new class path and instance
/// name, emptied property list), as [`lemma_clone_inner_sizes`] states.
///
/// This holds under the conditions of that law and when the four grown
/// size fields lie before the first stack record and do not overlap.
#[verifier::rlimit(60)]
pub proof fn lemma_add_stack_inner_sizes(body: Seq<u8>, stem: Seq<u8>, count: i32)
    requires
        spec_add_stack(body, ArchiveVersion::V3, stem, count) is Ok,
        ({
            let inv = spec_inventory(body, ArchiveVersion::V3)->Ok_0;
            let template = injection_template(body);
            let p = spec_parse_template(template)->Some_0;
            let r = injected_record(body, stem, count);
            let d_name = lstr_bytes(stack_name_text(injection_id(body) + 1)).len() - p.stack_name_len;
            let at = spec_find(r, COUNT_PROP_V3@)->Some_0 + 35;
            &&& fields_before(
                inv.first_record_start,
                inv.list_size_offset,
                inv.stack_count_offset,
                inv.subsystem_size_offset,
            )
            &&& p.s1_offset + 4 <= p.s2_offset
            &&& spec_find(r, COUNT_PROP_V3@) is Some
            &&& apart(at, p.s1_offset + d_name)
            &&& apart(at, p.s2_offset + d_name)
        }),
    ensures
        ({
            let inv = spec_inventory(body, ArchiveVersion::V3)->Ok_0;
            let out = spec_add_stack(body, ArchiveVersion::V3, stem, count)->Ok_0;
            let template = injection_template(body);
            let p = spec_parse_template(template)->Some_0;
            let id = injection_id(body);
            let d_name = lstr_bytes(stack_name_text(id + 1)).len() - p.stack_name_len;
            let d_inner = (EMPTY_PROPS@.len() - p.props_len) + (lstr_bytes(class_path_text(stem)).len()
                - p.class_path_len) + (lstr_bytes(instance_text(stem, id)).len() - p.instance_name_len);
            let first = inv.first_record_start;
            &&& spec_read_i32(out, first + p.s1_offset + d_name) == Some(
                spec_read_i32(template, p.s1_offset)->Some_0 + d_inner,
            )
            &&& spec_read_i32(out, first + p.s2_offset + d_name) == Some(
                spec_read_i32(template, p.s2_offset)->Some_0 + d_inner,
            )
        }),
{
    let inv = spec_inventory(body, ArchiveVersion::V3)->Ok_0;
    let out = spec_add_stack(body, ArchiveVersion::V3, stem, count)->Ok_0;
    let template = injection_template(body);
    let p = spec_parse_template(template)->Some_0;
    let id = injection_id(body);
    let first = inv.first_record_start;
    lemma_injection_shape(body, stem, count);
    let r = injected_record(body, stem, count);
    assert(r == spec_clone_record(template, p, stem, id, count)->Ok_0) by {
        reveal(injected_record);
        reveal(spec_add_stack);
    }
    assert(spec_clone_record(template, p, stem, id, count) is Ok && spec_parse_template(template)
        is Some) by {
        reveal(spec_add_stack);
    }
    crate::items::lemma_template_ordered(template);
    lemma_clone_inner_sizes(template, p, stem, id, count);
    let n = r.len() as int;
    let d_name = lstr_bytes(stack_name_text(id + 1)).len() - p.stack_name_len;
    let s1 = p.s1_offset + d_name;
    let s2 = p.s2_offset + d_name;
    assert(out.subrange(first, first + n) == r);
    assert(out.subrange(first + s1, first + s1 + 4) =~= r.subrange(s1, s1 + 4));
    assert(out.subrange(first + s2, first + s2 + 4) =~= r.subrange(s2, s2 + 4));
    lemma_read_same_bytes(out, first + s1, r, s1);
    lemma_read_same_bytes(out, first + s2, r, s2);
}

} // verus!
