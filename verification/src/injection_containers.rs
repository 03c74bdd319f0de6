//! What injecting a stack does to the resource containers read from the
//! body: they stay, with the amounts of those after the inserted record
//! found moved by its length.
use vstd::prelude::*;

use vstd::utf8::encode_utf8;

use crate::bytes::{spec_read_i32, spec_read_lstr};
use crate::edit_laws::{fields_before, grown_by_insertion, lemma_read_same_bytes};
use crate::items::{spec_add_stack, spec_inventory};
use crate::sav::ArchiveVersion;
use crate::reparse::{container_span, payload_end, window_start};
use crate::resources::{
    containers_among, spec_containers, spec_parse_container, ContainerModel, CLASS_STEM, CONTAINER_SCRIPT,
};
use crate::search::{lemma_occurrences_concat, occurrences, occurs_at, shifted, spec_rfind};

verus! {

/// `m` with its amount's offset moved by `d`.
pub open spec fn moved_container(m: ContainerModel, d: int) -> ContainerModel {
    ContainerModel {
        resource: m.resource,
        amount: m.amount,
        second: m.second,
        amount_offset: m.amount_offset + d,
    }
}

/// `b` holds, moved by `d`, the bytes of `a` from `lo` up to `hi`.
pub open spec fn moved_span(a: Seq<u8>, b: Seq<u8>, lo: int, hi: int, d: int) -> bool {
    forall|i: int| lo <= i < hi && 0 <= i < a.len() ==> #[trigger] b[i + d] == a[i]
}

#[verifier::rlimit(30)]
proof fn lemma_i32_moved(a: Seq<u8>, b: Seq<u8>, lo: int, hi: int, d: int, off: int)
    requires
        moved_span(a, b, lo, hi, d),
        0 <= d,
        0 <= lo <= off,
        (off + 4 <= hi && hi <= a.len() && a.len() + d <= b.len()) || (hi >= a.len() && b.len() == a.len() + d),
    ensures
        spec_read_i32(b, off + d) == spec_read_i32(a, off),
{
    if 0 <= off && off + 4 <= a.len() {
        assert(b.subrange(off + d, off + d + 4) =~= a.subrange(off, off + 4)) by {
            assert forall|k: int| 0 <= k < 4 implies #[trigger] b.subrange(off + d, off + d + 4)[k]
                == a.subrange(off, off + 4)[k] by {
                assert(b[(off + k) + d] == a[off + k]);
            }
        }
        lemma_read_same_bytes(b, off + d, a, off);
    }
}

#[verifier::rlimit(30)]
proof fn lemma_lstr_moved(a: Seq<u8>, b: Seq<u8>, lo: int, hi: int, d: int, off: int)
    requires
        moved_span(a, b, lo, hi, d),
        0 <= d,
        0 <= lo <= off,
        (hi <= a.len() && a.len() + d <= b.len() && (spec_read_lstr(a, off) matches Some((_, e)) && e <= hi))
            || (hi >= a.len() && b.len() == a.len() + d),
    ensures
        spec_read_lstr(b, off + d) == match spec_read_lstr(a, off) {
            Some((text, e)) => Some((text, e + d)),
            None => None,
        },
{
    lemma_i32_moved(a, b, lo, hi, d, off);
    match spec_read_i32(a, off) {
        Some(len) => {
            let end = off + 4 + len;
            if len >= 1 && end <= a.len() {
                assert(b[(end - 1) + d] == a[end - 1]);
                assert(b.subrange(off + d + 4, end + d - 1) =~= a.subrange(off + 4, end - 1)) by {
                    assert forall|k: int| 0 <= k < len - 1 implies #[trigger] b.subrange(off + d + 4, end + d - 1)[k]
                        == a.subrange(off + 4, end - 1)[k] by {
                        assert(b[(off + 4 + k) + d] == a[off + 4 + k]);
                    }
                }
            }
        },
        None => {},
    }
}

/// A container record reads the same, moved, from a body that holds the
/// bytes it is read from moved by `d`: all of them up to the end of the
/// body when the record does not parse.
#[verifier::rlimit(80)]
proof fn lemma_parse_moved(a: Seq<u8>, b: Seq<u8>, t: int, d: int)
    requires
        occurs_at(a, CONTAINER_SCRIPT@, t),
        0 <= d,
        d == 0 || container_span(a, t).0 > 0,
        moved_span(a, b, container_span(a, t).0, container_span(a, t).1, d),
        spec_parse_container(a, t) is Some ==> a.len() + d <= b.len(),
        spec_parse_container(a, t) is None ==> b.len() == a.len() + d,
    ensures
        spec_parse_container(b, t + d) == match spec_parse_container(a, t) {
            Some(m) => Some(moved_container(m, d)),
            None => None,
        },
{
    let (lo, hi) = container_span(a, t);
    let ws = window_start(t);
    let ws2 = window_start(t + d);
    let wa = a.subrange(ws, t);
    let wb = b.subrange(ws2, t + d);
    let parsed = spec_parse_container(a, t);
    reveal(spec_parse_container);
    if parsed is Some {
        let (_, an) = spec_read_lstr(a, t + 39)->Some_0;
        assert(hi == payload_end(a, t));
        assert(hi >= an + 9);
        assert(hi <= a.len());
    }
    assert(hi >= t);
    match spec_rfind(wa, CLASS_STEM@) {
        None => {
            assert(lo == ws);
            assert(ws2 == ws + d);
            assert(wb =~= wa) by {
                assert forall|k: int| 0 <= k < wa.len() implies #[trigger] wb[k] == wa[k] by {
                    assert(b[(ws + k) + d] == a[ws + k]);
                }
            }
            assert(parsed is None);
        },
        Some(q) => {
            crate::search::lemma_rfind_some(wa, CLASS_STEM@);
            assert(lo == ws + q);
            let q2 = lo + d - ws2;
            assert forall|k: int| 0 <= k < wa.len() - q implies #[trigger] wb[q2 + k] == wa[q + k] by {
                assert(b[(lo + k) + d] == a[lo + k]);
            }
            crate::search::lemma_rfind_moved(wa, wb, CLASS_STEM@, q, q2);
            let ta = wa.subrange(q + 12, wa.len() as int);
            let tb = wb.subrange(q2 + 12, wb.len() as int);
            assert(ta =~= tb) by {
                assert forall|k: int| 0 <= k < ta.len() implies #[trigger] tb[k] == ta[k] by {
                    assert(wb[q2 + (12 + k)] == wa[q + (12 + k)]);
                }
            }
            lemma_lstr_moved(a, b, lo, hi, d, t + 39);
            match spec_read_lstr(a, t + 39) {
                None => {},
                Some((_, an)) => {
                    lemma_i32_moved(a, b, lo, hi, d, an);
                    lemma_i32_moved(a, b, lo, hi, d, an + 4);
                    match spec_read_i32(a, an + 4) {
                        None => {},
                        Some(size) => {
                            let ps = an + 9;
                            if size >= 0 && ps + size <= a.len() {
                                assert(b.subrange(ps + d, ps + d + size) =~= a.subrange(ps, ps + size)) by {
                                    assert forall|k: int| 0 <= k < size implies #[trigger] b.subrange(ps + d, ps + d + size)[k]
                                        == a.subrange(ps, ps + size)[k] by {
                                        assert(b[(ps + k) + d] == a[ps + k]);
                                    }
                                }
                            }
                        },
                    }
                },
            }
        },
    }
}

/// The same containers, but for where their amounts are stored.
pub open spec fn same_containers(x: Seq<ContainerModel>, y: Seq<ContainerModel>) -> bool {
    &&& x.len() == y.len()
    &&& forall|k: int|
        0 <= k < x.len() ==> (#[trigger] x[k]).resource == y[k].resource && x[k].amount == y[k].amount
            && x[k].second == y[k].second
}

proof fn lemma_among_concat(h: Seq<u8>, q1: Seq<int>, q2: Seq<int>)
    ensures
        containers_among(h, q1 + q2) == containers_among(h, q1) + containers_among(h, q2),
    decreases q1.len(),
{
    if q1.len() == 0 {
        assert(q1 + q2 =~= q2);
        assert(Seq::<ContainerModel>::empty() + containers_among(h, q2) =~= containers_among(h, q2));
    } else {
        assert((q1 + q2).drop_first() =~= q1.drop_first() + q2);
        assert((q1 + q2)[0] == q1[0]);
        lemma_among_concat(h, q1.drop_first(), q2);
        let a = containers_among(h, q1.drop_first());
        let b = containers_among(h, q2);
        match spec_parse_container(h, q1[0]) {
            Some(c) => {
                assert(seq![c] + (a + b) =~= (seq![c] + a) + b);
            },
            None => {},
        }
    }
}

/// Containers before the insertion point read the same from the grown
/// body.
proof fn lemma_among_front(body: Seq<u8>, out: Seq<u8>, q: Seq<int>)
    requires
        body.len() <= out.len(),
        forall|x: int|
            0 <= x < q.len() ==> occurs_at(body, CONTAINER_SCRIPT@, #[trigger] q[x]) && spec_parse_container(
                body,
                q[x],
            ) is Some && moved_span(body, out, container_span(body, q[x]).0, container_span(body, q[x]).1, 0),
    ensures
        containers_among(out, q) == containers_among(body, q),
    decreases q.len(),
{
    if q.len() > 0 {
        let t = q.drop_first();
        assert forall|x: int| 0 <= x < t.len() implies occurs_at(body, CONTAINER_SCRIPT@, #[trigger] t[x])
            && spec_parse_container(body, t[x]) is Some && moved_span(
            body,
            out,
            container_span(body, t[x]).0,
            container_span(body, t[x]).1,
            0,
        ) by {
            assert(t[x] == q[x + 1]);
        }
        lemma_among_front(body, out, t);
        lemma_parse_moved(body, out, q[0], 0);
        let m = spec_parse_container(body, q[0])->Some_0;
        assert(moved_container(m, 0) == m);
        assert(q[0] + 0 == q[0]);
    }
}

/// Containers after the insertion point read the same, moved, from the
/// grown body.
proof fn lemma_among_back(body: Seq<u8>, out: Seq<u8>, q: Seq<int>, first: int, n: int)
    requires
        0 < first,
        0 <= n,
        out.len() == body.len() + n,
        moved_span(body, out, first, body.len() as int, n),
        forall|x: int|
            0 <= x < q.len() ==> occurs_at(body, CONTAINER_SCRIPT@, #[trigger] q[x]) && container_span(
                body,
                q[x],
            ).0 >= first,
    ensures
        same_containers(containers_among(out, shifted(q, n)), containers_among(body, q)),
    decreases q.len(),
{
    if q.len() == 0 {
        assert(shifted(q, n) =~= Seq::<int>::empty());
    } else {
        let t = q.drop_first();
        assert forall|x: int| 0 <= x < t.len() implies occurs_at(body, CONTAINER_SCRIPT@, #[trigger] t[x])
            && container_span(body, t[x]).0 >= first by {
            assert(t[x] == q[x + 1]);
        }
        lemma_among_back(body, out, t, first, n);
        let (lo, hi) = container_span(body, q[0]);
        assert(moved_span(body, out, lo, hi, n));
        lemma_parse_moved(body, out, q[0], n);
        assert(shifted(q, n)[0] == q[0] + n);
        assert(shifted(q, n).drop_first() =~= shifted(t, n));
        let a2 = containers_among(out, shifted(t, n));
        let a1 = containers_among(body, t);
        match spec_parse_container(body, q[0]) {
            Some(m) => {
                let x = seq![moved_container(m, n)] + a2;
                let y = seq![m] + a1;
                assert forall|k: int| 0 <= k < x.len() implies (#[trigger] x[k]).resource == y[k].resource
                    && x[k].amount == y[k].amount && x[k].second == y[k].second by {
                    if k > 0 {
                        assert(x[k] == a2[k - 1] && y[k] == a1[k - 1]);
                    }
                }
            },
            None => {},
        }
    }
}

/// The bytes from `lo` up to `hi` lie apart from the four-byte fields at
/// 0, `ls`, `sc` and `so`.
pub open spec fn clear_of_fields(lo: int, hi: int, ls: int, sc: int, so: int) -> bool {
    &&& 4 <= lo || hi <= 0
    &&& ls + 4 <= lo || hi <= ls
    &&& sc + 4 <= lo || hi <= sc
    &&& so + 4 <= lo || hi <= so
}

/// The container script paths of `body` and of `out`, the body with a stack
/// record inserted at `first` and the four fields at 0, `ls`, `sc` and `so`
/// grown, lie apart from what the injection writes: none straddles the
/// insertion point or lies in the inserted bytes; those before the
/// insertion point are clear of the four fields and, in `body`, start
/// records that parse from bytes before it and clear of the fields; those
/// after it start records read from bytes after it.
pub open spec fn containers_apart(body: Seq<u8>, out: Seq<u8>, first: int, ls: int, sc: int, so: int) -> bool {
    let cs = CONTAINER_SCRIPT@;
    let n = out.len() - body.len();
    &&& forall|i: int|
        #![trigger occurs_at(body, cs, i)]
        occurs_at(body, cs, i) ==> !(first - 39 < i < first) && ((i < first && spec_parse_container(body, i)
            is Some && container_span(body, i).1 <= first && clear_of_fields(
            container_span(body, i).0,
            container_span(body, i).1,
            ls,
            sc,
            so,
        )) || (i >= first && container_span(body, i).0 >= first))
    &&& forall|i: int| #![trigger occurs_at(out, cs, i)] occurs_at(out, cs, i) ==> !(first - 39 < i < first + n)
    &&& forall|i: int|
        #![trigger occurs_at(body, cs, i)]
        #![trigger occurs_at(out, cs, i)]
        i < first && (occurs_at(body, cs, i) || occurs_at(out, cs, i)) ==> clear_of_fields(i, i + 39, ls, sc, so)
}

#[verifier::rlimit(60)]
proof fn lemma_container_occurrences_grown(
    body: Seq<u8>,
    out: Seq<u8>,
    r: Seq<u8>,
    first: int,
    ls: int,
    sc: int,
    so: int,
)
    requires
        grown_by_insertion(body, out, first, r, ls, sc, so, 1),
        16 <= first <= body.len(),
        containers_apart(body, out, first, ls, sc, so),
    ensures
        ({
            let cs = CONTAINER_SCRIPT@;
            let a = body.subrange(0, first);
            let b = body.subrange(first, body.len() as int);
            &&& occurrences(body, cs) == occurrences(a, cs) + shifted(occurrences(b, cs), first)
            &&& occurrences(out, cs) == occurrences(a, cs) + shifted(occurrences(b, cs), first + r.len())
        }),
{
    let cs = CONTAINER_SCRIPT@;
    let n = r.len() as int;
    assert(cs.len() == 39);
    let a = body.subrange(0, first);
    let b = body.subrange(first, body.len() as int);
    assert(a + b =~= body);
    assert forall|s: int| a.len() - cs.len() < s < a.len() implies !#[trigger] occurs_at(a + b, cs, s) by {}
    lemma_occurrences_concat(a, b, cs, 0);
    let a2 = out.subrange(0, first);
    let rb = out.subrange(first, out.len() as int);
    assert(a2 + rb =~= out);
    assert forall|s: int| a2.len() - cs.len() < s < a2.len() implies !#[trigger] occurs_at(a2 + rb, cs, s) by {}
    lemma_occurrences_concat(a2, rb, cs, 0);
    assert(rb =~= r + b) by {
        assert(out.subrange(first, first + n) == r);
        assert(out.subrange(first + n, out.len() as int) == b);
    }
    assert forall|s: int| r.len() - cs.len() < s < r.len() implies !#[trigger] occurs_at(r + b, cs, s) by {
        if occurs_at(r + b, cs, s) {
            assert(out.subrange(first + s, first + s + 39) =~= (r + b).subrange(s, s + 39));
            assert(occurs_at(out, cs, first + s));
        }
    }
    lemma_occurrences_concat(r, b, cs, 0);
    assert forall|j: int| 0 <= j implies !#[trigger] occurs_at(r, cs, j) by {
        if occurs_at(r, cs, j) {
            assert(out.subrange(first + j, first + j + 39) =~= r.subrange(j, j + 39));
            assert(occurs_at(out, cs, first + j));
        }
    }
    crate::search::lemma_occurrences_none(r, cs, 0);
    assert forall|i: int| #[trigger] occurs_at(a, cs, i) == occurs_at(a2, cs, i) by {
        if 0 <= i && i + 39 <= first {
            assert(a.subrange(i, i + 39) =~= body.subrange(i, i + 39));
            assert(a2.subrange(i, i + 39) =~= out.subrange(i, i + 39));
            if occurs_at(body, cs, i) || occurs_at(out, cs, i) {
                assert(body.subrange(i, i + 39) =~= out.subrange(i, i + 39));
            }
        }
    }
    crate::search::lemma_occurrences_same(a, a2, cs, 0);
    let occ_b = occurrences(b, cs);
    assert(Seq::<int>::empty() + shifted(occ_b, n) =~= shifted(occ_b, n));
    assert(shifted(shifted(occ_b, n), first) =~= shifted(occ_b, first + n));
}

/// Injecting a stack keeps the resource containers read from the body:
/// as many, in the same order, with the same resources, amounts and
/// second values (those after the inserted record are found moved by its
/// length).
///
/// This holds when the four grown size fields lie before the first stack
/// record and do not overlap, and the container records lie apart from
/// what the injection writes ([`containers_apart`]).
#[verifier::rlimit(60)]
pub proof fn lemma_add_stack_keeps_containers(body: Seq<u8>, stem_text: Seq<char>, count: i32)
    requires
        spec_add_stack(body, ArchiveVersion::V3, encode_utf8(stem_text), count) is Ok,
        ({
            let inv = spec_inventory(body, ArchiveVersion::V3)->Ok_0;
            let out = spec_add_stack(body, ArchiveVersion::V3, encode_utf8(stem_text), count)->Ok_0;
            &&& fields_before(
                inv.first_record_start,
                inv.list_size_offset,
                inv.stack_count_offset,
                inv.subsystem_size_offset,
            )
            &&& containers_apart(
                body,
                out,
                inv.first_record_start,
                inv.list_size_offset,
                inv.stack_count_offset,
                inv.subsystem_size_offset,
            )
        }),
    ensures
        ({
            let out = spec_add_stack(body, ArchiveVersion::V3, encode_utf8(stem_text), count)->Ok_0;
            &&& same_containers(spec_containers(out), spec_containers(body))
            &&& spec_containers(out).len() == spec_containers(body).len()
        }),
{
    let stem = encode_utf8(stem_text);
    let inv = spec_inventory(body, ArchiveVersion::V3)->Ok_0;
    let out = spec_add_stack(body, ArchiveVersion::V3, stem, count)->Ok_0;
    let first = inv.first_record_start;
    let (ls, sc, so) = (inv.list_size_offset, inv.stack_count_offset, inv.subsystem_size_offset);
    crate::injection::lemma_injection_shape(body, stem, count);
    let r = crate::injection::injected_record(body, stem, count);
    let n = r.len() as int;
    crate::items::lemma_inventory_first_record(body, ArchiveVersion::V3);
    assert(first >= 16) by {
        crate::injection::lemma_inventory_parts(body);
    }
    lemma_container_occurrences_grown(body, out, r, first, ls, sc, so);
    let cs = CONTAINER_SCRIPT@;
    let a = body.subrange(0, first);
    let b = body.subrange(first, body.len() as int);
    let occ_a = occurrences(a, cs);
    let occ_b = occurrences(b, cs);
    crate::search::lemma_occurrences_are_matches(a, cs, 0);
    crate::search::lemma_occurrences_are_matches(b, cs, 0);
    lemma_among_concat(body, occ_a, shifted(occ_b, first));
    lemma_among_concat(out, occ_a, shifted(occ_b, first + n));
    // before the insertion point
    assert forall|x: int| 0 <= x < occ_a.len() implies occurs_at(body, cs, #[trigger] occ_a[x])
        && spec_parse_container(body, occ_a[x]) is Some && moved_span(
        body,
        out,
        container_span(body, occ_a[x]).0,
        container_span(body, occ_a[x]).1,
        0,
    ) by {
        let t = occ_a[x];
        assert(a.subrange(t, t + 39) =~= body.subrange(t, t + 39));
        assert(occurs_at(body, cs, t));
        let (lo, hi) = container_span(body, t);
        assert forall|i: int| lo <= i < hi && 0 <= i < body.len() implies #[trigger] out[i + 0] == body[i] by {
            assert(out[i] == body[i]);
        }
    }
    lemma_among_front(body, out, occ_a);
    // after it
    let q = shifted(occ_b, first);
    assert forall|x: int| 0 <= x < q.len() implies occurs_at(body, cs, #[trigger] q[x]) && container_span(
        body,
        q[x],
    ).0 >= first by {
        let u = occ_b[x];
        assert(q[x] == first + u);
        assert(b.subrange(u, u + 39) =~= body.subrange(first + u, first + u + 39));
        assert(occurs_at(body, cs, first + u));
    }
    assert forall|i: int| first <= i < body.len() && 0 <= i < body.len() implies #[trigger] out[i + n] == body[i] by {
        assert(out.subrange(first + n, out.len() as int)[i - first] == b[i - first]);
    }
    lemma_among_back(body, out, q, first, n);
    assert(shifted(q, n) =~= shifted(occ_b, first + n));
    let x1 = containers_among(body, occ_a);
    let y2 = containers_among(out, shifted(occ_b, first + n));
    let x2 = containers_among(body, q);
    let cx = spec_containers(out);
    let cy = spec_containers(body);
    assert(cx == x1 + y2);
    assert(cy == x1 + x2);
    assert forall|k: int| 0 <= k < cx.len() implies (#[trigger] cx[k]).resource == cy[k].resource
        && cx[k].amount == cy[k].amount && cx[k].second == cy[k].second by {
        if k >= x1.len() {
            assert(cx[k] == y2[k - x1.len()] && cy[k] == x2[k - x1.len()]);
        }
    }
}

} // verus!
