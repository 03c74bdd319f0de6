//! The law of research completion read back: after
//! [`crate::research::complete`] the discovered technologies read from the
//! body are the old ones followed by those appended.
use vstd::prelude::*;
use vstd::utf8::encode_utf8;

use crate::bytes::{
    i32_le_bytes, lemma_i32_roundtrip, lstr_bytes, spec_read_i32, spec_read_lstr, spec_read_usize,
};
use crate::edit_laws::{
    fields_before, grown_by_insertion, lemma_complete_effect, lemma_read_i32_range,
    lemma_read_same_bytes,
};
use crate::elb::{after_last_dot, first_record_among, record_at, spec_find_record};
use crate::error::ErrorModel;
use crate::research::{
    lemma_elements_end, lemma_not_in_members, lemma_research_bounds, lstr_concat, not_in, spec_array_header, spec_complete,
    spec_elements, spec_object_array, spec_research, ArrayModel, ResearchModel, ARRAY_PROPERTY,
    DISCOVERED_TECHNOLOGIES, RESEARCH_SUBSYSTEM, UNLOCKED_RESEARCHES,
};
use crate::sav::ArchiveVersion;
use crate::search::{
    lemma_find_frame, lemma_find_some, lemma_occurrences_are_matches, occurrences, occurrences_from,
    occurs_at, spec_find,
};
use crate::text::lossy_decode;

verus! {

/// The texts read back from the `lstr` encodings of `paths`.
pub open spec fn read_back(paths: Seq<Seq<char>>) -> Seq<Seq<char>> {
    paths.map_values(|p: Seq<char>| lossy_decode(encode_utf8(p)))
}

/// The paths read back from their encodings are the paths themselves.
proof fn lemma_read_back_same(paths: Seq<Seq<char>>)
    ensures
        read_back(paths) == paths,
{
    assert forall|k: int| 0 <= k < paths.len() implies #[trigger] read_back(paths)[k] == paths[k] by {
        vstd::utf8::encode_utf8_valid_utf8(paths[k]);
        vstd::utf8::encode_utf8_decode_utf8(paths[k]);
    }
    assert(read_back(paths) =~= paths);
}

/// Reading `n1` elements and then `n2` more reads `n1 + n2` elements.
#[verifier::rlimit(30)]
proof fn lemma_elements_append(h: Seq<u8>, at: int, n1: nat, n2: nat)
    requires
        spec_elements(h, at, n1) is Some,
        spec_elements(h, spec_elements(h, at, n1)->Some_0.1, n2) is Some,
    ensures
        ({
            let (p1, e1) = spec_elements(h, at, n1)->Some_0;
            let (p2, e2) = spec_elements(h, e1, n2)->Some_0;
            spec_elements(h, at, n1 + n2) == Some((p1 + p2, e2))
        }),
    decreases n1,
{
    let (p1, e1) = spec_elements(h, at, n1)->Some_0;
    let (p2, e2) = spec_elements(h, e1, n2)->Some_0;
    if n1 == 0 {
        assert(Seq::<Seq<char>>::empty() + p2 =~= p2);
    } else {
        let (text, next) = spec_read_lstr(h, at)->Some_0;
        lemma_elements_append(h, next, (n1 - 1) as nat, n2);
        let (r1, _) = spec_elements(h, next, (n1 - 1) as nat)->Some_0;
        assert((n1 + n2 - 1) as nat == ((n1 - 1) as nat + n2) as nat);
        assert(seq![lossy_decode(text)] + (r1 + p2) =~= (seq![lossy_decode(text)] + r1) + p2);
    }
}

/// Elements read the same from a sequence that agrees on the bytes they
/// span.
#[verifier::rlimit(30)]
proof fn lemma_elements_frame(h: Seq<u8>, h2: Seq<u8>, at: int, n: nat)
    requires
        spec_elements(h, at, n) is Some,
        spec_elements(h, at, n)->Some_0.1 <= h2.len(),
        forall|i: int| at <= i < spec_elements(h, at, n)->Some_0.1 ==> #[trigger] h2[i] == h[i],
    ensures
        spec_elements(h2, at, n) == spec_elements(h, at, n),
    decreases n,
{
    if n > 0 {
        let (text, next) = spec_read_lstr(h, at)->Some_0;
        lemma_elements_end(h, next, (n - 1) as nat);
        assert(h.subrange(at, at + 4) =~= h2.subrange(at, at + 4));
        lemma_read_same_bytes(h, at, h2, at);
        assert(h2[next - 1] == h[next - 1]);
        assert(h.subrange(at + 4, next - 1) =~= h2.subrange(at + 4, next - 1));
        lemma_elements_frame(h, h2, next, (n - 1) as nat);
    }
}

/// The `lstr` encodings of `paths`, laid out from `p`, read back as
/// [`read_back`] of them.
#[verifier::rlimit(30)]
proof fn lemma_elements_concat(x: Seq<u8>, p: int, paths: Seq<Seq<char>>)
    requires
        0 <= p,
        p + lstr_concat(paths).len() <= x.len(),
        x.subrange(p, p + lstr_concat(paths).len()) == lstr_concat(paths),
        lstr_concat(paths).len() <= i32::MAX,
    ensures
        spec_elements(x, p, paths.len()) == Some((read_back(paths), p + lstr_concat(paths).len())),
    decreases paths.len(),
{
    if paths.len() == 0 {
        assert(read_back(paths) =~= Seq::<Seq<char>>::empty());
    } else {
        let init = paths.drop_last();
        let lc = lstr_concat(init);
        let b = encode_utf8(paths.last());
        let one = lstr_bytes(b);
        assert(lstr_concat(paths) == lc + one);
        assert(x.subrange(p, p + lc.len()) =~= lc) by {
            assert(x.subrange(p, p + lc.len()) =~= x.subrange(p, p + lstr_concat(paths).len()).subrange(0, lc.len() as int));
        }
        lemma_elements_concat(x, p, init);
        let q = p + lc.len();
        let e = q + one.len();
        assert(x.subrange(q, e) =~= one) by {
            assert(x.subrange(q, e) =~= x.subrange(p, p + lstr_concat(paths).len()).subrange(lc.len() as int, lstr_concat(paths).len() as int));
        }
        lemma_i32_roundtrip(b.len() + 1int);
        assert(x.subrange(q, q + 4) =~= i32_le_bytes(b.len() + 1int).subrange(0, 4)) by {
            assert(x.subrange(q, q + 4) =~= one.subrange(0, 4));
        }
        lemma_read_same_bytes(x, q, i32_le_bytes(b.len() + 1int), 0);
        assert(x[e - 1] == one[one.len() - 1]);
        assert(x.subrange(q + 4, e - 1) =~= b) by {
            assert(x.subrange(q + 4, e - 1) =~= one.subrange(4, one.len() - 1));
        }
        assert(spec_read_lstr(x, q) == Some((b, e)));
        assert(spec_elements(x, e, 0) == Some((Seq::<Seq<char>>::empty(), e)));
        assert(spec_elements(x, q, 1) == Some((seq![lossy_decode(b)], e)));
        lemma_elements_append(x, p, init.len(), 1);
        assert(read_back(init) + seq![lossy_decode(b)] =~= read_back(paths));
        assert((init.len() + 1) as nat == paths.len());
    }
}

/// The candidate the lookup settles on: every earlier one in the list
/// fails.
#[verifier::rlimit(30)]
proof fn lemma_found_index(h: Seq<u8>, needle_len: int, prefix: Seq<u8>, q: Seq<int>)
    requires
        first_record_among(h, needle_len, prefix, q) is Some,
    ensures
        exists|x: int|
            0 <= x < q.len() && record_at(h, needle_len, prefix, #[trigger] q[x]) == first_record_among(
                h,
                needle_len,
                prefix,
                q,
            ) && forall|y: int| 0 <= y < x ==> record_at(h, needle_len, prefix, #[trigger] q[y]) is None,
    decreases q.len(),
{
    if record_at(h, needle_len, prefix, q[0]) is Some {
        assert(record_at(h, needle_len, prefix, q[0]) == first_record_among(h, needle_len, prefix, q));
        assert(forall|y: int| 0 <= y < 0 ==> record_at(h, needle_len, prefix, #[trigger] q[y]) is None);
    } else {
        let t = q.drop_first();
        lemma_found_index(h, needle_len, prefix, t);
        let x = choose|x: int|
            0 <= x < t.len() && record_at(h, needle_len, prefix, #[trigger] t[x]) == first_record_among(
                h,
                needle_len,
                prefix,
                t,
            ) && forall|y: int| 0 <= y < x ==> record_at(h, needle_len, prefix, #[trigger] t[y]) is None;
        assert(q[x + 1] == t[x]);
        assert forall|y: int| 0 <= y < x + 1 implies record_at(h, needle_len, prefix, #[trigger] q[y]) is None by {
            if y > 0 {
                assert(q[y] == t[y - 1]);
            }
        }
    }
}

/// Two scans that agree up to the candidate `c0`, on which every earlier
/// candidate fails in both bodies, settle on `c0` in both.
#[verifier::rlimit(30)]
proof fn lemma_lookup_reaches(
    h: Seq<u8>,
    h2: Seq<u8>,
    needle_len: int,
    prefix: Seq<u8>,
    n: Seq<u8>,
    pos: int,
    c0: int,
)
    requires
        n.len() == needle_len,
        needle_len > 0,
        0 <= pos <= c0,
        occurrences_from(h, n, pos).contains(c0),
        forall|i: int| pos <= i <= c0 ==> #[trigger] occurs_at(h2, n, i) == occurs_at(h, n, i),
        forall|c: int|
            occurrences_from(h, n, pos).contains(c) && c < c0 ==> record_at(h, needle_len, prefix, c)
                is None && record_at(h2, needle_len, prefix, c) is None,
        record_at(h, needle_len, prefix, c0) is Some,
        record_at(h2, needle_len, prefix, c0) is Some,
    ensures
        first_record_among(h, needle_len, prefix, occurrences_from(h, n, pos)) == record_at(
            h,
            needle_len,
            prefix,
            c0,
        ),
        first_record_among(h2, needle_len, prefix, occurrences_from(h2, n, pos)) == record_at(
            h2,
            needle_len,
            prefix,
            c0,
        ),
    decreases c0 - pos,
{
    lemma_occurrences_are_matches(h, n, pos);
    let sc = occurrences_from(h, n, pos);
    let k = choose|k: int| 0 <= k < sc.len() && sc[k] == c0;
    assert(occurs_at(h, n, c0));
    assert(occurs_at(h2, n, c0));
    let sc2 = occurrences_from(h2, n, pos);
    assert(pos + n.len() <= h.len() && pos + n.len() <= h2.len());
    if occurs_at(h, n, pos) {
        assert(occurs_at(h2, n, pos));
        let t = occurrences_from(h, n, pos + n.len());
        let t2 = occurrences_from(h2, n, pos + n.len());
        assert(sc == seq![pos] + t);
        assert(sc2 == seq![pos] + t2);
        assert(sc[0] == pos && sc.drop_first() =~= t);
        assert(sc2[0] == pos && sc2.drop_first() =~= t2);
        if pos < c0 {
            assert(sc.contains(pos));
            assert(k > 0);
            assert(t[k - 1] == c0);
            assert(t.contains(c0));
            lemma_occurrences_are_matches(h, n, pos + n.len());
            assert forall|c: int| t.contains(c) && c < c0 implies record_at(h, needle_len, prefix, c)
                is None && record_at(h2, needle_len, prefix, c) is None by {
                let y = choose|y: int| 0 <= y < t.len() && t[y] == c;
                assert(sc[y + 1] == c);
                assert(sc.contains(c));
            }
            assert(record_at(h, needle_len, prefix, pos) is None);
            assert(record_at(h2, needle_len, prefix, pos) is None);
            lemma_lookup_reaches(h, h2, needle_len, prefix, n, pos + n.len(), c0);
        }
    } else {
        assert(!occurs_at(h2, n, pos));
        assert(pos < c0);
        assert(sc == occurrences_from(h, n, pos + 1));
        assert(sc2 == occurrences_from(h2, n, pos + 1));
        lemma_lookup_reaches(h, h2, needle_len, prefix, n, pos + 1, c0);
    }
}

/// A record whose size field grew by `delta`, in a body grown by `delta`
/// past it, is found with the grown size.
#[verifier::rlimit(30)]
proof fn lemma_record_at_grown(
    h: Seq<u8>,
    h2: Seq<u8>,
    needle_len: int,
    prefix: Seq<u8>,
    c: int,
    delta: int,
)
    requires
        record_at(h, needle_len, prefix, c) is Some,
        0 <= c,
        0 <= needle_len,
        0 <= delta,
        h2.len() == h.len() + delta,
        forall|i: int| c + needle_len <= i < record_at(h, needle_len, prefix, c)->Some_0.2 ==> #[trigger] h2[i]
            == h[i],
        spec_read_i32(h2, record_at(h, needle_len, prefix, c)->Some_0.2) == Some(
            record_at(h, needle_len, prefix, c)->Some_0.1 + delta,
        ),
    ensures
        ({
            let (a, s, so) = record_at(h, needle_len, prefix, c)->Some_0;
            record_at(h2, needle_len, prefix, c) == Some((a, s + delta, so))
        }),
{
    let (a, s, so) = record_at(h, needle_len, prefix, c)->Some_0;
    let o = c + needle_len;
    let (_, after_name) = spec_read_lstr(h, o)->Some_0;
    assert(after_name + 4 == so);
    assert(h.subrange(o, o + 4) =~= h2.subrange(o, o + 4));
    lemma_read_same_bytes(h, o, h2, o);
    assert(h2[after_name - 1] == h[after_name - 1]);
    assert(h.subrange(o + 4, after_name - 1) =~= h2.subrange(o + 4, after_name - 1));
    assert(h.subrange(after_name, after_name + 4) =~= h2.subrange(after_name, after_name + 4));
    lemma_read_same_bytes(h, after_name, h2, after_name);
}

/// A v3 array header reads the same from a body that agrees on what it
/// reads (everything from `cursor` up to the size field, and the flag
/// after it).
#[verifier::rlimit(30)]
proof fn lemma_header_frame(h: Seq<u8>, h2: Seq<u8>, cursor: int)
    requires
        spec_array_header(h, cursor, ArchiveVersion::V3) is Ok,
        forall|i: int| cursor <= i < spec_array_header(h, cursor, ArchiveVersion::V3)->Ok_0.0 ==> #[trigger] h2[i]
            == h[i],
        h2[spec_array_header(h, cursor, ArchiveVersion::V3)->Ok_0.0 + 4] == h[spec_array_header(
            h,
            cursor,
            ArchiveVersion::V3,
        )->Ok_0.0 + 4],
        spec_array_header(h, cursor, ArchiveVersion::V3)->Ok_0.0 + 5 <= h2.len(),
    ensures
        spec_array_header(h2, cursor, ArchiveVersion::V3) == spec_array_header(h, cursor, ArchiveVersion::V3),
{
    let (so, _) = spec_array_header(h, cursor, ArchiveVersion::V3)->Ok_0;
    assert(h.subrange(cursor, cursor + 4) =~= h2.subrange(cursor, cursor + 4));
    lemma_read_same_bytes(h, cursor, h2, cursor);
    let o = cursor + 4;
    let (_, after_inner) = spec_read_lstr(h, o)->Some_0;
    assert(h.subrange(o, o + 4) =~= h2.subrange(o, o + 4));
    lemma_read_same_bytes(h, o, h2, o);
    assert(h2[after_inner - 1] == h[after_inner - 1]);
    assert(h.subrange(o + 4, after_inner - 1) =~= h2.subrange(o + 4, after_inner - 1));
    assert(h.subrange(after_inner, after_inner + 4) =~= h2.subrange(after_inner, after_inner + 4));
    lemma_read_same_bytes(h, after_inner, h2, after_inner);
}

/// An object array reads the same from a body that agrees on every byte
/// from the record's content start up to the array's elements' end, with
/// a content at least as long.
#[verifier::rlimit(30)]
proof fn lemma_object_array_kept(
    body: Seq<u8>,
    out: Seq<u8>,
    start: int,
    size: int,
    size2: int,
    name: Seq<u8>,
    missing: Seq<char>,
)
    requires
        0 <= start,
        0 <= size <= size2,
        start + size <= body.len(),
        start + size2 <= out.len(),
        spec_object_array(body, start, size, name, missing, ArchiveVersion::V3) is Ok,
        spec_object_array(body, start, size, name, missing, ArchiveVersion::V3)->Ok_0.elements_end <= out.len(),
        forall|i: int|
            start <= i < spec_object_array(body, start, size, name, missing, ArchiveVersion::V3)->Ok_0.elements_end
                ==> #[trigger] out[i] == body[i],
    ensures
        spec_object_array(out, start, size2, name, missing, ArchiveVersion::V3) == spec_object_array(
            body,
            start,
            size,
            name,
            missing,
            ArchiveVersion::V3,
        ),
{
    let m = spec_object_array(body, start, size, name, missing, ArchiveVersion::V3)->Ok_0;
    let needle = lstr_bytes(name) + lstr_bytes(ARRAY_PROPERTY@);
    let w = body.subrange(start, start + size);
    let w2 = out.subrange(start, start + size2);
    let f = spec_find(w, needle)->Some_0;
    lemma_find_some(w, needle);
    let cursor = start + f + needle.len();
    let (so, co) = spec_array_header(body, cursor, ArchiveVersion::V3)->Ok_0;
    let count = spec_read_usize(body, co)->Some_0;
    lemma_elements_end(body, co + 4, count as nat);
    assert(m.elements_end >= co + 4);
    assert forall|i: int| 0 <= i < f + needle.len() implies #[trigger] w2[i] == w[i] by {
        assert(out[start + i] == body[start + i]);
    }
    lemma_find_frame(w, w2, needle, f);
    lemma_header_frame(body, out, cursor);
    assert(body.subrange(so, so + 4) =~= out.subrange(so, so + 4));
    lemma_read_same_bytes(body, so, out, so);
    assert(body.subrange(co, co + 4) =~= out.subrange(co, co + 4));
    lemma_read_same_bytes(body, co, out, co);
    lemma_elements_frame(body, out, co + 4, count as nat);
}

/// An object array whose elements got `to_add` appended, with its payload
/// size and count grown to match, reads as the old one with the appended
/// paths read back after its own.
#[verifier::rlimit(30)]
proof fn lemma_array_grown(
    body: Seq<u8>,
    out: Seq<u8>,
    start: int,
    size: int,
    name: Seq<u8>,
    missing: Seq<char>,
    to_add: Seq<Seq<char>>,
)
    requires
        0 <= start,
        0 <= size,
        start + size <= body.len(),
        spec_object_array(body, start, size, name, missing, ArchiveVersion::V3) is Ok,
        ({
            let m = spec_object_array(body, start, size, name, missing, ArchiveVersion::V3)->Ok_0;
            let ins = lstr_concat(to_add);
            let delta = ins.len() as int;
            &&& delta <= i32::MAX
            &&& out.len() == body.len() + delta
            &&& m.elements_end <= body.len()
            &&& forall|i: int|
                start <= i < m.elements_end && !(m.size_offset <= i < m.size_offset + 4) && !(m.count_offset
                    <= i < m.count_offset + 4) ==> #[trigger] out[i] == body[i]
            &&& out.subrange(m.elements_end, m.elements_end + delta) == ins
            &&& spec_read_i32(out, m.size_offset) == Some(spec_read_i32(body, m.size_offset)->Some_0 + delta)
            &&& spec_read_i32(out, m.count_offset) == Some(
                spec_read_i32(body, m.count_offset)->Some_0 + to_add.len(),
            )
        }),
    ensures
        ({
            let m = spec_object_array(body, start, size, name, missing, ArchiveVersion::V3)->Ok_0;
            let delta = lstr_concat(to_add).len() as int;
            spec_object_array(out, start, size + delta, name, missing, ArchiveVersion::V3) == Ok::<
                ArrayModel,
                Seq<char>,
            >(
                ArrayModel {
                    paths: m.paths + read_back(to_add),
                    size_offset: m.size_offset,
                    count_offset: m.count_offset,
                    elements_end: m.elements_end + delta,
                },
            )
        }),
{
    let m = spec_object_array(body, start, size, name, missing, ArchiveVersion::V3)->Ok_0;
    let ins = lstr_concat(to_add);
    let delta = ins.len() as int;
    let needle = lstr_bytes(name) + lstr_bytes(ARRAY_PROPERTY@);
    let w = body.subrange(start, start + size);
    let w2 = out.subrange(start, start + size + delta);
    let f = spec_find(w, needle)->Some_0;
    lemma_find_some(w, needle);
    let cursor = start + f + needle.len();
    let (so, co) = spec_array_header(body, cursor, ArchiveVersion::V3)->Ok_0;
    assert(co == so + 5);
    let payload = spec_read_usize(body, so)->Some_0;
    let count = spec_read_usize(body, co)->Some_0;
    lemma_elements_end(body, co + 4, count as nat);
    assert(so >= cursor);
    assert forall|i: int| 0 <= i < f + needle.len() implies #[trigger] w2[i] == w[i] by {
        assert(out[start + i] == body[start + i]);
    }
    lemma_find_frame(w, w2, needle, f);
    assert(out[so + 4] == body[so + 4]);
    lemma_header_frame(body, out, cursor);
    lemma_elements_frame(body, out, co + 4, count as nat);
    lemma_elements_concat(out, m.elements_end, to_add);
    lemma_elements_append(out, co + 4, count as nat, to_add.len());
    assert((count + to_add.len()) as nat == (count as nat + to_add.len()) as nat);
}

/// The research record is found in the body grown by `ins` at `ee` where
/// it was, with its size grown, when the candidates before it behave as
/// the law on completion requires.
#[verifier::rlimit(40)]
proof fn lemma_lookup_grown(body: Seq<u8>, out: Seq<u8>, ins: Seq<u8>, aso: int, co: int, ee: int, k: int)
    requires
        spec_find_record(body, RESEARCH_SUBSYSTEM@) is Some,
        ({
            let needle = lstr_bytes(RESEARCH_SUBSYSTEM@);
            let prefix = after_last_dot(RESEARCH_SUBSYSTEM@).push(0x5f);
            let (start, size, rso) = spec_find_record(body, RESEARCH_SUBSYSTEM@)->Some_0;
            &&& grown_by_insertion(body, out, ee, ins, aso, co, rso, k)
            &&& fields_before(ee, aso, co, rso)
            &&& rso < aso
            &&& rso < co
            &&& forall|i: int|
                #![trigger occurs_at(body, needle, i)]
                #![trigger occurs_at(out, needle, i)]
                0 <= i < 4 ==> !occurs_at(body, needle, i) && !occurs_at(out, needle, i)
            &&& forall|c: int|
                #![trigger occurs_at(body, needle, c)]
                occurs_at(body, needle, c) && c < rso && record_at(body, needle.len() as int, prefix, c)
                    is None ==> record_at(out, needle.len() as int, prefix, c) is None
        }),
    ensures
        ({
            let (start, size, rso) = spec_find_record(body, RESEARCH_SUBSYSTEM@)->Some_0;
            spec_find_record(out, RESEARCH_SUBSYSTEM@) == Some((start, size + ins.len(), rso))
        }),
{
    let needle = lstr_bytes(RESEARCH_SUBSYSTEM@);
    let nl = needle.len() as int;
    let prefix = after_last_dot(RESEARCH_SUBSYSTEM@).push(0x5f);
    let (start, size, rso) = spec_find_record(body, RESEARCH_SUBSYSTEM@)->Some_0;
    let delta = ins.len() as int;
    // the record is found where it was, with its size grown
    let occ = occurrences(body, needle);
    lemma_occurrences_are_matches(body, needle, 0);
    crate::items::lemma_occurrences_increasing(body, needle, 0);
    lemma_found_index(body, nl, prefix, occ);
    let x = choose|x: int|
        0 <= x < occ.len() && record_at(body, nl, prefix, #[trigger] occ[x]) == first_record_among(
            body,
            nl,
            prefix,
            occ,
        ) && forall|y: int| 0 <= y < x ==> record_at(body, nl, prefix, #[trigger] occ[y]) is None;
    let c0 = occ[x];
    assert(occ.contains(c0));
    assert(record_at(body, nl, prefix, c0) == Some((start, size, rso)));
    assert(c0 + nl < rso);
    assert forall|i: int| 0 <= i <= c0 implies #[trigger] occurs_at(out, needle, i) == occurs_at(
        body,
        needle,
        i,
    ) by {
        if i >= 4 {
            assert(out.subrange(i, i + nl) =~= body.subrange(i, i + nl));
        }
    }
    assert forall|c: int| occurrences_from(body, needle, 0).contains(c) && c < c0 implies record_at(
        body,
        nl,
        prefix,
        c,
    ) is None && record_at(out, nl, prefix, c) is None by {
        let y = choose|y: int| 0 <= y < occ.len() && occ[y] == c;
        if y > x {
            assert(occ[x] < occ[y]);
        }
        assert(occurs_at(body, needle, c));
    }
    assert forall|i: int| c0 + nl <= i < rso implies #[trigger] out[i] == body[i] by {}
    lemma_record_at_grown(body, out, nl, prefix, c0, delta);
    lemma_lookup_reaches(body, out, nl, prefix, needle, 0, c0);
    assert(spec_find_record(out, RESEARCH_SUBSYSTEM@) == Some((start, size + delta, rso)));
}

/// Where the header of the object array `name` starts in the record
/// content `body[start..start + size]`.
pub open spec fn array_header_at(body: Seq<u8>, start: int, size: int, name: Seq<u8>) -> int {
    start + spec_find(
        body.subrange(start, start + size),
        lstr_bytes(name) + lstr_bytes(ARRAY_PROPERTY@),
    )->Some_0
}

/// Elements read the same, moved, from a sequence that holds the same
/// bytes moved by `d` from `lo` on.
#[verifier::rlimit(30)]
proof fn lemma_elements_shift(h: Seq<u8>, h2: Seq<u8>, at: int, n: nat, lo: int, d: int)
    requires
        spec_elements(h, at, n) is Some,
        lo <= at,
        0 <= lo,
        0 <= d,
        h2.len() == h.len() + d,
        forall|i: int| lo <= i < h.len() ==> #[trigger] h2[i + d] == h[i],
    ensures
        spec_elements(h2, at + d, n) == Some(
            (spec_elements(h, at, n)->Some_0.0, spec_elements(h, at, n)->Some_0.1 + d),
        ),
    decreases n,
{
    if n > 0 {
        let (text, next) = spec_read_lstr(h, at)->Some_0;
        assert(h2.subrange(at + d, at + d + 4) =~= h.subrange(at, at + 4)) by {
            assert forall|k: int| 0 <= k < 4 implies #[trigger] h2.subrange(at + d, at + d + 4)[k] == h.subrange(at, at + 4)[k] by {
                assert(h2[(at + k) + d] == h[at + k]);
            }
        }
        lemma_read_same_bytes(h2, at + d, h, at);
        assert(h2[(next - 1) + d] == h[next - 1]);
        assert(h2.subrange(at + d + 4, next + d - 1) =~= h.subrange(at + 4, next - 1)) by {
            assert forall|k: int| 0 <= k < next - 1 - (at + 4) implies #[trigger] h2.subrange(at + d + 4, next + d - 1)[k] == h.subrange(at + 4, next - 1)[k] by {
                assert(h2[(at + 4 + k) + d] == h[at + 4 + k]);
            }
        }
        lemma_elements_shift(h, h2, next, (n - 1) as nat, lo, d);
    }
}

#[verifier::rlimit(30)]
proof fn lemma_read_shift(h: Seq<u8>, h2: Seq<u8>, at: int, lo: int, d: int)
    requires
        lo <= at,
        0 <= lo,
        0 <= d,
        at + 4 <= h.len(),
        h2.len() == h.len() + d,
        forall|i: int| lo <= i < h.len() ==> #[trigger] h2[i + d] == h[i],
    ensures
        spec_read_i32(h2, at + d) == spec_read_i32(h, at),
{
    assert(h2.subrange(at + d, at + d + 4) =~= h.subrange(at, at + 4)) by {
        assert forall|k: int| 0 <= k < 4 implies #[trigger] h2.subrange(at + d, at + d + 4)[k] == h.subrange(at, at + 4)[k] by {
            assert(h2[(at + k) + d] == h[at + k]);
        }
    }
    lemma_read_same_bytes(h2, at + d, h, at);
}

/// A v3 array header reads the same, moved, from a sequence that holds
/// the same bytes moved by `d` from `lo` on.
#[verifier::rlimit(30)]
proof fn lemma_header_shift(h: Seq<u8>, h2: Seq<u8>, cursor: int, lo: int, d: int)
    requires
        spec_array_header(h, cursor, ArchiveVersion::V3) is Ok,
        lo <= cursor,
        0 <= lo,
        0 <= d,
        h2.len() == h.len() + d,
        forall|i: int| lo <= i < h.len() ==> #[trigger] h2[i + d] == h[i],
    ensures
        spec_array_header(h2, cursor + d, ArchiveVersion::V3) == Ok::<(int, int), Seq<char>>(
            (
                spec_array_header(h, cursor, ArchiveVersion::V3)->Ok_0.0 + d,
                spec_array_header(h, cursor, ArchiveVersion::V3)->Ok_0.1 + d,
            ),
        ),
{
    lemma_read_shift(h, h2, cursor, lo, d);
    let o = cursor + 4;
    let (inner, after_inner) = spec_read_lstr(h, o)->Some_0;
    lemma_read_shift(h, h2, o, lo, d);
    assert(h2[(after_inner - 1) + d] == h[after_inner - 1]);
    assert(h2.subrange(o + d + 4, after_inner + d - 1) =~= h.subrange(o + 4, after_inner - 1)) by {
        assert forall|k: int| 0 <= k < after_inner - 1 - (o + 4) implies #[trigger] h2.subrange(o + d + 4, after_inner + d - 1)[k] == h.subrange(o + 4, after_inner - 1)[k] by {
            assert(h2[(o + 4 + k) + d] == h[o + 4 + k]);
        }
    }
    lemma_read_shift(h, h2, after_inner, lo, d);
    let so = after_inner + 4;
    assert(h2[(so + 4) + d] == h[so + 4]);
}

/// An object array whose header lies past the insertion point reads the
/// same paths from the grown body, when no header of its name in the grown
/// body overlaps the grown fields or the inserted bytes.
#[verifier::rlimit(40)]
proof fn lemma_object_array_moved(
    body: Seq<u8>,
    out: Seq<u8>,
    start: int,
    size: int,
    name: Seq<u8>,
    missing: Seq<char>,
    ee: int,
    delta: int,
    f1: int,
    f2: int,
)
    requires
        0 <= start <= ee,
        0 <= size,
        0 <= delta,
        start + size <= body.len(),
        ee <= body.len(),
        out.len() == body.len() + delta,
        spec_object_array(body, start, size, name, missing, ArchiveVersion::V3) is Ok,
        array_header_at(body, start, size, name) >= ee,
        forall|i: int|
            start <= i < ee && !(f1 <= i < f1 + 4) && !(f2 <= i < f2 + 4) ==> #[trigger] out[i] == body[i],
        forall|i: int| ee <= i < body.len() ==> #[trigger] out[i + delta] == body[i],
        ({
            let n = lstr_bytes(name) + lstr_bytes(ARRAY_PROPERTY@);
            forall|i: int|
                #[trigger] occurs_at(out, n, i) ==> !(i < f1 + 4 && f1 < i + n.len()) && !(i < f2 + 4 && f2
                    < i + n.len()) && !(i < ee + delta && ee < i + n.len())
        }),
    ensures
        spec_object_array(out, start, size + delta, name, missing, ArchiveVersion::V3) matches Ok(m2)
            && m2.paths == spec_object_array(body, start, size, name, missing, ArchiveVersion::V3)->Ok_0.paths,
{
    let needle = lstr_bytes(name) + lstr_bytes(ARRAY_PROPERTY@);
    let nl = needle.len() as int;
    let w = body.subrange(start, start + size);
    let w2 = out.subrange(start, start + size + delta);
    let f = spec_find(w, needle)->Some_0;
    lemma_find_some(w, needle);
    let g = f + delta;
    // the header is found moved
    assert(w2.subrange(g, g + nl) =~= w.subrange(f, f + nl)) by {
        assert forall|k: int| 0 <= k < nl implies #[trigger] w2.subrange(g, g + nl)[k] == w.subrange(f, f + nl)[k] by {
            assert(out[(start + f + k) + delta] == body[start + f + k]);
        }
    }
    assert forall|j: int| 0 <= j < g implies !#[trigger] occurs_at(w2, needle, j) by {
        if occurs_at(w2, needle, j) {
            assert(out.subrange(start + j, start + j + nl) =~= w2.subrange(j, j + nl));
            assert(occurs_at(out, needle, start + j));
            if start + j + nl <= ee {
                assert(out.subrange(start + j, start + j + nl) =~= body.subrange(start + j, start + j + nl));
                assert(w.subrange(j, j + nl) =~= body.subrange(start + j, start + j + nl));
                assert(occurs_at(w, needle, j));
            } else {
                assert(start + j >= ee + delta);
                let j0 = j - delta;
                assert(w.subrange(j0, j0 + nl) =~= w2.subrange(j, j + nl)) by {
                    assert forall|k: int| 0 <= k < nl implies #[trigger] w.subrange(j0, j0 + nl)[k] == w2.subrange(j, j + nl)[k] by {
                        assert(out[(start + j0 + k) + delta] == body[start + j0 + k]);
                    }
                }
                assert(occurs_at(w, needle, j0));
            }
        }
    }
    assert(crate::search::is_first_from(w2, needle, 0, g));
    crate::search::lemma_find_is(w2, needle, g);
    // and what follows it reads the same, moved
    let cursor = start + f + nl;
    let (so, co) = spec_array_header(body, cursor, ArchiveVersion::V3)->Ok_0;
    lemma_header_shift(body, out, cursor, ee, delta);
    lemma_read_shift(body, out, so, ee, delta);
    lemma_read_shift(body, out, co, ee, delta);
    let count = spec_read_usize(body, co)->Some_0;
    lemma_elements_shift(body, out, co + 4, count as nat, ee, delta);
}

/// The `UnlockedResearches` header lies past the discovered elements of
/// `state`, and in `out` no header of that name overlaps the discovered
/// array's size and count fields or the `delta` bytes appended after its
/// elements.
pub open spec fn unlocked_moved_apart(
    body: Seq<u8>,
    out: Seq<u8>,
    start: int,
    size: int,
    state: ResearchModel,
    delta: int,
) -> bool {
    let n = lstr_bytes(UNLOCKED_RESEARCHES@) + lstr_bytes(ARRAY_PROPERTY@);
    let (f1, f2, ee) = (state.array_size_offset, state.count_offset, state.elements_end);
    &&& array_header_at(body, start, size, UNLOCKED_RESEARCHES@) >= ee
    &&& forall|i: int|
        #[trigger] occurs_at(out, n, i) ==> !(i < f1 + 4 && f1 < i + n.len()) && !(i < f2 + 4 && f2 < i
            + n.len()) && !(i < ee + delta && ee < i + n.len())
}

/// The parts a research state of archive v3 is read from.
#[verifier::rlimit(30)]
proof fn lemma_research_parts(body: Seq<u8>)
    requires
        spec_research(body, ArchiveVersion::V3) is Ok,
    ensures
        spec_find_record(body, RESEARCH_SUBSYSTEM@) is Some,
        ({
            let st = spec_research(body, ArchiveVersion::V3)->Ok_0;
            let (start, size, rso) = spec_find_record(body, RESEARCH_SUBSYSTEM@)->Some_0;
            let u = spec_object_array(
                body,
                start,
                size,
                UNLOCKED_RESEARCHES@,
                "UnlockedResearches array not found"@,
                ArchiveVersion::V3,
            );
            let d = spec_object_array(
                body,
                start,
                size,
                DISCOVERED_TECHNOLOGIES@,
                "DiscoveredTechnologies array not found"@,
                ArchiveVersion::V3,
            );
            &&& u is Ok
            &&& d is Ok
            &&& st.unlocked == u->Ok_0.paths
            &&& st.discovered == d->Ok_0.paths
            &&& st.record_size_offset == rso
            &&& st.array_size_offset == d->Ok_0.size_offset
            &&& st.count_offset == d->Ok_0.count_offset
            &&& st.elements_end == d->Ok_0.elements_end
            &&& 0 <= size
            &&& start == rso + 4
            &&& 0 <= rso
            &&& start + size <= body.len()
            &&& start < st.array_size_offset
            &&& st.count_offset == st.array_size_offset + 5
        }),
{
    reveal(spec_research);
    let needle = lstr_bytes(RESEARCH_SUBSYSTEM@);
    let prefix = after_last_dot(RESEARCH_SUBSYSTEM@).push(0x5f);
    crate::time_laws::lemma_found_bounds(body, needle.len() as int, prefix, occurrences(body, needle));
    let (start, size, rso) = spec_find_record(body, RESEARCH_SUBSYSTEM@)->Some_0;
    let dn = lstr_bytes(DISCOVERED_TECHNOLOGIES@) + lstr_bytes(ARRAY_PROPERTY@);
    let w = body.subrange(start, start + size);
    lemma_find_some(w, dn);
}

/// A research state of archive v3 put together from its parts.
#[verifier::rlimit(30)]
proof fn lemma_research_whole(body: Seq<u8>, start: int, size: int, rso: int, u: ArrayModel, d: ArrayModel)
    requires
        spec_find_record(body, RESEARCH_SUBSYSTEM@) == Some((start, size, rso)),
        spec_object_array(
            body,
            start,
            size,
            UNLOCKED_RESEARCHES@,
            "UnlockedResearches array not found"@,
            ArchiveVersion::V3,
        ) == Ok::<ArrayModel, Seq<char>>(u),
        spec_object_array(
            body,
            start,
            size,
            DISCOVERED_TECHNOLOGIES@,
            "DiscoveredTechnologies array not found"@,
            ArchiveVersion::V3,
        ) == Ok::<ArrayModel, Seq<char>>(d),
    ensures
        spec_research(body, ArchiveVersion::V3) == Ok::<ResearchModel, ErrorModel>(
            ResearchModel {
                unlocked: u.paths,
                discovered: d.paths,
                record_size_offset: rso,
                array_size_offset: d.size_offset,
                count_offset: d.count_offset,
                elements_end: d.elements_end,
            },
        ),
{
    reveal(spec_research);
}

/// The unlocked paths read from the grown body are the old ones.
#[verifier::rlimit(40)]
proof fn lemma_unlocked_kept(
    body: Seq<u8>,
    out: Seq<u8>,
    start: int,
    size: int,
    state: ResearchModel,
    ins: Seq<u8>,
    k: int,
)
    requires
        0 <= start,
        0 <= size,
        start + size <= body.len(),
        start < state.array_size_offset,
        state.count_offset == state.array_size_offset + 5,
        state.elements_end <= body.len(),
        grown_by_insertion(
            body,
            out,
            state.elements_end,
            ins,
            state.array_size_offset,
            state.count_offset,
            state.record_size_offset,
            k,
        ),
        fields_before(
            state.elements_end,
            state.array_size_offset,
            state.count_offset,
            state.record_size_offset,
        ),
        state.record_size_offset + 4 <= start,
        spec_object_array(
            body,
            start,
            size,
            UNLOCKED_RESEARCHES@,
            "UnlockedResearches array not found"@,
            ArchiveVersion::V3,
        ) is Ok,
        spec_object_array(
            body,
            start,
            size,
            UNLOCKED_RESEARCHES@,
            "UnlockedResearches array not found"@,
            ArchiveVersion::V3,
        )->Ok_0.elements_end <= state.array_size_offset || unlocked_moved_apart(
            body,
            out,
            start,
            size,
            state,
            ins.len() as int,
        ),
    ensures
        spec_object_array(
            out,
            start,
            size + ins.len(),
            UNLOCKED_RESEARCHES@,
            "UnlockedResearches array not found"@,
            ArchiveVersion::V3,
        ) matches Ok(m2) && m2.paths == spec_object_array(
            body,
            start,
            size,
            UNLOCKED_RESEARCHES@,
            "UnlockedResearches array not found"@,
            ArchiveVersion::V3,
        )->Ok_0.paths,
{
    let v3 = ArchiveVersion::V3;
    let missing_u = "UnlockedResearches array not found"@;
    let delta = ins.len() as int;
    let (aso, co, ee) = (state.array_size_offset, state.count_offset, state.elements_end);
    let unlocked = spec_object_array(body, start, size, UNLOCKED_RESEARCHES@, missing_u, v3)->Ok_0;
    lemma_research_array_bound(body, start, size, UNLOCKED_RESEARCHES@, missing_u);
    if unlocked.elements_end <= aso {
        assert forall|i: int| start <= i < unlocked.elements_end implies #[trigger] out[i] == body[i] by {}
        lemma_object_array_kept(body, out, start, size, size + delta, UNLOCKED_RESEARCHES@, missing_u);
    } else {
        assert forall|i: int|
            start <= i < ee && !(aso <= i < aso + 4) && !(co <= i < co + 4) implies #[trigger] out[i]
            == body[i] by {}
        assert forall|i: int| ee <= i < body.len() implies #[trigger] out[i + delta] == body[i] by {
            assert(out.subrange(ee + delta, out.len() as int)[i - ee] == body.subrange(ee, body.len() as int)[i - ee]);
        }
        lemma_object_array_moved(body, out, start, size, UNLOCKED_RESEARCHES@, missing_u, ee, delta, aso, co);
    }
}

/// What completing research writes lies apart from what the research
/// state is read from (see [`lemma_complete_reads_back`]).
pub open spec fn completion_apart(body: Seq<u8>, paths: Seq<Seq<char>>) -> bool {
    let state = spec_research(body, ArchiveVersion::V3)->Ok_0;
    let to_add = not_in(paths, state.discovered);
    let out = spec_complete(body, ArchiveVersion::V3, paths)->Ok_0;
    let needle = lstr_bytes(RESEARCH_SUBSYSTEM@);
    let prefix = after_last_dot(RESEARCH_SUBSYSTEM@).push(0x5f);
    let (start, size, rso) = spec_find_record(body, RESEARCH_SUBSYSTEM@)->Some_0;
    let unlocked = spec_object_array(
        body,
        start,
        size,
        UNLOCKED_RESEARCHES@,
        "UnlockedResearches array not found"@,
        ArchiveVersion::V3,
    )->Ok_0;
    to_add.len() > 0 ==> {
        &&& fields_before(state.elements_end, state.array_size_offset, state.count_offset, rso)
        &&& forall|i: int|
            #![trigger occurs_at(body, needle, i)]
            #![trigger occurs_at(out, needle, i)]
            0 <= i < 4 ==> !occurs_at(body, needle, i) && !occurs_at(out, needle, i)
        &&& forall|c: int|
            #![trigger occurs_at(body, needle, c)]
            occurs_at(body, needle, c) && c < rso && record_at(body, needle.len() as int, prefix, c)
                is None ==> record_at(out, needle.len() as int, prefix, c) is None
        &&& unlocked.elements_end <= state.array_size_offset || unlocked_moved_apart(
            body,
            out,
            start,
            size,
            state,
            lstr_concat(to_add).len() as int,
        )
    }
}

/// Completing research and reading the research state of the result
/// again gives the old state with the paths that were missing from
/// `DiscoveredTechnologies` read back after the discovered ones; the
/// unlocked paths and the offsets stay, and the elements end moves by the
/// appended length. With nothing to add the state is unchanged.
///
/// This holds when what the state is read from lies apart from what the
/// completion writes, as in the subsystem's layout: the four size fields
/// lie before the appended bytes and do not overlap; no research class
/// path starts in the body size field, before or after; every class-path
/// candidate before the record's size field that starts no record before
/// starts none after; and `UnlockedResearches` is read from bytes before
/// the discovered array's size field, or its header lies past the appended
/// bytes and no header of that name in the result overlaps the grown
/// array fields or the appended bytes.
#[verifier::rlimit(60)]
pub proof fn lemma_complete_reads_back(body: Seq<u8>, paths: Seq<Seq<char>>)
    requires
        spec_complete(body, ArchiveVersion::V3, paths) is Ok,
        completion_apart(body, paths),
    ensures
        ({
            let state = spec_research(body, ArchiveVersion::V3)->Ok_0;
            let to_add = not_in(paths, state.discovered);
            let out = spec_complete(body, ArchiveVersion::V3, paths)->Ok_0;
            spec_research(out, ArchiveVersion::V3) == Ok::<ResearchModel, ErrorModel>(
                ResearchModel {
                    unlocked: state.unlocked,
                    discovered: state.discovered + to_add,
                    record_size_offset: state.record_size_offset,
                    array_size_offset: state.array_size_offset,
                    count_offset: state.count_offset,
                    elements_end: state.elements_end + lstr_concat(to_add).len(),
                },
            )
        }),
{
    let v3 = ArchiveVersion::V3;
    let state = spec_research(body, v3)->Ok_0;
    let to_add = not_in(paths, state.discovered);
    let out = spec_complete(body, v3, paths)->Ok_0;
    lemma_research_parts(body);
    lemma_read_back_same(to_add);
    if to_add.len() == 0 {
        assert(out == body);
        assert(read_back(to_add) =~= Seq::<Seq<char>>::empty());
        assert(state.discovered + read_back(to_add) =~= state.discovered);
        assert(lstr_concat(to_add).len() == 0);
        assert(state == spec_research(body, v3)->Ok_0);
    } else {
        let (start, size, rso) = spec_find_record(body, RESEARCH_SUBSYSTEM@)->Some_0;
        let ins = lstr_concat(to_add);
        let delta = ins.len() as int;
        let (aso, co, ee) = (state.array_size_offset, state.count_offset, state.elements_end);
        lemma_complete_effect(body, v3, paths);
        assert(grown_by_insertion(body, out, ee, ins, aso, co, rso, to_add.len() as int));
        lemma_research_bounds(body, v3);
        lemma_lookup_grown(body, out, ins, aso, co, ee, to_add.len() as int);
        // the unlocked array is read as before
        let missing_u = "UnlockedResearches array not found"@;
        lemma_unlocked_kept(body, out, start, size, state, ins, to_add.len() as int);
        let unlocked2 = spec_object_array(out, start, size + delta, UNLOCKED_RESEARCHES@, missing_u, v3)->Ok_0;
        // the discovered array grows by the appended paths
        let missing_d = "DiscoveredTechnologies array not found"@;
        let discovered = spec_object_array(body, start, size, DISCOVERED_TECHNOLOGIES@, missing_d, v3)->Ok_0;
        lemma_read_i32_range(out, aso);
        assert forall|i: int|
            start <= i < ee && !(aso <= i < aso + 4) && !(co <= i < co + 4) implies #[trigger] out[i]
            == body[i] by {}
        lemma_array_grown(body, out, start, size, DISCOVERED_TECHNOLOGIES@, missing_d, to_add);
        lemma_research_whole(
            out,
            start,
            size + delta,
            rso,
            unlocked2,
            ArrayModel {
                paths: discovered.paths + read_back(to_add),
                size_offset: aso,
                count_offset: co,
                elements_end: ee + delta,
            },
        );
    }
}

/// An object array of a record's content ends inside the body.
#[verifier::rlimit(30)]
proof fn lemma_research_array_bound(body: Seq<u8>, start: int, size: int, name: Seq<u8>, missing: Seq<char>)
    requires
        spec_object_array(body, start, size, name, missing, ArchiveVersion::V3) is Ok,
    ensures
        spec_object_array(body, start, size, name, missing, ArchiveVersion::V3)->Ok_0.elements_end <= body.len(),
{
    let needle = lstr_bytes(name) + lstr_bytes(ARRAY_PROPERTY@);
    let f = spec_find(body.subrange(start, start + size), needle)->Some_0;
    let (_, co) = spec_array_header(body, start + f + needle.len(), ArchiveVersion::V3)->Ok_0;
    let count = spec_read_usize(body, co)->Some_0;
    lemma_elements_end(body, co + 4, count as nat);
}

/// A sequence none of whose elements qualifies is empty.
proof fn lemma_no_member_empty(paths: Seq<Seq<char>>, exclude: Seq<Seq<char>>)
    requires
        forall|x: Seq<char>| paths.contains(x) ==> #[trigger] exclude.contains(x),
    ensures
        not_in(paths, exclude).len() == 0,
{
    lemma_not_in_members(paths, exclude);
    let r = not_in(paths, exclude);
    if r.len() > 0 {
        assert(r.contains(r[0]));
    }
}

/// Completing research twice with the same paths gives the body of the
/// first completion back: every path is discovered after it.
///
/// This holds under the conditions of [`lemma_complete_reads_back`].
#[verifier::rlimit(30)]
pub proof fn lemma_complete_idempotent(body: Seq<u8>, paths: Seq<Seq<char>>)
    requires
        spec_complete(body, ArchiveVersion::V3, paths) is Ok,
        completion_apart(body, paths),
    ensures
        ({
            let out = spec_complete(body, ArchiveVersion::V3, paths)->Ok_0;
            spec_complete(out, ArchiveVersion::V3, paths) == Ok::<Seq<u8>, ErrorModel>(out)
        }),
{
    let state = spec_research(body, ArchiveVersion::V3)->Ok_0;
    let to_add = not_in(paths, state.discovered);
    lemma_complete_reads_back(body, paths);
    lemma_not_in_members(paths, state.discovered);
    let d2 = state.discovered + to_add;
    assert forall|x: Seq<char>| paths.contains(x) implies #[trigger] d2.contains(x) by {
        if state.discovered.contains(x) {
            let k = choose|k: int| 0 <= k < state.discovered.len() && state.discovered[k] == x;
            assert(d2[k] == x);
        } else {
            assert(to_add.contains(x));
            let k = choose|k: int| 0 <= k < to_add.len() && to_add[k] == x;
            assert(d2[state.discovered.len() + k] == x);
        }
    }
    lemma_no_member_empty(paths, d2);
}

/// Completing every technology that is missing leaves none missing: the
/// research read from the result has every unlocked technology
/// discovered.
///
/// This holds under the conditions of [`lemma_complete_reads_back`].
#[verifier::rlimit(30)]
pub proof fn lemma_complete_missing_leaves_none(body: Seq<u8>)
    requires
        spec_research(body, ArchiveVersion::V3) is Ok,
        ({
            let state = spec_research(body, ArchiveVersion::V3)->Ok_0;
            let paths = not_in(state.unlocked, state.discovered);
            &&& spec_complete(body, ArchiveVersion::V3, paths) is Ok
            &&& completion_apart(body, paths)
        }),
    ensures
        ({
            let state = spec_research(body, ArchiveVersion::V3)->Ok_0;
            let out = spec_complete(
                body,
                ArchiveVersion::V3,
                not_in(state.unlocked, state.discovered),
            )->Ok_0;
            let after = spec_research(out, ArchiveVersion::V3);
            &&& after is Ok
            &&& not_in(after->Ok_0.unlocked, after->Ok_0.discovered).len() == 0
        }),
{
    let state = spec_research(body, ArchiveVersion::V3)->Ok_0;
    let paths = not_in(state.unlocked, state.discovered);
    let to_add = not_in(paths, state.discovered);
    lemma_complete_reads_back(body, paths);
    lemma_not_in_members(state.unlocked, state.discovered);
    lemma_not_in_members(paths, state.discovered);
    let d2 = state.discovered + to_add;
    assert forall|x: Seq<char>| state.unlocked.contains(x) implies #[trigger] d2.contains(x) by {
        if state.discovered.contains(x) {
            let k = choose|k: int| 0 <= k < state.discovered.len() && state.discovered[k] == x;
            assert(d2[k] == x);
        } else {
            assert(paths.contains(x));
            assert(to_add.contains(x));
            let k = choose|k: int| 0 <= k < to_add.len() && to_add[k] == x;
            assert(d2[state.discovered.len() + k] == x);
        }
    }
    lemma_no_member_empty(state.unlocked, d2);
}

} // verus!
