//! The law of the clock edit read back: after [`crate::time::set_game_time`]
//! the clock read from the body is the one written.
use vstd::prelude::*;

use crate::bytes::{lstr_bytes, spec_read_i32, spec_read_usize};
use crate::edit_laws::{apart, lemma_read_same_bytes, lemma_set_game_time_lands};
use crate::elb::{
    after_last_dot, first_record_among, record_at, spec_find_record, spec_int_prop_pattern,
};
use crate::error::ErrorModel;
use crate::sav::ArchiveVersion;
use crate::search::{lemma_find_is, lemma_find_some, occurrences, occurs_at, spec_find};
use crate::time::{
    spec_game_time, spec_int_after, spec_set_game_time, GameTimeModel, CURRENT_TIME, DATE, HOUR,
    MINUTE, TIME_SYSTEM, WINDOW,
};

verus! {

/// The `len` bytes from `i` overlap the four-byte field at `f`.
pub open spec fn touches(i: int, len: int, f: int) -> bool {
    i < f + 4 && f < i + len
}

/// Position `i` lies in the four-byte field at `f`.
pub open spec fn in_field(i: int, f: int) -> bool {
    f <= i < f + 4
}

/// Where what the record lookup reads for the class-path candidate at `c`
/// ends: past its instance name `lstr`, the pad and the size field (just
/// past the length field when that does not read).
pub open spec fn record_read_end(body: Seq<u8>, needle_len: int, c: int) -> int {
    match spec_read_usize(body, c + needle_len) {
        None => c + needle_len + 4,
        Some(len) => c + needle_len + 4 + len + 8,
    }
}

/// A candidate reads the same in a body that agrees on what it reads.
#[verifier::rlimit(30)]
proof fn lemma_record_at_frame(a: Seq<u8>, b: Seq<u8>, needle_len: int, prefix: Seq<u8>, c: int)
    requires
        a.len() == b.len(),
        0 <= c,
        0 <= needle_len,
        forall|i: int| c + needle_len <= i < record_read_end(a, needle_len, c) && i < a.len() ==> #[trigger] a[i] == b[i],
    ensures
        record_at(b, needle_len, prefix, c) == record_at(a, needle_len, prefix, c),
{
    let o = c + needle_len;
    if o + 4 <= a.len() {
        assert(a.subrange(o, o + 4) =~= b.subrange(o, o + 4));
        lemma_read_same_bytes(a, o, b, o);
        match spec_read_usize(a, o) {
            None => {},
            Some(len) => {
                let end = o + 4 + len;
                if len >= 1 && end <= a.len() {
                    assert(a[end - 1] == b[end - 1]);
                    assert(a.subrange(o + 4, end - 1) =~= b.subrange(o + 4, end - 1));
                    if end + 4 <= a.len() {
                        assert(a.subrange(end, end + 4) =~= b.subrange(end, end + 4));
                        lemma_read_same_bytes(a, end, b, end);
                    }
                    if end + 8 <= a.len() {
                        assert(a.subrange(end + 4, end + 8) =~= b.subrange(end + 4, end + 8));
                        lemma_read_same_bytes(a, end + 4, b, end + 4);
                    }
                }
            },
        }
    }
}

/// The record the lookup finds follows a candidate before its size field.
#[verifier::rlimit(30)]
proof fn lemma_found_below(a: Seq<u8>, needle_len: int, prefix: Seq<u8>, occ: Seq<int>)
    requires
        0 <= needle_len,
        first_record_among(a, needle_len, prefix, occ) is Some,
    ensures
        exists|x: int|
            0 <= x < occ.len() && #[trigger] occ[x] < first_record_among(a, needle_len, prefix, occ)->Some_0.2,
    decreases occ.len(),
{
    if record_at(a, needle_len, prefix, occ[0]) is Some {
        assert(occ[0] < first_record_among(a, needle_len, prefix, occ)->Some_0.2);
    } else {
        lemma_found_below(a, needle_len, prefix, occ.drop_first());
        let x = choose|x: int|
            0 <= x < occ.drop_first().len() && #[trigger] occ.drop_first()[x] < first_record_among(
                a,
                needle_len,
                prefix,
                occ.drop_first(),
            )->Some_0.2;
        assert(occ[x + 1] == occ.drop_first()[x]);
    }
}

/// A record the lookup finds lies inside the body, after its size field.
#[verifier::rlimit(30)]
pub(crate) proof fn lemma_found_bounds(a: Seq<u8>, needle_len: int, prefix: Seq<u8>, occ: Seq<int>)
    requires
        first_record_among(a, needle_len, prefix, occ) is Some,
    ensures
        ({
            let r = first_record_among(a, needle_len, prefix, occ)->Some_0;
            &&& 0 <= r.1
            &&& 0 <= r.2
            &&& r.2 + 4 == r.0
            &&& r.0 + r.1 <= a.len()
        }),
    decreases occ.len(),
{
    if record_at(a, needle_len, prefix, occ[0]) is None {
        lemma_found_bounds(a, needle_len, prefix, occ.drop_first());
    }
}

/// The lookup finds the same record in a body where every candidate below
/// the found size field reads the same.
#[verifier::rlimit(30)]
proof fn lemma_first_record_frame(
    a: Seq<u8>,
    b: Seq<u8>,
    needle_len: int,
    prefix: Seq<u8>,
    occ: Seq<int>,
    bound: int,
)
    requires
        0 <= needle_len,
        forall|x: int, y: int| 0 <= x < y < occ.len() ==> occ[x] < occ[y],
        forall|x: int|
            0 <= x < occ.len() && occ[x] < bound ==> record_at(b, needle_len, prefix, #[trigger] occ[x])
                == record_at(a, needle_len, prefix, occ[x]),
        first_record_among(a, needle_len, prefix, occ) matches Some(r) && r.2 <= bound,
    ensures
        first_record_among(b, needle_len, prefix, occ) == first_record_among(a, needle_len, prefix, occ),
    decreases occ.len(),
{
    let tail = occ.drop_first();
    if record_at(a, needle_len, prefix, occ[0]) is Some {
        assert(occ[0] < bound);
    } else {
        lemma_found_below(a, needle_len, prefix, tail);
        let x = choose|x: int|
            0 <= x < tail.len() && #[trigger] tail[x] < first_record_among(a, needle_len, prefix, tail)->Some_0.2;
        assert(occ[0] < occ[x + 1]);
        assert(occ[0] < bound);
        assert forall|x: int, y: int| 0 <= x < y < tail.len() implies tail[x] < tail[y] by {
            assert(tail[x] == occ[x + 1] && tail[y] == occ[y + 1]);
        }
        assert forall|x: int| 0 <= x < tail.len() && tail[x] < bound implies record_at(
            b,
            needle_len,
            prefix,
            #[trigger] tail[x],
        ) == record_at(a, needle_len, prefix, tail[x]) by {
            assert(tail[x] == occ[x + 1]);
        }
        lemma_first_record_frame(a, b, needle_len, prefix, tail, bound);
    }
}

/// The first occurrence stays first in a sequence of the same length that
/// differs from `h` only in three four-byte fields, when neither it nor
/// any occurrence in the new sequence overlaps them.
#[verifier::rlimit(30)]
proof fn lemma_find_apart3(h: Seq<u8>, h2: Seq<u8>, n: Seq<u8>, p: int, f1: int, f2: int, f3: int)
    requires
        h2.len() == h.len(),
        forall|i: int|
            0 <= i < h.len() && !in_field(i, f1) && !in_field(i, f2) && !in_field(i, f3) ==> #[trigger] h2[i]
                == h[i],
        spec_find(h, n) == Some(p),
        !touches(p, n.len() as int, f1) && !touches(p, n.len() as int, f2) && !touches(p, n.len() as int, f3),
        forall|i: int|
            #[trigger] occurs_at(h2, n, i) ==> !touches(i, n.len() as int, f1) && !touches(i, n.len() as int, f2)
                && !touches(i, n.len() as int, f3),
    ensures
        spec_find(h2, n) == Some(p),
{
    lemma_find_some(h, n);
    assert(h2.subrange(p, p + n.len()) =~= h.subrange(p, p + n.len()));
    assert forall|j: int| 0 <= j < p implies !#[trigger] occurs_at(h2, n, j) by {
        if occurs_at(h2, n, j) {
            assert(h2.subrange(j, j + n.len()) =~= h.subrange(j, j + n.len()));
            assert(occurs_at(h, n, j));
        }
    }
    assert(crate::search::is_first_from(h2, n, 0, p));
    lemma_find_is(h2, n, p);
}

/// An `IntProperty` lookup in a window reads the same position from a
/// body that differs only in three fields its pattern never overlaps, and
/// gives what that body holds there.
#[verifier::rlimit(30)]
proof fn lemma_int_after_kept(
    body: Seq<u8>,
    after: Seq<u8>,
    start: int,
    end: int,
    name: Seq<u8>,
    missing: Seq<char>,
    version: ArchiveVersion,
    f1: int,
    f2: int,
    f3: int,
)
    requires
        0 <= start <= end <= body.len(),
        after.len() == body.len(),
        forall|i: int|
            0 <= i < body.len() && !in_field(i, f1) && !in_field(i, f2) && !in_field(i, f3) ==> #[trigger] after[i]
                == body[i],
        spec_int_after(body, start, end, name, missing, version) is Ok,
        ({
            let n = spec_int_prop_pattern(name, version);
            forall|i: int|
                #![trigger occurs_at(body, n, i)]
                #![trigger occurs_at(after, n, i)]
                occurs_at(body, n, i) || occurs_at(after, n, i) ==> !touches(i, n.len() as int, f1)
                    && !touches(i, n.len() as int, f2) && !touches(i, n.len() as int, f3)
        }),
    ensures
        ({
            let o = spec_int_after(body, start, end, name, missing, version)->Ok_0.1;
            &&& spec_int_after(after, start, end, name, missing, version) == Ok::<(int, int), Seq<char>>(
                (spec_read_i32(after, o)->Some_0, o),
            )
            &&& spec_read_i32(after, o) is Some
            &&& o >= start + 16
        }),
{
    let n = spec_int_prop_pattern(name, version);
    let w = body.subrange(start, end);
    let w2 = after.subrange(start, end);
    let p = spec_find(w, n)->Some_0;
    lemma_find_some(w, n);
    assert(n.len() >= 16);
    assert(w.subrange(p, p + n.len()) =~= body.subrange(start + p, start + p + n.len()));
    assert(occurs_at(body, n, start + p));
    assert forall|i: int| #[trigger] occurs_at(w2, n, i) implies !touches(i, n.len() as int, f1 - start)
        && !touches(i, n.len() as int, f2 - start) && !touches(i, n.len() as int, f3 - start) by {
        assert(w2.subrange(i, i + n.len()) =~= after.subrange(start + i, start + i + n.len()));
        assert(occurs_at(after, n, start + i));
    }
    lemma_find_apart3(w, w2, n, p, f1 - start, f2 - start, f3 - start);
}

/// The property header of the `k`-th clock field: `Date`, `Hour`, `Minute`.
pub open spec fn clock_pattern(k: int, version: ArchiveVersion) -> Seq<u8> {
    if k == 0 {
        spec_int_prop_pattern(DATE@, version)
    } else if k == 1 {
        spec_int_prop_pattern(HOUR@, version)
    } else {
        spec_int_prop_pattern(MINUTE@, version)
    }
}

/// Setting the clock and reading it again gives the clock written, at the
/// same offsets.
///
/// This holds when the three fields do not overlap one another and what
/// the clock is read from lies apart from them: no `P9TimeSystem`
/// class-path `lstr`, and no `Date`, `Hour` or `Minute` property header,
/// overlaps a field before or after the write; and every class-path
/// candidate the record lookup tries reads its header apart from them.
#[verifier::rlimit(60)]
pub proof fn lemma_set_game_time_reads_back(
    body: Seq<u8>,
    version: ArchiveVersion,
    day: i32,
    hour: i32,
    minute: i32,
)
    requires
        spec_game_time(body, version) is Ok,
        ({
            let t = spec_game_time(body, version)->Ok_0;
            let after = spec_set_game_time(body, t, day, hour, minute).0;
            let needle = lstr_bytes(TIME_SYSTEM@);
            let (f1, f2, f3) = (t.day_offset, t.hour_offset, t.minute_offset);
            let size_offset = spec_find_record(body, TIME_SYSTEM@)->Some_0.2;
            &&& apart(f1, f2) && apart(f1, f3) && apart(f2, f3)
            &&& forall|i: int|
                #![trigger occurs_at(body, needle, i)]
                #![trigger occurs_at(after, needle, i)]
                occurs_at(body, needle, i) || occurs_at(after, needle, i) ==> !touches(i, needle.len() as int, f1)
                    && !touches(i, needle.len() as int, f2) && !touches(i, needle.len() as int, f3)
            &&& forall|c: int|
                #![trigger occurs_at(body, needle, c)]
                occurs_at(body, needle, c) && c < size_offset ==> {
                    let e = record_read_end(body, needle.len() as int, c);
                    &&& (f1 + 4 <= c || e <= f1)
                    &&& (f2 + 4 <= c || e <= f2)
                    &&& (f3 + 4 <= c || e <= f3)
                }
            &&& forall|k: int, i: int|
                #![trigger occurs_at(body, clock_pattern(k, version), i)]
                #![trigger occurs_at(after, clock_pattern(k, version), i)]
                0 <= k < 3 && (occurs_at(body, clock_pattern(k, version), i) || occurs_at(
                    after,
                    clock_pattern(k, version),
                    i,
                )) ==> !touches(i, clock_pattern(k, version).len() as int, f1) && !touches(
                    i,
                    clock_pattern(k, version).len() as int,
                    f2,
                ) && !touches(i, clock_pattern(k, version).len() as int, f3)
        }),
    ensures
        ({
            let t = spec_game_time(body, version)->Ok_0;
            let (after, outcome) = spec_set_game_time(body, t, day, hour, minute);
            &&& outcome is Ok
            &&& spec_game_time(after, version) == Ok::<GameTimeModel, ErrorModel>(
                GameTimeModel {
                    day,
                    hour,
                    minute,
                    day_offset: t.day_offset,
                    hour_offset: t.hour_offset,
                    minute_offset: t.minute_offset,
                },
            )
        }),
{
    let t = spec_game_time(body, version)->Ok_0;
    let after = spec_set_game_time(body, t, day, hour, minute).0;
    let (f1, f2, f3) = (t.day_offset, t.hour_offset, t.minute_offset);
    lemma_set_game_time_lands(body, version, day, hour, minute);
    let needle = lstr_bytes(TIME_SYSTEM@);
    let prefix = after_last_dot(TIME_SYSTEM@).push(0x5f);
    let (cs, csize, so) = spec_find_record(body, TIME_SYSTEM@)->Some_0;
    lemma_found_bounds(body, needle.len() as int, prefix, occurrences(body, needle));
    // the record is found where it was
    assert forall|i: int| #[trigger] occurs_at(body, needle, i) == occurs_at(after, needle, i) by {
        if 0 <= i && i + needle.len() <= body.len() && !touches(i, needle.len() as int, f1) && !touches(
            i,
            needle.len() as int,
            f2,
        ) && !touches(i, needle.len() as int, f3) {
            assert(body.subrange(i, i + needle.len()) =~= after.subrange(i, i + needle.len()));
        }
    }
    crate::search::lemma_occurrences_same(body, after, needle, 0);
    let occ = occurrences(body, needle);
    crate::search::lemma_occurrences_are_matches(body, needle, 0);
    crate::items::lemma_occurrences_increasing(body, needle, 0);
    assert forall|x: int| 0 <= x < occ.len() && occ[x] < so implies record_at(
        after,
        needle.len() as int,
        prefix,
        #[trigger] occ[x],
    ) == record_at(body, needle.len() as int, prefix, occ[x]) by {
        assert(occurs_at(body, needle, occ[x]));
        lemma_record_at_frame(body, after, needle.len() as int, prefix, occ[x]);
    }
    lemma_first_record_frame(body, after, needle.len() as int, prefix, occ, so);
    assert(spec_find_record(after, TIME_SYSTEM@) == spec_find_record(body, TIME_SYSTEM@));
    // CurrentTime is found where it was
    let content = body.subrange(cs, cs + csize);
    let content2 = after.subrange(cs, cs + csize);
    let current = spec_find(content, CURRENT_TIME@)->Some_0;
    lemma_find_some(content, CURRENT_TIME@);
    assert(0 <= current && current + 16 <= csize);
    let start = cs + current;
    let end = if cs + csize < start + WINDOW {
        cs + csize
    } else {
        start + WINDOW
    };
    // the three properties are found where they were
    assert(clock_pattern(0, version) == spec_int_prop_pattern(DATE@, version));
    assert(clock_pattern(1, version) == spec_int_prop_pattern(HOUR@, version));
    assert(clock_pattern(2, version) == spec_int_prop_pattern(MINUTE@, version));
    lemma_int_after_kept(body, after, start, end, DATE@, "Date property not found"@, version, f1, f2, f3);
    lemma_int_after_kept(body, after, start, end, HOUR@, "Hour property not found"@, version, f1, f2, f3);
    lemma_int_after_kept(body, after, start, end, MINUTE@, "Minute property not found"@, version, f1, f2, f3);
    assert(f1 >= start + 16 && f2 >= start + 16 && f3 >= start + 16);
    assert forall|i: int| 0 <= i < current + 16 implies #[trigger] content2[i] == content[i] by {
        assert(!in_field(cs + i, f1) && !in_field(cs + i, f2) && !in_field(cs + i, f3));
        assert(after[cs + i] == body[cs + i]);
    }
    crate::search::lemma_find_frame(content, content2, CURRENT_TIME@, current);
}


} // verus!
