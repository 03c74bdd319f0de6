//! Substring search over byte slices, backed by `memchr::memmem`.
//!
//! The contracts speak of [`occurs_at`]; [`find_all`] yields the same
//! leftmost, non-overlapping matches as `memmem::find_iter`.
use vstd::prelude::*;

verus! {

/// `n` occurs in `h` starting at `i`.
pub open spec fn occurs_at(h: Seq<u8>, n: Seq<u8>, i: int) -> bool {
    0 <= i && i + n.len() <= h.len() && h.subrange(i, i + n.len()) == n
}

/// `i` is the first position of `h` at or after `from` where `n` occurs.
pub open spec fn is_first_from(h: Seq<u8>, n: Seq<u8>, from: int, i: int) -> bool {
    &&& from <= i
    &&& occurs_at(h, n, i)
    &&& forall|j: int| from <= j < i ==> !#[trigger] occurs_at(h, n, j)
}

/// The leftmost non-overlapping occurrences of a non-empty `n` in `h`,
/// scanning from `pos`.
pub open spec fn occurrences_from(h: Seq<u8>, n: Seq<u8>, pos: int) -> Seq<int>
    decreases h.len() - pos,
{
    if pos < 0 || n.len() == 0 || pos + n.len() > h.len() {
        Seq::empty()
    } else if occurs_at(h, n, pos) {
        seq![pos] + occurrences_from(h, n, pos + n.len())
    } else {
        occurrences_from(h, n, pos + 1)
    }
}

/// The leftmost non-overlapping occurrences of a non-empty `n` in `h`.
pub open spec fn occurrences(h: Seq<u8>, n: Seq<u8>) -> Seq<int> {
    occurrences_from(h, n, 0)
}

/// Positions in a `Vec<usize>` as integers.
pub open spec fn as_ints(v: Seq<usize>) -> Seq<int> {
    v.map_values(|x: usize| x as int)
}

/// Position of the first occurrence of `needle` in `haystack`.
///
/// Calls `memchr::memmem::find`; trusted to return the least index at which
/// `needle` occurs, or `None` when it occurs nowhere.
#[verifier::external_body]
fn memmem_find(haystack: &[u8], needle: &[u8]) -> (r: Option<usize>)
    ensures
        r matches Some(i) ==> is_first_from(haystack@, needle@, 0, i as int),
        r is None ==> forall|j: int| !#[trigger] occurs_at(haystack@, needle@, j),
{
    memchr::memmem::find(haystack, needle)
}

/// Position of the last occurrence of `needle` in `haystack`.
///
/// Calls `memchr::memmem::rfind`; trusted to return the greatest index at
/// which `needle` occurs, or `None` when it occurs nowhere.
#[verifier::external_body]
fn memmem_rfind(haystack: &[u8], needle: &[u8]) -> (r: Option<usize>)
    ensures
        r matches Some(i) ==> occurs_at(haystack@, needle@, i as int) && forall|j: int|
            i < j ==> !#[trigger] occurs_at(haystack@, needle@, j),
        r is None ==> forall|j: int| !#[trigger] occurs_at(haystack@, needle@, j),
{
    memchr::memmem::rfind(haystack, needle)
}

/// First occurrence of `needle` in `haystack`.
pub fn find(haystack: &[u8], needle: &[u8]) -> (r: Option<usize>)
    ensures
        r matches Some(i) ==> is_first_from(haystack@, needle@, 0, i as int),
        r is None ==> forall|j: int| !#[trigger] occurs_at(haystack@, needle@, j),
{
    memmem_find(haystack, needle)
}

/// Last occurrence of `needle` in `haystack`.
pub fn rfind(haystack: &[u8], needle: &[u8]) -> (r: Option<usize>)
    ensures
        r matches Some(i) ==> occurs_at(haystack@, needle@, i as int) && forall|j: int|
            i < j ==> !#[trigger] occurs_at(haystack@, needle@, j),
        r is None ==> forall|j: int| !#[trigger] occurs_at(haystack@, needle@, j),
{
    memmem_rfind(haystack, needle)
}

proof fn lemma_occurs_shift(h: Seq<u8>, n: Seq<u8>, from: int, i: int)
    requires
        0 <= from <= h.len(),
    ensures
        occurs_at(h.subrange(from, h.len() as int), n, i) <==> (0 <= i && occurs_at(
            h,
            n,
            from + i,
        )),
{
    let t = h.subrange(from, h.len() as int);
    if 0 <= i && i + n.len() <= t.len() {
        assert(t.subrange(i, i + n.len()) =~= h.subrange(from + i, from + i + n.len()));
    }
}

/// First occurrence of `needle` in `haystack` at or after `from`.
pub fn find_from(haystack: &[u8], from: usize, needle: &[u8]) -> (r: Option<usize>)
    requires
        from <= haystack@.len(),
    ensures
        r matches Some(i) ==> is_first_from(haystack@, needle@, from as int, i as int),
        r is None ==> forall|j: int| from <= j ==> !#[trigger] occurs_at(haystack@, needle@, j),
{
    let n = haystack.len();
    let tail = &haystack[from..n];
    match find(tail, needle) {
        Some(i) => {
            proof {
                lemma_occurs_shift(haystack@, needle@, from as int, i as int);
                assert forall|j: int| from <= j < from + i implies !#[trigger] occurs_at(
                    haystack@,
                    needle@,
                    j,
                ) by {
                    lemma_occurs_shift(haystack@, needle@, from as int, j - from);
                }
                assert(i <= tail@.len());
            }
            Some(from + i)
        },
        None => {
            proof {
                assert forall|j: int| from <= j implies !#[trigger] occurs_at(
                    haystack@,
                    needle@,
                    j,
                ) by {
                    lemma_occurs_shift(haystack@, needle@, from as int, j - from);
                }
            }
            None
        },
    }
}

/// Scanning from `pos` reaches the first occurrence `q` at or after `pos`.
proof fn lemma_occurrences_first(h: Seq<u8>, n: Seq<u8>, pos: int, q: int)
    requires
        0 <= pos,
        n.len() > 0,
        is_first_from(h, n, pos, q),
    ensures
        occurrences_from(h, n, pos) == seq![q] + occurrences_from(h, n, q + n.len()),
    decreases q - pos,
{
    if pos < q {
        assert(!occurs_at(h, n, pos));
        lemma_occurrences_first(h, n, pos + 1, q);
    }
}

/// With no occurrence at or after `pos`, the scan yields nothing.
pub(crate) proof fn lemma_occurrences_none(h: Seq<u8>, n: Seq<u8>, pos: int)
    requires
        0 <= pos,
        n.len() > 0,
        forall|j: int| pos <= j ==> !#[trigger] occurs_at(h, n, j),
    ensures
        occurrences_from(h, n, pos) == Seq::<int>::empty(),
    decreases h.len() - pos,
{
    if pos + n.len() <= h.len() {
        assert(!occurs_at(h, n, pos));
        lemma_occurrences_none(h, n, pos + 1);
    }
}

/// Every position the scan yields is an occurrence, in increasing order.
pub proof fn lemma_occurrences_are_matches(h: Seq<u8>, n: Seq<u8>, pos: int)
    ensures
        forall|k: int|
            0 <= k < occurrences_from(h, n, pos).len() ==> occurs_at(
                h,
                n,
                #[trigger] occurrences_from(h, n, pos)[k],
            ) && pos <= occurrences_from(h, n, pos)[k],
    decreases h.len() - pos,
{
    if pos < 0 || n.len() == 0 || pos + n.len() > h.len() {
    } else if occurs_at(h, n, pos) {
        lemma_occurrences_are_matches(h, n, pos + n.len());
        let rest = occurrences_from(h, n, pos + n.len());
        let all = occurrences_from(h, n, pos);
        assert(all == seq![pos] + rest);
        assert forall|k: int| 0 <= k < all.len() implies occurs_at(h, n, #[trigger] all[k]) && pos
            <= all[k] by {
            if k > 0 {
                assert(all[k] == rest[k - 1]);
            }
        }
    } else {
        lemma_occurrences_are_matches(h, n, pos + 1);
        assert(occurrences_from(h, n, pos) == occurrences_from(h, n, pos + 1));
    }
}

/// All leftmost non-overlapping occurrences of a non-empty `needle`, like
/// `memmem::find_iter`.
pub fn find_all(haystack: &[u8], needle: &[u8]) -> (r: Vec<usize>)
    requires
        needle@.len() > 0,
    ensures
        as_ints(r@) == occurrences(haystack@, needle@),
{
    let len = haystack.len();
    let mut out: Vec<usize> = Vec::new();
    let mut pos: usize = 0;
    while pos <= len
        invariant
            len == haystack@.len(),
            needle@.len() > 0,
            as_ints(out@) + occurrences_from(haystack@, needle@, pos as int) == occurrences(
                haystack@,
                needle@,
            ),
        decreases len + 1 - pos,
    {
        match find_from(haystack, pos, needle) {
            Some(i) => {
                proof {
                    lemma_occurrences_first(haystack@, needle@, pos as int, i as int);
                }
                let ghost before = out@;
                out.push(i);
                proof {
                    assert(as_ints(out@) =~= as_ints(before) + seq![i as int]);
                    assert(as_ints(out@) + occurrences_from(
                        haystack@,
                        needle@,
                        i + needle@.len(),
                    ) =~= as_ints(before) + occurrences_from(haystack@, needle@, pos as int));
                }
                pos = i + needle.len();
            },
            None => {
                proof {
                    lemma_occurrences_none(haystack@, needle@, pos as int);
                    assert(as_ints(out@) =~= as_ints(out@) + Seq::<int>::empty());
                }
                return out;
            },
        }
    }
    proof {
        assert(occurrences_from(haystack@, needle@, pos as int) == Seq::<int>::empty());
        assert(as_ints(out@) =~= as_ints(out@) + Seq::<int>::empty());
    }
    out
}

/// Position of the first occurrence of `n` in `h`, if any.
#[verifier::opaque]
pub open spec fn spec_find(h: Seq<u8>, n: Seq<u8>) -> Option<int> {
    if exists|i: int| occurs_at(h, n, i) {
        Some(choose|i: int| is_first_from(h, n, 0, i))
    } else {
        None
    }
}

proof fn lemma_first_exists(h: Seq<u8>, n: Seq<u8>, w: int)
    requires
        occurs_at(h, n, w),
    ensures
        exists|i: int| is_first_from(h, n, 0, i),
    decreases w,
{
    if exists|j: int| 0 <= j < w && occurs_at(h, n, j) {
        let j = choose|j: int| 0 <= j < w && occurs_at(h, n, j);
        lemma_first_exists(h, n, j);
    } else {
        assert(is_first_from(h, n, 0, w));
    }
}

/// The position [`spec_find`] gives is the first occurrence.
pub proof fn lemma_find_some(h: Seq<u8>, n: Seq<u8>)
    requires
        spec_find(h, n) is Some,
    ensures
        is_first_from(h, n, 0, spec_find(h, n)->Some_0),
{
    reveal(spec_find);
    let w = choose|i: int| occurs_at(h, n, i);
    lemma_first_exists(h, n, w);
}

/// Position of the last occurrence of `n` in `h`, if any.
#[verifier::opaque]
pub open spec fn spec_rfind(h: Seq<u8>, n: Seq<u8>) -> Option<int> {
    if exists|i: int| occurs_at(h, n, i) {
        Some(choose|i: int| occurs_at(h, n, i) && forall|j: int| i < j ==> !#[trigger] occurs_at(h, n, j))
    } else {
        None
    }
}

/// An optional position as an integer.
pub open spec fn opt_int(o: Option<usize>) -> Option<int> {
    match o {
        Some(i) => Some(i as int),
        None => None,
    }
}

proof fn lemma_first_unique(h: Seq<u8>, n: Seq<u8>, i: int, j: int)
    requires
        is_first_from(h, n, 0, i),
        is_first_from(h, n, 0, j),
    ensures
        i == j,
{
    if i < j {
        assert(!occurs_at(h, n, i));
    }
    if j < i {
        assert(!occurs_at(h, n, j));
    }
}

/// First occurrence of `needle` in `haystack`, as [`spec_find`] states it.
pub fn find_first(haystack: &[u8], needle: &[u8]) -> (r: Option<usize>)
    ensures
        opt_int(r) == spec_find(haystack@, needle@),
        r matches Some(i) ==> occurs_at(haystack@, needle@, i as int),
{
    let r = find(haystack, needle);
    proof {
        reveal(spec_find);
        match r {
            Some(i) => {
                let c = choose|k: int| is_first_from(haystack@, needle@, 0, k);
                assert(is_first_from(haystack@, needle@, 0, i as int));
                lemma_first_unique(haystack@, needle@, c, i as int);
            },
            None => {},
        }
    }
    r
}

/// Last occurrence of `needle` in `haystack`, as [`spec_rfind`] states it.
pub fn find_last(haystack: &[u8], needle: &[u8]) -> (r: Option<usize>)
    ensures
        opt_int(r) == spec_rfind(haystack@, needle@),
        r matches Some(i) ==> occurs_at(haystack@, needle@, i as int),
{
    let r = rfind(haystack, needle);
    proof {
        reveal(spec_rfind);
        match r {
            Some(i) => {
                let c = choose|k: int|
                    occurs_at(haystack@, needle@, k) && forall|j: int|
                        k < j ==> !#[trigger] occurs_at(haystack@, needle@, j);
                assert(occurs_at(haystack@, needle@, i as int));
                if c < i {
                    assert(!occurs_at(haystack@, needle@, i as int));
                }
                if i < c {
                    assert(!occurs_at(haystack@, needle@, c));
                }
            },
            None => {},
        }
    }
    r
}


/// The first occurrence stays first in any sequence that agrees with `h`
/// on every byte up to its end.
pub proof fn lemma_find_frame(h: Seq<u8>, h2: Seq<u8>, n: Seq<u8>, f: int)
    requires
        spec_find(h, n) == Some(f),
        f + n.len() <= h2.len(),
        forall|i: int| 0 <= i < f + n.len() ==> #[trigger] h2[i] == h[i],
    ensures
        spec_find(h2, n) == Some(f),
{
    lemma_find_some(h, n);
    assert(h2.subrange(f, f + n.len()) =~= h.subrange(f, f + n.len()));
    assert forall|j: int| 0 <= j < f implies !#[trigger] occurs_at(h2, n, j) by {
        if occurs_at(h2, n, j) {
            assert(h2.subrange(j, j + n.len()) =~= h.subrange(j, j + n.len()));
            assert(occurs_at(h, n, j));
        }
    }
    assert(is_first_from(h2, n, 0, f));
    reveal(spec_find);
    let c = choose|k: int| is_first_from(h2, n, 0, k);
    lemma_first_unique(h2, n, c, f);
}

/// A last occurrence exists at or after any occurrence `w`.
proof fn lemma_last_exists(h: Seq<u8>, n: Seq<u8>, w: int)
    requires
        occurs_at(h, n, w),
    ensures
        exists|i: int| occurs_at(h, n, i) && forall|j: int| i < j ==> !#[trigger] occurs_at(h, n, j),
    decreases h.len() - w,
{
    if exists|j: int| w < j && occurs_at(h, n, j) {
        let j = choose|j: int| w < j && occurs_at(h, n, j);
        lemma_last_exists(h, n, j);
    } else {
        assert(forall|j: int| w < j ==> !#[trigger] occurs_at(h, n, j));
    }
}

/// The position [`spec_rfind`] gives is the last occurrence.
pub proof fn lemma_rfind_some(h: Seq<u8>, n: Seq<u8>)
    requires
        spec_rfind(h, n) is Some,
    ensures
        occurs_at(h, n, spec_rfind(h, n)->Some_0),
        forall|j: int| spec_rfind(h, n)->Some_0 < j ==> !#[trigger] occurs_at(h, n, j),
{
    reveal(spec_rfind);
    let w = choose|i: int| occurs_at(h, n, i);
    lemma_last_exists(h, n, w);
}

/// The last occurrence stays last in any sequence of the same length that
/// agrees with `h` from its start on.
pub proof fn lemma_rfind_frame(h: Seq<u8>, h2: Seq<u8>, n: Seq<u8>, q: int)
    requires
        spec_rfind(h, n) == Some(q),
        h2.len() == h.len(),
        forall|i: int| q <= i < h.len() ==> #[trigger] h2[i] == h[i],
    ensures
        spec_rfind(h2, n) == Some(q),
{
    lemma_rfind_some(h, n);
    reveal(spec_rfind);
    assert(h2.subrange(q, q + n.len()) =~= h.subrange(q, q + n.len()));
    assert(occurs_at(h2, n, q));
    assert forall|j: int| q < j implies !#[trigger] occurs_at(h2, n, j) by {
        if occurs_at(h2, n, j) {
            assert(h2.subrange(j, j + n.len()) =~= h.subrange(j, j + n.len()));
            assert(occurs_at(h, n, j));
        }
    }
    let c = choose|k: int| occurs_at(h2, n, k) && forall|j: int| k < j ==> !#[trigger] occurs_at(h2, n, j);
    assert(occurs_at(h2, n, c) && forall|j: int| c < j ==> !#[trigger] occurs_at(h2, n, j));
    if c < q {
        assert(!occurs_at(h2, n, q));
    }
    if q < c {
        assert(!occurs_at(h2, n, c));
    }
}

/// Sequences of one length with the same occurrences at every position
/// yield the same scan.
pub proof fn lemma_occurrences_same(h: Seq<u8>, h2: Seq<u8>, n: Seq<u8>, pos: int)
    requires
        h2.len() == h.len(),
        forall|i: int| #[trigger] occurs_at(h, n, i) == occurs_at(h2, n, i),
    ensures
        occurrences_from(h2, n, pos) == occurrences_from(h, n, pos),
    decreases h.len() - pos,
{
    if pos < 0 || n.len() == 0 || pos + n.len() > h.len() {
    } else if occurs_at(h, n, pos) {
        lemma_occurrences_same(h, h2, n, pos + n.len());
    } else {
        lemma_occurrences_same(h, h2, n, pos + 1);
    }
}

/// The first occurrence stays first in a sequence of the same length
/// that differs from `h` only before it, between `lo` and `hi`, where the
/// new sequence has no occurrence that touches that stretch.
pub proof fn lemma_find_around(h: Seq<u8>, h2: Seq<u8>, n: Seq<u8>, p: int, lo: int, hi: int)
    requires
        spec_find(h, n) == Some(p),
        h2.len() == h.len(),
        hi <= p,
        forall|i: int| 0 <= i < h.len() && !(lo <= i < hi) ==> #[trigger] h2[i] == h[i],
        forall|i: int| i < hi && lo < i + n.len() ==> !#[trigger] occurs_at(h2, n, i),
    ensures
        spec_find(h2, n) == Some(p),
{
    lemma_find_some(h, n);
    assert(h2.subrange(p, p + n.len()) =~= h.subrange(p, p + n.len()));
    assert forall|j: int| 0 <= j < p implies !#[trigger] occurs_at(h2, n, j) by {
        if occurs_at(h2, n, j) && !(j < hi && lo < j + n.len()) {
            assert(h2.subrange(j, j + n.len()) =~= h.subrange(j, j + n.len()));
            assert(occurs_at(h, n, j));
        }
    }
    assert(is_first_from(h2, n, 0, p));
    reveal(spec_find);
    let c = choose|k: int| is_first_from(h2, n, 0, k);
    lemma_first_unique(h2, n, c, p);
}

/// Positions moved right by `d`.
pub open spec fn shifted(q: Seq<int>, d: int) -> Seq<int> {
    q.map_values(|i: int| i + d)
}

/// Scanning `x + y` from a position in `y` finds the occurrences of `y`,
/// moved by the length of `x`.
pub proof fn lemma_occurrences_suffix(x: Seq<u8>, y: Seq<u8>, n: Seq<u8>, q: int)
    requires
        0 <= q,
    ensures
        occurrences_from(x + y, n, x.len() + q) == shifted(occurrences_from(y, n, q), x.len() as int),
    decreases y.len() - q,
{
    let h = x + y;
    let d = x.len() as int;
    if n.len() == 0 || q + n.len() > y.len() {
        assert(shifted(Seq::<int>::empty(), d) =~= Seq::<int>::empty());
    } else {
        assert(h.subrange(d + q, d + q + n.len()) =~= y.subrange(q, q + n.len()));
        if occurs_at(y, n, q) {
            lemma_occurrences_suffix(x, y, n, q + n.len());
            let rest = occurrences_from(y, n, q + n.len());
            assert(shifted(seq![q] + rest, d) =~= seq![d + q] + shifted(rest, d));
        } else {
            lemma_occurrences_suffix(x, y, n, q + 1);
        }
    }
}

/// When no occurrence straddles the end of `x`, scanning `x + y` finds the
/// occurrences in `x`, then those of `y` moved by the length of `x`.
pub proof fn lemma_occurrences_concat(x: Seq<u8>, y: Seq<u8>, n: Seq<u8>, pos: int)
    requires
        0 <= pos <= x.len(),
        n.len() > 0,
        forall|s: int| x.len() - n.len() < s < x.len() ==> !#[trigger] occurs_at(x + y, n, s),
    ensures
        occurrences_from(x + y, n, pos) == occurrences_from(x, n, pos) + shifted(
            occurrences(y, n),
            x.len() as int,
        ),
    decreases x.len() - pos,
{
    let h = x + y;
    let d = x.len() as int;
    if pos == d {
        lemma_occurrences_suffix(x, y, n, 0);
        assert(occurrences_from(x, n, pos) =~= Seq::<int>::empty());
        assert(Seq::<int>::empty() + shifted(occurrences(y, n), d) =~= shifted(occurrences(y, n), d));
    } else if pos + n.len() > d {
        assert(!occurs_at(h, n, pos));
        lemma_occurrences_concat(x, y, n, pos + 1);
        assert(occurrences_from(x, n, pos) =~= Seq::<int>::empty());
        assert(occurrences_from(x, n, pos + 1) =~= Seq::<int>::empty());
    } else {
        assert(h.subrange(pos, pos + n.len()) =~= x.subrange(pos, pos + n.len()));
        if occurs_at(x, n, pos) {
            lemma_occurrences_concat(x, y, n, pos + n.len());
            let rest = occurrences_from(x, n, pos + n.len());
            assert(seq![pos] + (rest + shifted(occurrences(y, n), d)) =~= (seq![pos] + rest)
                + shifted(occurrences(y, n), d));
        } else {
            lemma_occurrences_concat(x, y, n, pos + 1);
        }
    }
}

/// A first occurrence is what [`spec_find`] gives.
pub proof fn lemma_find_is(h: Seq<u8>, n: Seq<u8>, f: int)
    requires
        is_first_from(h, n, 0, f),
    ensures
        spec_find(h, n) == Some(f),
{
    reveal(spec_find);
    let c = choose|k: int| is_first_from(h, n, 0, k);
    lemma_first_unique(h, n, c, f);
}

/// The last occurrence stays last, moved, in a sequence whose tail from
/// the moved position holds the same bytes as `h` from the occurrence on.
pub proof fn lemma_rfind_moved(h: Seq<u8>, h2: Seq<u8>, n: Seq<u8>, q: int, q2: int)
    requires
        spec_rfind(h, n) == Some(q),
        0 <= q2,
        h2.len() - q2 == h.len() - q,
        forall|k: int| 0 <= k < h.len() - q ==> #[trigger] h2[q2 + k] == h[q + k],
    ensures
        spec_rfind(h2, n) == Some(q2),
{
    lemma_rfind_some(h, n);
    reveal(spec_rfind);
    assert(h2.subrange(q2, q2 + n.len()) =~= h.subrange(q, q + n.len())) by {
        assert forall|k: int| 0 <= k < n.len() implies #[trigger] h2.subrange(q2, q2 + n.len())[k]
            == h.subrange(q, q + n.len())[k] by {
            assert(h2[q2 + k] == h[q + k]);
        }
    }
    assert(occurs_at(h2, n, q2));
    assert forall|j: int| q2 < j implies !#[trigger] occurs_at(h2, n, j) by {
        if occurs_at(h2, n, j) {
            let j0 = q + (j - q2);
            assert(h2.subrange(j, j + n.len()) =~= h.subrange(j0, j0 + n.len())) by {
                assert forall|k: int| 0 <= k < n.len() implies #[trigger] h2.subrange(j, j + n.len())[k]
                    == h.subrange(j0, j0 + n.len())[k] by {
                    assert(h2[q2 + (j - q2 + k)] == h[q + (j - q2 + k)]);
                }
            }
            assert(occurs_at(h, n, j0));
        }
    }
    let c = choose|k: int| occurs_at(h2, n, k) && forall|j: int| k < j ==> !#[trigger] occurs_at(h2, n, j);
    assert(occurs_at(h2, n, c) && forall|j: int| c < j ==> !#[trigger] occurs_at(h2, n, j));
    if c < q2 {
        assert(!occurs_at(h2, n, q2));
    }
    if q2 < c {
        assert(!occurs_at(h2, n, c));
    }
}

} // verus!
