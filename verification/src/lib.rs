//! Sets of `u64` values stored as sorted, disjoint, maximally-coalesced
//! half-open ranges.
//!
//! A set is held as an ordered list of `(start, end)` pairs, each standing for
//! the half-open interval `[start, end)`, together with a cached element
//! count.  The single mutation primitive, [`internal_add`], inserts an
//! interval and merges every range it overlaps or touches, so the list stays
//! maximally coalesced.  [`merge`] holds the lazy combinators over streams of
//! closed-inclusive ranges, and [`from_slice_iter`] compresses a sorted slice
//! of values into maximal consecutive runs.

use vstd::prelude::*;

pub mod from_slice_iter;
pub mod laws;
pub mod merge;

verus! {

/// The ranges are non-empty, sorted by start, pairwise non-overlapping and
/// non-adjacent: the canonical, maximally-coalesced form.
pub open spec fn coalesced(s: Seq<(u64, u64)>) -> bool {
    &&& forall|i: int| 0 <= i < s.len() ==> (#[trigger] s[i]).0 < s[i].1
    &&& forall|i: int|
        #![trigger s[i], s[i + 1]]
        0 <= i < s.len() - 1 ==> s[i].1 < s[i + 1].0
}

/// `v` lies inside one of the half-open ranges of `s`.
pub open spec fn covers(s: Seq<(u64, u64)>, v: int) -> bool {
    exists|i: int| 0 <= i < s.len() && (#[trigger] s[i]).0 <= v < s[i].1
}

/// The sum of the spans of all ranges: the number of elements a coalesced
/// list holds.
pub open spec fn total(s: Seq<(u64, u64)>) -> int
    decreases s.len(),
{
    if s.len() == 0 {
        0
    } else {
        total(s.drop_last()) + s.last().1 - s.last().0
    }
}

/// In a coalesced list the ranges are ordered as whole intervals: every range
/// ends strictly before a later one starts.
pub proof fn lemma_coalesced_ordering(s: Seq<(u64, u64)>)
    requires
        coalesced(s),
    ensures
        forall|i: int, j: int| 0 <= i < j < s.len() ==> (#[trigger] s[i]).1 < (#[trigger] s[j]).0,
{
    assert forall|i: int, j: int| 0 <= i < j < s.len() implies (#[trigger] s[i]).1 < (
    #[trigger] s[j]).0 by {
        lemma_range_end_before_start(s, i, j);
    }
}

proof fn lemma_range_end_before_start(s: Seq<(u64, u64)>, i: int, j: int)
    requires
        coalesced(s),
        0 <= i < j < s.len(),
    ensures
        s[i].1 < s[j].0,
    decreases j - i,
{
    if i + 1 < j {
        lemma_range_end_before_start(s, i, j - 1);
        assert(s[j - 1].1 < s[j - 1 + 1].0);
    } else {
        assert(s[i].1 < s[i + 1].0);
    }
}

/// `total` splits over concatenation.
pub proof fn lemma_total_concat(a: Seq<(u64, u64)>, b: Seq<(u64, u64)>)
    ensures
        total(a + b) == total(a) + total(b),
    decreases b.len(),
{
    if b.len() == 0 {
        assert(a + b =~= a);
    } else {
        lemma_total_concat(a, b.drop_last());
        assert((a + b).drop_last() =~= a + b.drop_last());
        assert((a + b).last() == b.last());
    }
}

/// `total` splits at any index.
pub proof fn lemma_total_split(s: Seq<(u64, u64)>, k: int)
    requires
        0 <= k <= s.len(),
    ensures
        total(s) == total(s.subrange(0, k)) + total(s.subrange(k, s.len() as int)),
{
    lemma_total_concat(s.subrange(0, k), s.subrange(k, s.len() as int));
    assert(s.subrange(0, k) + s.subrange(k, s.len() as int) =~= s);
}

/// `total` of a single range is its span.
pub proof fn lemma_total_singleton(r: (u64, u64))
    ensures
        total(seq![r]) == r.1 - r.0,
{
    let s = seq![r];
    assert(s.drop_last() =~= Seq::<(u64, u64)>::empty());
    assert(total(Seq::<(u64, u64)>::empty()) == 0);
    assert(total(s) == total(s.drop_last()) + s.last().1 - s.last().0);
}

/// With every span positive, `total` dominates the span at `p` plus the
/// sum over any block of later ranges.
pub proof fn lemma_total_partial(s: Seq<(u64, u64)>, p: int, j: int)
    requires
        forall|i: int| 0 <= i < s.len() ==> (#[trigger] s[i]).0 < s[i].1,
        0 <= p < j <= s.len(),
    ensures
        total(s) >= (s[p].1 - s[p].0) + total(s.subrange(p + 1, j)),
        total(s.subrange(p + 1, j)) >= 0,
{
    lemma_total_split(s, p);
    let tail = s.subrange(p, s.len() as int);
    lemma_total_split(tail, 1);
    assert(tail.subrange(0, 1) =~= seq![s[p]]);
    lemma_total_singleton(s[p]);
    assert(tail.subrange(1, tail.len() as int) =~= s.subrange(p + 1, s.len() as int));
    lemma_total_split(s.subrange(p + 1, s.len() as int), j - (p + 1));
    assert(s.subrange(p + 1, s.len() as int).subrange(0, j - (p + 1)) =~= s.subrange(p + 1, j));
    assert(s.subrange(p + 1, s.len() as int).subrange(j - (p + 1), s.len() - (p + 1))
        =~= s.subrange(j, s.len() as int));
    lemma_total_nonneg(s.subrange(0, p));
    lemma_total_nonneg(s.subrange(p + 1, j));
    lemma_total_nonneg(s.subrange(j, s.len() as int));
}

/// With every span positive, `total` is non-negative.
pub proof fn lemma_total_nonneg(s: Seq<(u64, u64)>)
    requires
        forall|i: int| 0 <= i < s.len() ==> (#[trigger] s[i]).0 < s[i].1,
    ensures
        total(s) >= 0,
    decreases s.len(),
{
    if s.len() > 0 {
        lemma_total_nonneg(s.drop_last());
    }
}

/// A coalesced list never holds more elements than the interval from its
/// first start to its last end, so the cached count fits in `u64`.
pub proof fn lemma_total_bound(s: Seq<(u64, u64)>)
    requires
        coalesced(s),
    ensures
        s.len() > 0 ==> total(s) <= s.last().1 - s[0].0,
        total(s) <= u64::MAX,
    decreases s.len(),
{
    if s.len() > 0 {
        let d = s.drop_last();
        assert(coalesced(d));
        lemma_total_bound(d);
        lemma_total_nonneg(d);
        if d.len() > 0 {
            assert(d.last() == s[s.len() - 2]);
            assert(s[s.len() - 2].1 < s[s.len() - 2 + 1].0);
            assert(d.last().1 < s.last().0);
        }
    }
}

/// Strictly increasing starts between neighbours order all starts.
pub proof fn lemma_starts_ordering(s: Seq<(u64, u64)>)
    requires
        forall|i: int|
            #![trigger s[i], s[i + 1]]
            0 <= i < s.len() - 1 ==> s[i].0 < s[i + 1].0,
    ensures
        forall|i: int, j: int| 0 <= i < j < s.len() ==> (#[trigger] s[i]).0 < (#[trigger] s[j]).0,
{
    assert forall|i: int, j: int| 0 <= i < j < s.len() implies (#[trigger] s[i]).0 < (
    #[trigger] s[j]).0 by {
        lemma_start_before_start(s, i, j);
    }
}

proof fn lemma_start_before_start(s: Seq<(u64, u64)>, i: int, j: int)
    requires
        forall|i: int|
            #![trigger s[i], s[i + 1]]
            0 <= i < s.len() - 1 ==> s[i].0 < s[i + 1].0,
        0 <= i < j < s.len(),
    ensures
        s[i].0 < s[j].0,
    decreases j - i,
{
    if i + 1 < j {
        lemma_start_before_start(s, i, j - 1);
        assert(s[j - 1].0 < s[j - 1 + 1].0);
    } else {
        assert(s[i].0 < s[i + 1].0);
    }
}

/// Coverage distributes over concatenation.
pub proof fn lemma_covers_concat(a: Seq<(u64, u64)>, b: Seq<(u64, u64)>, v: int)
    ensures
        covers(a + b, v) <==> covers(a, v) || covers(b, v),
{
    let n = a.len() as int;
    if covers(a + b, v) {
        let i = choose|i: int| 0 <= i < (a + b).len() && (#[trigger] (a + b)[i]).0 <= v < (a
            + b)[i].1;
        if i < n {
            assert(a[i] == (a + b)[i]);
        } else {
            assert(b[i - n] == (a + b)[i]);
        }
    }
    if covers(a, v) {
        let i = choose|i: int| 0 <= i < a.len() && (#[trigger] a[i]).0 <= v < a[i].1;
        assert((a + b)[i] == a[i]);
    }
    if covers(b, v) {
        let i = choose|i: int| 0 <= i < b.len() && (#[trigger] b[i]).0 <= v < b[i].1;
        assert((a + b)[n + i] == b[i]);
    }
}

/// The shape the list has in the middle of an insertion: every invariant of
/// `coalesced` except that the range at `p` may overlap or touch its
/// successors.
pub open spec fn almost_coalesced_at(s: Seq<(u64, u64)>, p: int) -> bool {
    &&& forall|i: int| 0 <= i < s.len() ==> (#[trigger] s[i]).0 < s[i].1
    &&& forall|i: int|
        #![trigger s[i], s[i + 1]]
        0 <= i < s.len() - 1 ==> s[i].0 < s[i + 1].0
    &&& forall|i: int|
        #![trigger s[i], s[i + 1]]
        0 <= i < s.len() - 1 && i != p ==> s[i].1 < s[i + 1].0
}

/// Binary search: the greatest index whose range starts at or before `key`,
/// or `None` if every range starts after `key`.
fn find_le(items: &Vec<(u64, u64)>, key: u64) -> (r: Option<usize>)
    requires
        forall|i: int|
            #![trigger items@[i], items@[i + 1]]
            0 <= i < items@.len() - 1 ==> items@[i].0 < items@[i + 1].0,
    ensures
        match r {
            None => forall|i: int| 0 <= i < items@.len() ==> (#[trigger] items@[i]).0 > key,
            Some(p) => p < items@.len() && items@[p as int].0 <= key && forall|j: int|
                p < j < items@.len() ==> (#[trigger] items@[j]).0 > key,
        },
{
    proof {
        lemma_starts_ordering(items@);
    }
    let mut lo: usize = 0;
    let mut hi: usize = items.len();
    while lo < hi
        invariant
            lo <= hi <= items@.len(),
            lo > 0 ==> items@[lo - 1].0 <= key,
            hi < items@.len() ==> items@[hi as int].0 > key,
            forall|i: int, j: int|
                0 <= i < j < items@.len() ==> (#[trigger] items@[i]).0 < (#[trigger] items@[j]).0,
            forall|i: int|
                #![trigger items@[i], items@[i + 1]]
                0 <= i < items@.len() - 1 ==> items@[i].0 < items@[i + 1].0,
        decreases hi - lo,
    {
        let mid = lo + (hi - lo) / 2;
        if items[mid].0 <= key {
            lo = mid + 1;
        } else {
            hi = mid;
        }
    }
    if lo == 0 {
        None
    } else {
        Some(lo - 1)
    }
}

/// After the absorb scan stops at `j`, replacing the ranges `p..j` by the
/// single widened range `(s0[p].0, end_new)` restores the coalesced
/// invariant, keeps the covered values unchanged, and changes the element
/// count by the widening minus the absorbed spans.
#[verifier::rlimit(60)]
proof fn lemma_absorb(s0: Seq<(u64, u64)>, p: int, j: int, end_new: u64)
    requires
        0 <= p < j <= s0.len(),
        almost_coalesced_at(s0, p),
        forall|i: int| p < i < j ==> (#[trigger] s0[i]).0 <= s0[p].1,
        forall|i: int| p < i < j ==> (#[trigger] s0[i]).1 <= end_new,
        s0[p].1 <= end_new,
        j == p + 1 ==> end_new == s0[p].1,
        j > p + 1 ==> end_new == if s0[j - 1].1 > s0[p].1 {
            s0[j - 1].1
        } else {
            s0[p].1
        },
        j < s0.len() ==> s0[j].0 > s0[p].1,
        forall|v: int|
            (s0[p].0 <= v < end_new) <==> (s0[p].0 <= v < s0[p].1) || #[trigger] covers(
                s0.subrange(p + 1, j),
                v,
            ),
    ensures
        coalesced(s0.subrange(0, p) + seq![(s0[p].0, end_new)] + s0.subrange(j, s0.len() as int)),
        total(s0.subrange(0, p) + seq![(s0[p].0, end_new)] + s0.subrange(j, s0.len() as int))
            == total(s0) - total(s0.subrange(p + 1, j)) + (end_new - s0[p].1),
        total(s0.subrange(0, p) + seq![(s0[p].0, end_new)] + s0.subrange(j, s0.len() as int))
            <= u64::MAX,
        forall|v: int|
            covers(
                s0.subrange(0, p) + seq![(s0[p].0, end_new)] + s0.subrange(j, s0.len() as int),
                v,
            ) <==> covers(s0, v),
{
    lemma_absorb_coalesced(s0, p, j, end_new);
    lemma_absorb_total(s0, p, j, end_new);
    lemma_absorb_covers(s0, p, j, end_new);
}

/// The coalesced shape of the list after the absorb step.
#[verifier::rlimit(100)]
proof fn lemma_absorb_coalesced(s0: Seq<(u64, u64)>, p: int, j: int, end_new: u64)
    requires
        0 <= p < j <= s0.len(),
        almost_coalesced_at(s0, p),
        forall|i: int| p < i < j ==> (#[trigger] s0[i]).1 <= end_new,
        s0[p].1 <= end_new,
        j == p + 1 ==> end_new == s0[p].1,
        j > p + 1 ==> end_new == if s0[j - 1].1 > s0[p].1 {
            s0[j - 1].1
        } else {
            s0[p].1
        },
        j < s0.len() ==> s0[j].0 > s0[p].1,
    ensures
        coalesced(s0.subrange(0, p) + seq![(s0[p].0, end_new)] + s0.subrange(j, s0.len() as int)),
{
    let n = s0.len() as int;
    let mid = (s0[p].0, end_new);
    let sfin = s0.subrange(0, p) + seq![mid] + s0.subrange(j, n);
    if j < n {
        if j > p + 1 {
            assert(s0[j - 1].1 < s0[j - 1 + 1].0);
            assert(s0[j - 1].1 < s0[j].0);
        }
        assert(end_new < s0[j].0);
    }
    assert(sfin.len() == p + 1 + (n - j));
    assert forall|i: int| 0 <= i < p implies sfin[i] == s0[i] by {}
    assert(sfin[p] == mid);
    assert forall|i: int| p < i < sfin.len() implies sfin[i] == s0[i + j - p - 1] by {}
    assert forall|i: int| 0 <= i < sfin.len() implies (#[trigger] sfin[i]).0 < sfin[i].1 by {
        if p < i {
            assert(sfin[i] == s0[i + j - p - 1]);
            assert(s0[i + j - p - 1].0 < s0[i + j - p - 1].1);
        }
    }
    assert forall|i: int| 0 <= i < sfin.len() - 1 implies (#[trigger] sfin[i]).1 < sfin[i + 1].0 by {
        if i < p - 1 {
            assert(s0[i].1 < s0[i + 1].0);
        } else if i == p - 1 {
            assert(s0[p - 1].1 < s0[p - 1 + 1].0);
            assert(s0[p - 1].1 < s0[p].0);
        } else if i == p {
            assert(sfin[i + 1] == s0[j]);
        } else {
            assert(sfin[i] == s0[i + j - p - 1] && sfin[i + 1] == s0[i + j - p]);
            assert(s0[i + j - p - 1].1 < s0[i + j - p - 1 + 1].0);
            assert(s0[i + j - p - 1].1 < s0[i + j - p].0);
        }
    }
}

/// The element count of the list after the absorb step.
#[verifier::rlimit(60)]
proof fn lemma_absorb_total(s0: Seq<(u64, u64)>, p: int, j: int, end_new: u64)
    requires
        0 <= p < j <= s0.len(),
        almost_coalesced_at(s0, p),
        forall|i: int| p < i < j ==> (#[trigger] s0[i]).1 <= end_new,
        s0[p].1 <= end_new,
        j == p + 1 ==> end_new == s0[p].1,
        j > p + 1 ==> end_new == if s0[j - 1].1 > s0[p].1 {
            s0[j - 1].1
        } else {
            s0[p].1
        },
        j < s0.len() ==> s0[j].0 > s0[p].1,
    ensures
        total(s0.subrange(0, p) + seq![(s0[p].0, end_new)] + s0.subrange(j, s0.len() as int))
            == total(s0) - total(s0.subrange(p + 1, j)) + (end_new - s0[p].1),
        total(s0.subrange(0, p) + seq![(s0[p].0, end_new)] + s0.subrange(j, s0.len() as int))
            <= u64::MAX,
{
    let n = s0.len() as int;
    let mid = (s0[p].0, end_new);
    let sfin = s0.subrange(0, p) + seq![mid] + s0.subrange(j, n);
    lemma_absorb_coalesced(s0, p, j, end_new);
    lemma_total_bound(sfin);
    lemma_total_concat(s0.subrange(0, p) + seq![mid], s0.subrange(j, n));
    lemma_total_concat(s0.subrange(0, p), seq![mid]);
    lemma_total_singleton(mid);
    lemma_total_split(s0, p);
    lemma_total_split(s0.subrange(p, n), 1);
    assert(s0.subrange(p, n).subrange(0, 1) =~= seq![s0[p]]);
    assert(s0.subrange(p, n).subrange(1, n - p) =~= s0.subrange(p + 1, n));
    lemma_total_split(s0.subrange(p + 1, n), j - (p + 1));
    assert(s0.subrange(p + 1, n).subrange(0, j - (p + 1)) =~= s0.subrange(p + 1, j));
    assert(s0.subrange(p + 1, n).subrange(j - (p + 1), n - (p + 1)) =~= s0.subrange(j, n));
    lemma_total_singleton(s0[p]);
}

/// The absorb step does not change which values are covered.
#[verifier::rlimit(60)]
proof fn lemma_absorb_covers(s0: Seq<(u64, u64)>, p: int, j: int, end_new: u64)
    requires
        0 <= p < j <= s0.len(),
        almost_coalesced_at(s0, p),
        forall|v: int|
            (s0[p].0 <= v < end_new) <==> (s0[p].0 <= v < s0[p].1) || #[trigger] covers(
                s0.subrange(p + 1, j),
                v,
            ),
    ensures
        forall|v: int|
            covers(
                s0.subrange(0, p) + seq![(s0[p].0, end_new)] + s0.subrange(j, s0.len() as int),
                v,
            ) <==> covers(s0, v),
{
    let n = s0.len() as int;
    let start = s0[p].0;
    let end = s0[p].1;
    let mid = (start, end_new);
    let sfin = s0.subrange(0, p) + seq![mid] + s0.subrange(j, n);
    assert forall|v: int| covers(sfin, v) <==> covers(s0, v) by {
        lemma_covers_concat(s0.subrange(0, p) + seq![mid], s0.subrange(j, n), v);
        lemma_covers_concat(s0.subrange(0, p), seq![mid], v);
        assert(seq![mid][0] == mid);
        assert(seq![s0[p]][0] == s0[p]);
        assert(covers(seq![mid], v) == (start <= v < end_new));
        assert(s0 =~= (s0.subrange(0, p) + seq![s0[p]]) + (s0.subrange(p + 1, j) + s0.subrange(
            j,
            n,
        )));
        lemma_covers_concat(
            s0.subrange(0, p) + seq![s0[p]],
            s0.subrange(p + 1, j) + s0.subrange(j, n),
            v,
        );
        lemma_covers_concat(s0.subrange(0, p), seq![s0[p]], v);
        lemma_covers_concat(s0.subrange(p + 1, j), s0.subrange(j, n), v);
        assert(covers(seq![s0[p]], v) == (start <= v < end));
    }
}

/// The absorb step: the range `(start, end)` was just placed or widened at
/// ghost index `p` and may overlap or touch its successors.  Fold every such
/// successor into it, keeping the cached count in step, and restore the
/// coalesced invariant.  The set of covered values does not change.
#[verifier::rlimit(100)]
fn delete_extra(items: &mut Vec<(u64, u64)>, len: &mut u64, start: u64, end: u64, p: Ghost<int>)
    requires
        start < end,
        0 <= p@ < old(items)@.len(),
        old(items)@[p@] == (start, end),
        almost_coalesced_at(old(items)@, p@),
        total(old(items)@) - (end - start) <= *old(len) <= total(old(items)@),
    ensures
        coalesced(final(items)@),
        forall|v: int| covers(final(items)@, v) <==> covers(old(items)@, v),
        *final(len) as int == *old(len) + total(final(items)@) - total(old(items)@),
{
    let ghost s0 = items@;
    let ghost len0 = *len as int;
    let n = items.len();
    proof {
        assert forall|i: int|
            #![trigger s0[i], s0[i + 1]]
            0 <= i < s0.len() - 1 implies s0[i].0 < s0[i + 1].0 by {}
    }
    let found = find_le(items, start);
    let pi = found.unwrap();
    proof {
        // `p` is the unique index whose start equals `start`, so the search found it.
        assert(s0[p@].0 == start);
        if p@ < pi as int {
            lemma_start_before_start(s0, p@, pi as int);
        }
        assert(pi as int == p@);
    }
    let mut end_new: u64 = end;
    let mut j: usize = pi + 1;
    while j < n && items[j].0 <= end
        invariant
            items@ == s0,
            n == s0.len(),
            0 <= p@ < s0.len(),
            pi as int == p@,
            s0[p@] == (start, end),
            start < end,
            almost_coalesced_at(s0, p@),
            total(s0) - (end - start) <= len0 <= total(s0),
            pi < j <= n,
            forall|i: int| p@ < i < j ==> (#[trigger] s0[i]).0 <= end,
            end <= end_new,
            j == p@ + 1 ==> end_new == end,
            j > p@ + 1 ==> end_new == if s0[j - 1].1 > end {
                s0[j - 1].1
            } else {
                end
            },
            forall|i: int| p@ < i < j ==> (#[trigger] s0[i]).1 <= end_new,
            forall|v: int|
                (start <= v < end_new) <==> (start <= v < end) || #[trigger] covers(
                    s0.subrange(p@ + 1, j as int),
                    v,
                ),
            *len as int == len0 - total(s0.subrange(p@ + 1, j as int)),
        decreases n - j,
    {
        let span_start = items[j].0;
        let span_end = items[j].1;
        let ghost old_end_new = end_new;
        proof {
            if j > pi + 1 {
                assert(s0[j - 1].1 < s0[j - 1 + 1].0);
            }
            let pre = s0.subrange(p@ + 1, j as int);
            let post = s0.subrange(p@ + 1, j + 1 as int);
            assert(post.drop_last() =~= pre);
            assert(post.last() == s0[j as int]);
            assert(total(post) == total(pre) + (s0[j as int].1 - s0[j as int].0));
            // No underflow: the spans not yet absorbed are still counted in `len`.
            lemma_total_partial(s0, p@, j + 1);
        }
        *len = *len - (span_end - span_start);
        if span_end > end_new {
            end_new = span_end;
        }
        j += 1;
        proof {
            let pre = s0.subrange(p@ + 1, j - 1 as int);
            let post = s0.subrange(p@ + 1, j as int);
            assert(post =~= pre + seq![s0[j - 1]]);
            lemma_starts_ordering(s0);
            assert forall|v: int|
                (start <= v < end_new) <==> (start <= v < end) || #[trigger] covers(
                    post,
                    v,
                ) by {
                lemma_covers_concat(pre, seq![s0[j - 1]], v);
                assert(covers(seq![s0[j - 1]], v) == (span_start <= v < span_end));
                assert((start <= v < old_end_new) <==> (start <= v < end) || covers(pre, v));
            }
        }
    }
    // Every successor from `j` on starts after `end`, and therefore after
    // `end_new`: the coalesced list keeps ranges `0..=p`, widened to
    // `end_new`, and `j..`.
    let ghost mid = (start, end_new);
    let ghost sfin = s0.subrange(0, p@) + seq![mid] + s0.subrange(j as int, n as int);
    proof {
        lemma_absorb(s0, p@, j as int, end_new);
    }
    if end_new > end {
        proof {
            assert(*len + (end_new - end) == len0 + total(sfin) - total(s0));
            lemma_total_nonneg(s0.subrange(p@ + 1, j as int));
        }
        *len = *len + (end_new - end);
        let widened = items[pi];
        items[pi] = (widened.0, end_new);
    }
    let ghost s1 = if end_new > end {
        s0.update(p@, mid)
    } else {
        s0
    };
    proof {
        assert(items@ == s1);
        if !(end_new > end) {
            assert(s0[p@] == mid);
            assert(s1.update(p@, mid) =~= s1);
        }
    }
    // Remove the absorbed entries.
    let count = j - pi - 1;
    let mut removed: usize = 0;
    while removed < count
        invariant
            0 <= p@ < s1.len(),
            pi as int == p@,
            count == j - pi - 1,
            pi < j <= n,
            n == s1.len(),
            removed <= count,
            items@ == s1.subrange(0, p@ + 1) + s1.subrange(p@ + 1 + removed, n as int),
        decreases count - removed,
    {
        proof {
            assert(items@.len() == n - removed);
        }
        items.remove(pi + 1);
        proof {
            let before = s1.subrange(0, p@ + 1) + s1.subrange(p@ + 1 + removed, n as int);
            assert(items@ =~= s1.subrange(0, p@ + 1) + s1.subrange(p@ + 2 + removed, n as int));
        }
        removed += 1;
    }
    proof {
        assert(items@ =~= sfin) by {
            assert(items@ == s1.subrange(0, p@ + 1) + s1.subrange(j as int, n as int));
            assert(s1.subrange(0, p@ + 1) =~= s0.subrange(0, p@) + seq![mid]);
            assert(s1.subrange(j as int, n as int) =~= s0.subrange(j as int, n as int));
            assert(s1.subrange(0, p@ + 1) + s1.subrange(j as int, n as int) =~= sfin);
        }
    }
}

/// Placing a new range at `pos` in a coalesced list whose earlier ranges all
/// end strictly before `start` gives an almost-coalesced list that covers the
/// old values plus `[start, end)`.
#[verifier::rlimit(60)]
proof fn lemma_insert_shape(s0: Seq<(u64, u64)>, pos: int, start: u64, end: u64)
    requires
        coalesced(s0),
        start < end,
        0 <= pos <= s0.len(),
        forall|i: int|
            0 <= i < s0.len() && (#[trigger] s0[i]).0 <= start ==> s0[i].1 < start,
        pos > 0 ==> s0[pos - 1].0 <= start,
        pos < s0.len() ==> s0[pos].0 > start,
    ensures
        almost_coalesced_at(s0.insert(pos, (start, end)), pos),
        s0.insert(pos, (start, end))[pos] == (start, end),
        total(s0.insert(pos, (start, end))) == total(s0) + (end - start),
        forall|v: int|
            covers(s0.insert(pos, (start, end)), v) <==> covers(s0, v) || (start <= v < end),
{
    let n = s0.len() as int;
    let x = (start, end);
    let s1 = s0.insert(pos, x);
    assert(s1 =~= s0.subrange(0, pos) + seq![x] + s0.subrange(pos, n));
    assert forall|i: int| 0 <= i < s1.len() implies (#[trigger] s1[i]).0 < s1[i].1 by {
        if i < pos {
            assert(s1[i] == s0[i]);
        } else if i == pos {
            assert(s1[i] == x);
        } else {
            assert(s1[i] == s0[i - 1]);
        }
    }
    assert forall|i: int| 0 <= i < s1.len() - 1 implies (#[trigger] s1[i]).0 < s1[i + 1].0 && (i
        != pos ==> s1[i].1 < s1[i + 1].0) by {
        if i < pos - 1 {
            assert(s1[i] == s0[i] && s1[i + 1] == s0[i + 1]);
            assert(s0[i].1 < s0[i + 1].0);
        } else if i == pos - 1 {
            assert(s1[i] == s0[i] && s1[i + 1] == x);
            assert(s0[i].1 < start);
        } else if i == pos {
            assert(s1[i] == x && s1[i + 1] == s0[i]);
        } else {
            assert(s1[i] == s0[i - 1] && s1[i + 1] == s0[i]);
            assert(s0[i - 1].1 < s0[i - 1 + 1].0);
        }
    }
    lemma_total_concat(s0.subrange(0, pos) + seq![x], s0.subrange(pos, n));
    lemma_total_concat(s0.subrange(0, pos), seq![x]);
    lemma_total_singleton(x);
    lemma_total_split(s0, pos);
    assert forall|v: int| covers(s1, v) <==> covers(s0, v) || (start <= v < end) by {
        lemma_covers_concat(s0.subrange(0, pos) + seq![x], s0.subrange(pos, n), v);
        lemma_covers_concat(s0.subrange(0, pos), seq![x], v);
        assert(seq![x][0] == x);
        assert(covers(seq![x], v) == (start <= v < end));
        assert(s0 =~= s0.subrange(0, pos) + s0.subrange(pos, n));
        lemma_covers_concat(s0.subrange(0, pos), s0.subrange(pos, n), v);
    }
}

/// Place `(start, end)` as a new entry in the list, then absorb the
/// successors it overlaps or touches.  The caller must have checked that no
/// existing range overlaps `start` from the left.
#[verifier::rlimit(100)]
fn insert(items: &mut Vec<(u64, u64)>, len: &mut u64, start: u64, end: u64)
    requires
        start < end,
        coalesced(old(items)@),
        *old(len) as int == total(old(items)@),
        forall|i: int|
            0 <= i < old(items)@.len() && (#[trigger] old(items)@[i]).0 <= start ==> old(
                items,
            )@[i].1 < start,
    ensures
        coalesced(final(items)@),
        forall|v: int|
            covers(final(items)@, v) <==> covers(old(items)@, v) || (start <= v < end),
        *final(len) as int == *old(len) + total(final(items)@) - total(old(items)@) - (end
            - start),
{
    let ghost s0 = items@;
    proof {
        assert forall|i: int|
            #![trigger s0[i], s0[i + 1]]
            0 <= i < s0.len() - 1 implies s0[i].0 < s0[i + 1].0 by {
            assert(s0[i].0 < s0[i].1);
            assert(s0[i].1 < s0[i + 1].0);
        }
    }
    let n = items.len();
    let pos: usize = match find_le(items, start) {
        None => 0,
        Some(i) => i + 1,
    };
    proof {
        lemma_insert_shape(s0, pos as int, start, end);
    }
    items.insert(pos, (start, end));
    delete_extra(items, len, start, end, Ghost(pos as int));
}

/// When the predecessor of `start` ends before it, every range that starts
/// at or before `start` also ends before it.
proof fn lemma_pred_clear(s0: Seq<(u64, u64)>, i: int, start: u64)
    requires
        coalesced(s0),
        0 <= i < s0.len(),
        s0[i].0 <= start,
        s0[i].1 < start,
        forall|j: int| i < j < s0.len() ==> (#[trigger] s0[j]).0 > start,
    ensures
        forall|k: int| 0 <= k < s0.len() && (#[trigger] s0[k]).0 <= start ==> s0[k].1 < start,
{
    lemma_coalesced_ordering(s0);
    assert forall|k: int|
        0 <= k < s0.len() && (#[trigger] s0[k]).0 <= start implies s0[k].1 < start by {
        if k < i {
            assert(s0[k].1 < s0[i].0);
        }
    }
}

/// Extending the covered values by `[s0[i].0, end)` is the same as extending
/// them by `[start, end)` when `start` falls inside the range at `i`.
proof fn lemma_widen_covers_eq(s0: Seq<(u64, u64)>, i: int, start: u64, end: u64)
    requires
        0 <= i < s0.len(),
        s0[i].0 <= start <= s0[i].1 < end,
    ensures
        forall|v: int|
            (covers(s0, v) || (s0[i].0 <= v < end)) <==> (covers(s0, v) || (start <= v
                < end)),
{
    assert forall|v: int|
        (covers(s0, v) || (s0[i].0 <= v < end)) <==> (covers(s0, v) || (start <= v < end)) by {
        if s0[i].0 <= v < start {
            assert(s0[i].0 <= v < s0[i].1);
        }
    }
}

/// Insert the half-open interval `[start, end)` into the coalesced list,
/// merging every range it overlaps or touches and keeping the cached element
/// count exact.  This is the engine's sole mutation primitive.
#[verifier::rlimit(60)]
pub fn internal_add(items: &mut Vec<(u64, u64)>, len: &mut u64, start: u64, end: u64)
    requires
        start < end,
        coalesced(old(items)@),
        *old(len) as int == total(old(items)@),
    ensures
        coalesced(final(items)@),
        *final(len) as int == total(final(items)@),
        forall|v: int|
            covers(final(items)@, v) <==> covers(old(items)@, v) || (start <= v < end),
{
    let ghost s0 = items@;
    proof {
        assert forall|i: int|
            #![trigger s0[i], s0[i + 1]]
            0 <= i < s0.len() - 1 implies s0[i].0 < s0[i + 1].0 by {
            assert(s0[i].0 < s0[i].1);
            assert(s0[i].1 < s0[i + 1].0);
        }
    }
    let pred = find_le(items, start);
    match pred {
        None => {
            insert_new(items, len, start, end);
        },
        Some(i) => {
            let entry = items[i];
            if entry.1 < start {
                proof {
                    lemma_pred_clear(s0, i as int, start);
                }
                insert_new(items, len, start, end);
            } else if entry.1 < end {
                widen_absorb(items, len, i, start, end);
            } else {
                // The new interval is fully contained in the predecessor.
                proof {
                    assert forall|v: int| start <= v < end implies covers(s0, v) by {
                        assert(s0[i as int].0 <= v < s0[i as int].1);
                    }
                }
            }
        },
    }
}

/// Place `[start, end)` as a genuinely new range and account for its span.
fn insert_new(items: &mut Vec<(u64, u64)>, len: &mut u64, start: u64, end: u64)
    requires
        start < end,
        coalesced(old(items)@),
        *old(len) as int == total(old(items)@),
        forall|i: int|
            0 <= i < old(items)@.len() && (#[trigger] old(items)@[i]).0 <= start ==> old(
                items,
            )@[i].1 < start,
    ensures
        coalesced(final(items)@),
        *final(len) as int == total(final(items)@),
        forall|v: int|
            covers(final(items)@, v) <==> covers(old(items)@, v) || (start <= v < end),
{
    insert(items, len, start, end);
    proof {
        lemma_total_bound(items@);
    }
    *len = *len + (end - start);
}

/// The new interval overlaps or touches the predecessor at `i`: widen that
/// range in place, then absorb its successors.
#[verifier::rlimit(60)]
fn widen_absorb(items: &mut Vec<(u64, u64)>, len: &mut u64, i: usize, start: u64, end: u64)
    requires
        start < end,
        coalesced(old(items)@),
        *old(len) as int == total(old(items)@),
        i < old(items)@.len(),
        old(items)@[i as int].0 <= start,
        start <= old(items)@[i as int].1 < end,
    ensures
        coalesced(final(items)@),
        *final(len) as int == total(final(items)@),
        forall|v: int|
            covers(final(items)@, v) <==> covers(old(items)@, v) || (start <= v < end),
{
    let ghost s0 = items@;
    let entry = items[i];
    proof {
        lemma_widen_shape(s0, i as int, end);
    }
    items[i] = (entry.0, end);
    delete_extra(items, len, entry.0, end, Ghost(i as int));
    proof {
        lemma_total_bound(items@);
        lemma_widen_covers_eq(s0, i as int, start, end);
    }
    *len = *len + (end - entry.1);
}

/// Widening the range at `i` to a larger `end` gives an almost-coalesced
/// list that covers the old values plus the new stretch.
#[verifier::rlimit(60)]
proof fn lemma_widen_shape(s0: Seq<(u64, u64)>, i: int, end: u64)
    requires
        coalesced(s0),
        0 <= i < s0.len(),
        s0[i].1 < end,
    ensures
        almost_coalesced_at(s0.update(i, (s0[i].0, end)), i),
        s0.update(i, (s0[i].0, end))[i] == (s0[i].0, end),
        total(s0.update(i, (s0[i].0, end))) == total(s0) + (end - s0[i].1),
        forall|v: int|
            covers(s0.update(i, (s0[i].0, end)), v) <==> covers(s0, v) || (s0[i].0 <= v < end),
{
    let n = s0.len() as int;
    let x = (s0[i].0, end);
    let s1 = s0.update(i, x);
    assert(s1 =~= s0.subrange(0, i) + seq![x] + s0.subrange(i + 1, n));
    assert(s0 =~= s0.subrange(0, i) + seq![s0[i]] + s0.subrange(i + 1, n));
    lemma_total_concat(s0.subrange(0, i) + seq![x], s0.subrange(i + 1, n));
    lemma_total_concat(s0.subrange(0, i), seq![x]);
    lemma_total_singleton(x);
    lemma_total_concat(s0.subrange(0, i) + seq![s0[i]], s0.subrange(i + 1, n));
    lemma_total_concat(s0.subrange(0, i), seq![s0[i]]);
    lemma_total_singleton(s0[i]);
    assert forall|v: int| covers(s1, v) <==> covers(s0, v) || (s0[i].0 <= v < end) by {
        lemma_covers_concat(s0.subrange(0, i) + seq![x], s0.subrange(i + 1, n), v);
        lemma_covers_concat(s0.subrange(0, i), seq![x], v);
        lemma_covers_concat(s0.subrange(0, i) + seq![s0[i]], s0.subrange(i + 1, n), v);
        lemma_covers_concat(s0.subrange(0, i), seq![s0[i]], v);
        assert(seq![x][0] == x);
        assert(seq![s0[i]][0] == s0[i]);
        assert(covers(seq![x], v) == (s0[i].0 <= v < end));
        assert(covers(seq![s0[i]], v) == (s0[i].0 <= v < s0[i].1));
    }
}

/// The value `v` is covered by `cur` exactly when it is covered by `base`
/// or by one of the first `k` ranges of `o`: the invariant, stated per
/// value, of the union-building loops.
pub open spec fn covers_upto(
    cur: Seq<(u64, u64)>,
    base: Seq<(u64, u64)>,
    o: Seq<(u64, u64)>,
    k: int,
    v: int,
) -> bool {
    covers(cur, v) <==> covers(base, v) || covers(o.subrange(0, k), v)
}

/// One step of a union-building loop: after inserting `o[k0]` into a set that
/// covered `base` plus the first `k0` ranges of `o`, the set covers `base`
/// plus the first `k0 + 1` ranges.
pub proof fn lemma_union_step(
    cur: Seq<(u64, u64)>,
    before: Seq<(u64, u64)>,
    base: Seq<(u64, u64)>,
    o: Seq<(u64, u64)>,
    k0: int,
)
    requires
        0 <= k0 < o.len(),
        forall|v: int| #[trigger] covers_upto(before, base, o, k0, v),
        forall|v: int| covers(cur, v) <==> covers(before, v) || (o[k0].0 <= v < o[k0].1),
    ensures
        forall|v: int| #[trigger] covers_upto(cur, base, o, k0 + 1, v),
{
    let entry = o[k0];
    assert(o.subrange(0, k0 + 1) =~= o.subrange(0, k0) + seq![entry]);
    assert forall|v: int| #[trigger] covers_upto(cur, base, o, k0 + 1, v) by {
        lemma_covers_concat(o.subrange(0, k0), seq![entry], v);
        assert(covers_upto(before, base, o, k0, v));
        assert(seq![entry][0] == entry);
        assert(covers(seq![entry], v) == (entry.0 <= v < entry.1));
    }
}

/// With all of `o` taken in, the loop invariant says the union is complete.
pub proof fn lemma_union_done(
    cur: Seq<(u64, u64)>,
    base: Seq<(u64, u64)>,
    o: Seq<(u64, u64)>,
    k: int,
)
    requires
        k == o.len(),
        forall|v: int| #[trigger] covers_upto(cur, base, o, k, v),
    ensures
        forall|v: int| covers(cur, v) <==> covers(base, v) || covers(o, v),
{
    assert(o.subrange(0, k) =~= o);
    assert forall|v: int| covers(cur, v) <==> covers(base, v) || covers(o, v) by {
        assert(covers_upto(cur, base, o, k, v));
    }
}

/// Recompute the element count of a coalesced list by summing the spans.
fn len_slow(items: &Vec<(u64, u64)>) -> (r: u64)
    requires
        coalesced(items@),
    ensures
        r as int == total(items@),
{
    let ghost s = items@;
    let n = items.len();
    let mut acc: u64 = 0;
    let mut k: usize = 0;
    proof {
        assert(s.subrange(0, 0) =~= Seq::<(u64, u64)>::empty());
    }
    while k < n
        invariant
            coalesced(s),
            items@ == s,
            n == s.len(),
            k <= n,
            acc as int == total(s.subrange(0, k as int)),
        decreases n - k,
    {
        proof {
            let pre = s.subrange(0, k as int);
            let post = s.subrange(0, k + 1 as int);
            assert(post.drop_last() =~= pre);
            assert(post.last() == s[k as int]);
            lemma_total_split(s, k + 1);
            lemma_total_nonneg(s.subrange(k + 1, n as int));
            lemma_total_bound(s);
        }
        let entry = items[k];
        acc = acc + (entry.1 - entry.0);
        k += 1;
    }
    proof {
        assert(s.subrange(0, n as int) =~= s);
    }
    acc
}

/// A set of `u64` values, stored as sorted, disjoint, non-adjacent half-open
/// ranges together with a cached element count.
#[derive(Clone, Debug, PartialEq, Eq, PartialOrd, Ord, Hash, Default)]
pub struct RangeSetInt {
    len: u64,
    items: Vec<(u64, u64)>,
}

impl View for RangeSetInt {
    type V = Seq<(u64, u64)>;

    closed spec fn view(&self) -> Seq<(u64, u64)> {
        self.items@
    }
}

impl RangeSetInt {
    /// The cached element count, as the contracts see it.
    pub closed spec fn spec_len(&self) -> u64 {
        self.len
    }

    /// The type's invariant: the ranges are coalesced and the cached count
    /// equals the recomputed sum of spans.
    pub open spec fn wf(&self) -> bool {
        &&& coalesced(self@)
        &&& self.spec_len() as int == total(self@)
    }

    /// The number of stored ranges.
    pub fn ranges_len(&self) -> (r: usize)
        ensures
            r == self@.len(),
    {
        self.items.len()
    }

    /// The range at position `i` in the sorted list.
    pub fn range_at(&self, i: usize) -> (r: (u64, u64))
        requires
            i < self@.len(),
        ensures
            r == self@[i as int],
    {
        self.items[i]
    }

    /// The empty set.
    pub fn new() -> (r: RangeSetInt)
        ensures
            r.wf(),
            r@ == Seq::<(u64, u64)>::empty(),
    {
        RangeSetInt { items: Vec::new(), len: 0 }
    }

    /// Remove every element.
    pub fn clear(&mut self)
        ensures
            final(self).wf(),
            final(self)@ == Seq::<(u64, u64)>::empty(),
    {
        self.items.clear();
        self.len = 0;
    }

    /// The number of elements in the set, from the cache.
    pub fn len(&self) -> (r: u64)
        requires
            self.wf(),
        ensures
            r as int == total(self@),
    {
        self.len
    }

    /// The number of elements, recomputed from the ranges; always agrees
    /// with the cache on a well-formed set.
    fn len_slow(&self) -> (r: u64)
        requires
            self.wf(),
        ensures
            r == self.spec_len(),
    {
        len_slow(&self.items)
    }

    /// Moves all elements from `other` into `self`, leaving `other` empty.
    #[verifier::loop_isolation(false)]
    pub fn append(&mut self, other: &mut RangeSetInt)
        requires
            old(self).wf(),
            old(other).wf(),
        ensures
            final(self).wf(),
            final(other).wf(),
            final(other)@ == Seq::<(u64, u64)>::empty(),
            forall|v: int|
                covers(final(self)@, v) <==> covers(old(self)@, v) || covers(old(other)@, v),
    {
        let ghost s_init = self@;
        let ghost o = other@;
        let n = other.items.len();
        let mut k: usize = 0;
        proof {
            assert(o.subrange(0, 0) =~= Seq::<(u64, u64)>::empty());
            assert forall|v: int| #[trigger] covers_upto(self@, s_init, o, 0, v) by {
                assert(!covers(o.subrange(0, 0), v));
            }
        }
        while k < n
            invariant
                self.wf(),
                other@ == o,
                n == o.len(),
                coalesced(o),
                k <= n,
                forall|v: int| #[trigger] covers_upto(self@, s_init, o, k as int, v),
            decreases n - k,
        {
            let ghost k0 = k as int;
            let ghost before = self@;
            let entry = other.items[k];
            self.internal_add(entry.0, entry.1);
            k += 1;
            proof {
                lemma_union_step(self@, before, s_init, o, k0);
                assert(k as int == k0 + 1);
                assert forall|v: int| #[trigger] covers_upto(self@, s_init, o, k as int, v) by {
                    assert(covers_upto(self@, s_init, o, k0 + 1, v));
                }
            }
        }
        proof {
            lemma_union_done(self@, s_init, o, k as int);
        }
        other.clear();
    }

    /// Returns `true` if the set contains an element equal to the value.
    #[verifier::rlimit(100)]
    pub fn contains(&self, value: u64) -> (r: bool)
        requires
            self.wf(),
        ensures
            r == covers(self@, value as int),
    {
        proof {
            lemma_coalesced_ordering(self@);
            assert forall|i: int|
                #![trigger self@[i], self@[i + 1]]
                0 <= i < self@.len() - 1 implies self@[i].0 < self@[i + 1].0 by {
                assert(self@[i].0 < self@[i].1);
            }
        }
        match find_le(&self.items, value) {
            None => {
                false
            },
            Some(i) => {
                let entry = self.items[i];
                proof {
                    if value < entry.1 {
                        assert(self@[i as int].0 <= value < self@[i as int].1);
                    } else {
                        assert forall|k: int|
                            0 <= k < self@.len() implies !((#[trigger] self@[k]).0 <= value
                            < self@[k].1) by {
                            if k < i {
                                assert(self@[k].1 < self@[i as int].0);
                            }
                        }
                    }
                }
                value < entry.1
            },
        }
    }

    /// Insert the half-open interval `[start, end)`.
    pub fn internal_add(&mut self, start: u64, end: u64)
        requires
            start < end,
            old(self).wf(),
        ensures
            final(self).wf(),
            forall|v: int|
                covers(final(self)@, v) <==> covers(old(self)@, v) || (start <= v < end),
    {
        internal_add(&mut self.items, &mut self.len, start, end);
    }

    /// Returns the union of `self` and `rhs` as a new set; neither operand
    /// is changed.
    #[verifier::loop_isolation(false)]
    #[verifier::rlimit(100)]
    pub fn bitor(&self, rhs: &RangeSetInt) -> (r: RangeSetInt)
        requires
            self.wf(),
            rhs.wf(),
        ensures
            r.wf(),
            forall|v: int| covers(r@, v) <==> covers(self@, v) || covers(rhs@, v),
    {
        let mut result = RangeSetInt { items: copy_ranges(&self.items), len: self.len };
        let ghost o = rhs@;
        let n = rhs.items.len();
        let mut k: usize = 0;
        proof {
            assert(o.subrange(0, 0) =~= Seq::<(u64, u64)>::empty());
            assert forall|v: int| #[trigger] covers_upto(result@, self@, o, 0, v) by {
                assert(!covers(o.subrange(0, 0), v));
            }
        }
        while k < n
            invariant
                result.wf(),
                rhs@ == o,
                n == o.len(),
                coalesced(o),
                k <= n,
                forall|v: int| #[trigger] covers_upto(result@, self@, o, k as int, v),
            decreases n - k,
        {
            let ghost k0 = k as int;
            let ghost before = result@;
            let entry = rhs.items[k];
            result.internal_add(entry.0, entry.1);
            k += 1;
            proof {
                lemma_union_step(result@, before, self@, o, k0);
                assert(k as int == k0 + 1);
                assert forall|v: int| #[trigger] covers_upto(result@, self@, o, k as int, v) by {
                    assert(covers_upto(result@, self@, o, k0 + 1, v));
                }
            }
        }
        proof {
            lemma_union_done(result@, self@, o, k as int);
        }
        result
    }

    /// An iterator that moves out the set's values, in ascending order.
    pub fn into_iter(self) -> (r: IntoIter)
        ensures
            r.wf(),
            r@ == elements_of(self@),
    {
        let r = IntoIter { cur_start: 0, cur_end: 0, items: self.items, idx: 0 };
        proof {
            assert(half_open_values(0, 0) =~= Seq::<u64>::empty());
            assert(r.items@.skip(0) =~= r.items@);
            assert(r@ =~= elements_of(r.items@));
        }
        r
    }

    /// Build a set from discrete values: each `v` is inserted as `[v, v+1)`.
    pub fn from_values(values: &[u64]) -> (r: RangeSetInt)
        requires
            forall|i: int| 0 <= i < values@.len() ==> (#[trigger] values@[i]) < u64::MAX,
        ensures
            r.wf(),
            forall|v: int|
                covers(r@, v) <==> exists|i: int| 0 <= i < values@.len() && (#[trigger] values@[i])
                    == v,
    {
        let mut result = RangeSetInt::new();
        let n = values.len();
        let mut k: usize = 0;
        while k < n
            invariant
                result.wf(),
                n == values@.len(),
                k <= n,
                forall|i: int| 0 <= i < values@.len() ==> (#[trigger] values@[i]) < u64::MAX,
                forall|v: int|
                    covers(result@, v) <==> exists|i: int|
                        0 <= i < k && (#[trigger] values@[i]) == v,
            decreases n - k,
        {
            let value = values[k];
            result.internal_add(value, value + 1);
            k += 1;
            proof {
                assert forall|v: int|
                    covers(result@, v) <==> exists|i: int|
                        0 <= i < k && (#[trigger] values@[i]) == v by {
                    if covers(result@, v) {
                        if value <= v < value + 1 {
                            assert(values@[k - 1] == v);
                        }
                    }
                    if exists|i: int| 0 <= i < k && (#[trigger] values@[i]) == v {
                        let i = choose|i: int| 0 <= i < k && (#[trigger] values@[i]) == v;
                        if i == k - 1 {
                            assert(value <= v < value + 1);
                        }
                    }
                }
            }
        }
        result
    }
}

/// The values of the half-open interval `[a, b)`, in order.
pub open spec fn half_open_values(a: u64, b: u64) -> Seq<u64>
    decreases b - a,
{
    if a >= b {
        Seq::empty()
    } else {
        seq![a] + half_open_values((a + 1) as u64, b)
    }
}

/// Every value of every range of `rs`, in order.
pub open spec fn elements_of(rs: Seq<(u64, u64)>) -> Seq<u64>
    decreases rs.len(),
{
    if rs.len() == 0 {
        Seq::empty()
    } else {
        half_open_values(rs[0].0, rs[0].1) + elements_of(rs.drop_first())
    }
}

/// An iterator that moves the values out of a `RangeSetInt`, in ascending
/// order, one value at a time.
pub struct IntoIter {
    cur_start: u64,
    cur_end: u64,
    items: Vec<(u64, u64)>,
    idx: usize,
}

impl View for IntoIter {
    type V = Seq<u64>;

    /// The values the iterator has yet to yield.
    closed spec fn view(&self) -> Seq<u64> {
        half_open_values(self.cur_start, self.cur_end) + elements_of(
            self.items@.skip(self.idx as int),
        )
    }
}

impl IntoIter {
    pub closed spec fn wf(&self) -> bool {
        self.idx <= self.items@.len()
    }

    /// Yield the next value of the set, smallest first.
    pub fn next(&mut self) -> (r: Option<u64>)
        requires
            old(self).wf(),
        ensures
            final(self).wf(),
            old(self)@.len() == 0 ==> r is None && final(self)@ == old(self)@,
            old(self)@.len() > 0 ==> r == Some(old(self)@[0]) && final(self)@ == old(
                self,
            )@.drop_first(),
    {
        loop
            invariant
                self.wf(),
                self@ == old(self)@,
            decreases self.items@.len() - self.idx,
        {
            let ghost rem = self.items@.skip(self.idx as int);
            if self.cur_start < self.cur_end {
                let v = self.cur_start;
                self.cur_start = self.cur_start + 1;
                proof {
                    assert(half_open_values(v, self.cur_end) == seq![v] + half_open_values(
                        self.cur_start,
                        self.cur_end,
                    ));
                    assert((seq![v] + (half_open_values(self.cur_start, self.cur_end)
                        + elements_of(rem)))[0] == v);
                    assert(seq![v] + (half_open_values(self.cur_start, self.cur_end)
                        + elements_of(rem)) =~= (seq![v] + half_open_values(
                        self.cur_start,
                        self.cur_end,
                    )) + elements_of(rem));
                    assert((seq![v] + (half_open_values(self.cur_start, self.cur_end)
                        + elements_of(rem))).drop_first() =~= half_open_values(
                        self.cur_start,
                        self.cur_end,
                    ) + elements_of(rem));
                }
                return Some(v);
            } else if self.idx < self.items.len() {
                let ghost cs0 = self.cur_start;
                let ghost ce0 = self.cur_end;
                let next_range = self.items[self.idx];
                self.cur_start = next_range.0;
                self.cur_end = next_range.1;
                self.idx = self.idx + 1;
                proof {
                    assert(half_open_values(cs0, ce0) =~= Seq::<u64>::empty());
                    assert(rem[0] == next_range);
                    assert(rem.drop_first() =~= self.items@.skip(self.idx as int));
                    assert(elements_of(rem) == half_open_values(next_range.0, next_range.1)
                        + elements_of(rem.drop_first()));
                    assert(Seq::<u64>::empty() + elements_of(rem) =~= elements_of(rem));
                    assert(self@ =~= elements_of(rem));
                }
            } else {
                proof {
                    assert(rem =~= Seq::<(u64, u64)>::empty());
                    assert(elements_of(rem) == Seq::<u64>::empty());
                    assert(half_open_values(self.cur_start, self.cur_end)
                        =~= Seq::<u64>::empty());
                    assert(self@ =~= Seq::<u64>::empty());
                }
                return None;
            }
        }
    }
}

/// The decimal digits of `n`, most significant first.
pub open spec fn dec_rep(n: nat) -> Seq<char>
    decreases n,
{
    if n < 10 {
        seq![digit_char(n)]
    } else {
        dec_rep(n / 10) + seq![digit_char(n % 10)]
    }
}

/// The character for one decimal digit.
pub open spec fn digit_char(d: nat) -> char {
    if d == 0 {
        '0'
    } else if d == 1 {
        '1'
    } else if d == 2 {
        '2'
    } else if d == 3 {
        '3'
    } else if d == 4 {
        '4'
    } else if d == 5 {
        '5'
    } else if d == 6 {
        '6'
    } else if d == 7 {
        '7'
    } else if d == 8 {
        '8'
    } else {
        '9'
    }
}

/// The text of one range in the half-open form `start..end`.
pub open spec fn range_rep(r: (u64, u64)) -> Seq<char> {
    dec_rep(r.0 as nat) + seq!['.', '.'] + dec_rep(r.1 as nat)
}

/// The text of a whole range list, comma-separated.
pub open spec fn range_list_rep(s: Seq<(u64, u64)>) -> Seq<char>
    decreases s.len(),
{
    if s.len() == 0 {
        Seq::empty()
    } else if s.len() == 1 {
        range_rep(s[0])
    } else {
        range_list_rep(s.drop_last()) + seq![','] + range_rep(s.last())
    }
}

/// The text of one decimal digit.
fn digit_str(d: u64) -> (r: &'static str)
    requires
        d < 10,
    ensures
        r@ == seq![digit_char(d as nat)],
{
    if d == 0 {
        proof {
            reveal_strlit("0");
        }
        assert("0"@ =~= seq!['0']);
        "0"
    } else if d == 1 {
        proof {
            reveal_strlit("1");
        }
        assert("1"@ =~= seq!['1']);
        "1"
    } else if d == 2 {
        proof {
            reveal_strlit("2");
        }
        assert("2"@ =~= seq!['2']);
        "2"
    } else if d == 3 {
        proof {
            reveal_strlit("3");
        }
        assert("3"@ =~= seq!['3']);
        "3"
    } else if d == 4 {
        proof {
            reveal_strlit("4");
        }
        assert("4"@ =~= seq!['4']);
        "4"
    } else if d == 5 {
        proof {
            reveal_strlit("5");
        }
        assert("5"@ =~= seq!['5']);
        "5"
    } else if d == 6 {
        proof {
            reveal_strlit("6");
        }
        assert("6"@ =~= seq!['6']);
        "6"
    } else if d == 7 {
        proof {
            reveal_strlit("7");
        }
        assert("7"@ =~= seq!['7']);
        "7"
    } else if d == 8 {
        proof {
            reveal_strlit("8");
        }
        assert("8"@ =~= seq!['8']);
        "8"
    } else {
        proof {
            reveal_strlit("9");
        }
        assert("9"@ =~= seq!['9']);
        "9"
    }
}

/// Format `n` in decimal.
fn u64_to_string(n: u64) -> (r: String)
    ensures
        r@ == dec_rep(n as nat),
    decreases n,
{
    if n < 10 {
        let mut s = String::new();
        s.append(digit_str(n));
        proof {
            assert(s@ =~= dec_rep(n as nat));
        }
        s
    } else {
        let mut s = u64_to_string(n / 10);
        s.append(digit_str(n % 10));
        proof {
            assert(s@ =~= dec_rep(n as nat));
        }
        s
    }
}

/// Render a range list in the half-open textual form
/// `start..end,start..end`, with exact decimal digits.
pub fn fmt(items: &Vec<(u64, u64)>) -> (r: String)
    ensures
        r@ == range_list_rep(items@),
{
    let ghost s = items@;
    let n = items.len();
    let mut out = String::new();
    let mut k: usize = 0;
    proof {
        assert(s.subrange(0, 0) =~= Seq::<(u64, u64)>::empty());
        assert(out@ =~= range_list_rep(s.subrange(0, 0)));
    }
    while k < n
        invariant
            items@ == s,
            n == s.len(),
            k <= n,
            out@ == range_list_rep(s.subrange(0, k as int)),
        decreases n - k,
    {
        let ghost k0 = k as int;
        let entry = items[k];
        if k > 0 {
            proof {
                reveal_strlit(",");
            }
            out.append(",");
            proof {
                assert(","@ =~= seq![',']);
            }
        }
        out.append(u64_to_string(entry.0).as_str());
        proof {
            reveal_strlit("..");
        }
        out.append("..");
        out.append(u64_to_string(entry.1).as_str());
        k += 1;
        proof {
            assert(".."@ =~= seq!['.', '.']);
            let post = s.subrange(0, k as int);
            assert(post.drop_last() =~= s.subrange(0, k0));
            assert(post.last() == entry);
            if k0 == 0 {
                assert(post.len() == 1);
                assert(post[0] == entry);
                assert(out@ =~= range_rep(entry));
                assert(out@ =~= range_list_rep(post));
            } else {
                assert(out@ =~= range_list_rep(s.subrange(0, k0)) + seq![','] + range_rep(entry));
                assert(out@ =~= range_list_rep(post));
            }
        }
    }
    proof {
        assert(s.subrange(0, n as int) =~= s);
    }
    out
}

/// Copy a list of ranges element by element.
fn copy_ranges(items: &Vec<(u64, u64)>) -> (r: Vec<(u64, u64)>)
    ensures
        r@ == items@,
{
    let mut r: Vec<(u64, u64)> = Vec::new();
    let n = items.len();
    let mut k: usize = 0;
    while k < n
        invariant
            n == items@.len(),
            k <= n,
            r@ == items@.subrange(0, k as int),
        decreases n - k,
    {
        r.push(items[k]);
        proof {
            assert(r@ =~= items@.subrange(0, k + 1 as int));
        }
        k += 1;
    }
    proof {
        assert(items@.subrange(0, n as int) =~= items@);
    }
    r
}

} // verus!
