//! Lazy combinators that merge sorted-disjoint streams of closed-inclusive
//! ranges by start value.
//!
//! A stream here is a finite sequence of pairs `(s, e)` standing for the
//! inclusive interval `[s, e]`.  Unlike the stored set in the crate root,
//! which uses half-open ranges, the merge algebra works on closed-inclusive
//! ranges; the two conventions are deliberately kept apart.  The output of a
//! merge is only sorted by start — overlap and adjacency between ranges from
//! different sources are allowed, and coalescing is a consumer's job.

use vstd::prelude::*;
use vstd::seq_lib::lemma_multiset_commutative;

verus! {

/// The ranges appear in non-decreasing order of their start value.
pub open spec fn sorted_by_start(s: Seq<(u64, u64)>) -> bool {
    forall|i: int|
        #![trigger s[i], s[i + 1]]
        0 <= i < s.len() - 1 ==> s[i].0 <= s[i + 1].0
}

/// The sorted-disjoint stream contract: every range is a valid inclusive
/// interval, starts strictly increase, and no two ranges overlap.  Adjacent
/// ranges are allowed — a stream need not be coalesced.
pub open spec fn sorted_disjoint(s: Seq<(u64, u64)>) -> bool {
    &&& forall|i: int| 0 <= i < s.len() ==> (#[trigger] s[i]).0 <= s[i].1
    &&& forall|i: int|
        #![trigger s[i], s[i + 1]]
        0 <= i < s.len() - 1 ==> s[i].1 < s[i + 1].0
}

/// The merge of two streams by start value.  Whenever both streams are
/// non-empty, the left range is taken exactly when its start is at most the
/// right one's: on equal starts the left range comes first.
pub open spec fn spec_merge(l: Seq<(u64, u64)>, r: Seq<(u64, u64)>) -> Seq<(u64, u64)>
    decreases l.len() + r.len(),
{
    if l.len() == 0 {
        r
    } else if r.len() == 0 {
        l
    } else if l[0].0 <= r[0].0 {
        seq![l[0]] + spec_merge(l.drop_first(), r)
    } else {
        seq![r[0]] + spec_merge(l, r.drop_first())
    }
}

/// The merged stream is exactly the multiset union of the two inputs.
pub proof fn lemma_spec_merge_multiset(l: Seq<(u64, u64)>, r: Seq<(u64, u64)>)
    ensures
        spec_merge(l, r).to_multiset() == (l + r).to_multiset(),
    decreases l.len() + r.len(),
{
    if l.len() == 0 {
        assert(l + r =~= r);
    } else if r.len() == 0 {
        assert(l + r =~= l);
    } else if l[0].0 <= r[0].0 {
        let m = spec_merge(l.drop_first(), r);
        lemma_spec_merge_multiset(l.drop_first(), r);
        lemma_multiset_commutative(seq![l[0]], m);
        lemma_multiset_commutative(l.drop_first(), r);
        assert(seq![l[0]] + (l.drop_first() + r) =~= l + r);
        lemma_multiset_commutative(seq![l[0]], l.drop_first() + r);
        lemma_multiset_commutative(l, r);
    } else {
        let m = spec_merge(l, r.drop_first());
        lemma_spec_merge_multiset(l, r.drop_first());
        lemma_multiset_commutative(seq![r[0]], m);
        lemma_multiset_commutative(l, r.drop_first());
        assert(seq![r[0]] + (l + r.drop_first()) =~= (seq![r[0]] + l) + r.drop_first());
        lemma_multiset_commutative(seq![r[0]] + l, r.drop_first());
        lemma_multiset_commutative(seq![r[0]], l);
        lemma_multiset_commutative(l, seq![r[0]]);
        lemma_multiset_commutative(l, r);
        assert(l + r =~= l + (seq![r[0]] + r.drop_first()));
        lemma_multiset_commutative(l, seq![r[0]] + r.drop_first());
        lemma_multiset_commutative(seq![r[0]], r.drop_first());
        assert(seq![r[0]] + r.drop_first() =~= r);
    }
}

/// Dropping the first range of a sorted stream keeps it sorted.
proof fn lemma_sorted_drop_first(s: Seq<(u64, u64)>)
    requires
        sorted_by_start(s),
        s.len() > 0,
    ensures
        sorted_by_start(s.drop_first()),
{
    let d = s.drop_first();
    assert forall|i: int|
        #![trigger d[i], d[i + 1]]
        0 <= i < d.len() - 1 implies d[i].0 <= d[i + 1].0 by {
        assert(s[i + 1].0 <= s[i + 1 + 1].0);
    }
}

/// With both inputs sorted by start, the merge is sorted by start, has the
/// combined length, and begins with one of the input heads.
pub proof fn lemma_spec_merge_sorted(l: Seq<(u64, u64)>, r: Seq<(u64, u64)>)
    requires
        sorted_by_start(l),
        sorted_by_start(r),
    ensures
        sorted_by_start(spec_merge(l, r)),
        spec_merge(l, r).len() == l.len() + r.len(),
        l.len() > 0 && r.len() > 0 ==> (spec_merge(l, r)[0] == l[0] || spec_merge(l, r)[0]
            == r[0]),
        l.len() > 0 && r.len() == 0 ==> spec_merge(l, r)[0] == l[0],
        l.len() == 0 && r.len() > 0 ==> spec_merge(l, r)[0] == r[0],
    decreases l.len() + r.len(),
{
    if l.len() == 0 || r.len() == 0 {
    } else if l[0].0 <= r[0].0 {
        lemma_sorted_drop_first(l);
        lemma_spec_merge_sorted(l.drop_first(), r);
        let m = spec_merge(l.drop_first(), r);
        let res = seq![l[0]] + m;
        assert(res[0] == l[0]);
        assert forall|i: int|
            #![trigger res[i], res[i + 1]]
            0 <= i < res.len() - 1 implies res[i].0 <= res[i + 1].0 by {
            if i == 0 {
                assert(res[1] == m[0]);
                if l.len() > 1 {
                    assert(l[0].0 <= l[1].0);
                    assert(l.drop_first()[0] == l[1]);
                }
            } else {
                assert(res[i] == m[i - 1] && res[i + 1] == m[i]);
                assert(m[i - 1].0 <= m[i - 1 + 1].0);
            }
        }
    } else {
        lemma_sorted_drop_first(r);
        lemma_spec_merge_sorted(l, r.drop_first());
        let m = spec_merge(l, r.drop_first());
        let res = seq![r[0]] + m;
        assert(res[0] == r[0]);
        assert forall|i: int|
            #![trigger res[i], res[i + 1]]
            0 <= i < res.len() - 1 implies res[i].0 <= res[i + 1].0 by {
            if i == 0 {
                assert(res[1] == m[0]);
                if r.len() > 1 {
                    assert(r[0].0 <= r[1].0);
                    assert(r.drop_first()[0] == r[1]);
                }
            } else {
                assert(res[i] == m[i - 1] && res[i + 1] == m[i]);
                assert(m[i - 1].0 <= m[i - 1 + 1].0);
            }
        }
    }
}

/// A sorted-disjoint stream is in particular sorted by start.
pub proof fn lemma_sorted_disjoint_sorted(s: Seq<(u64, u64)>)
    requires
        sorted_disjoint(s),
    ensures
        sorted_by_start(s),
{
    assert forall|i: int|
        #![trigger s[i], s[i + 1]]
        0 <= i < s.len() - 1 implies s[i].0 <= s[i + 1].0 by {
        assert(s[i].0 <= s[i].1);
        assert(s[i].1 < s[i + 1].0);
    }
}

/// Compares two inclusive ranges by start, ties to the left; handed to the
/// outside two-way merge.
fn start_le(a: &(u64, u64), b: &(u64, u64)) -> (r: bool)
    ensures
        r == (a.0 <= b.0),
{
    a.0 <= b.0
}

/// Strict comparison of two inclusive ranges by start; handed to the outside
/// k-way merge.
fn start_lt(a: &(u64, u64), b: &(u64, u64)) -> (r: bool)
    ensures
        r == (a.0 < b.0),
{
    a.0 < b.0
}

/// Relies on itertools' `merge_by`: while both sides have a range it yields
/// the left one exactly when `is_first(left, right)` holds, then drains the
/// side that remains — with `start_le` this is the left-biased merge by start
/// that `spec_merge` describes.
#[verifier::external_body]
fn merge_by_start(left: Vec<(u64, u64)>, right: Vec<(u64, u64)>) -> (r: Vec<(u64, u64)>)
    ensures
        r@ == spec_merge(left@, right@),
{
    itertools::Itertools::merge_by(
        left.into_iter(),
        right,
        |a: &(u64, u64), b: &(u64, u64)| start_le(a, b),
    ).collect()
}

/// Relies on itertools' `kmerge_by`: a heap-based k-way merge that yields
/// every range of every input exactly once and, when each input is sorted by
/// the predicate, yields them in sorted order.  Which of two equal-start
/// ranges comes first is not promised.
#[verifier::external_body]
fn kmerge_by_start(inputs: Vec<Vec<(u64, u64)>>) -> (r: Vec<(u64, u64)>)
    ensures
        r@.to_multiset() == inputs.deep_view().flatten().to_multiset(),
        (forall|i: int|
            0 <= i < inputs@.len() ==> sorted_by_start(#[trigger] inputs@[i]@)) ==> sorted_by_start(
            r@,
        ),
{
    itertools::kmerge_by(inputs, |a: &(u64, u64), b: &(u64, u64)| start_lt(a, b)).collect()
}

/// The two-way merge of a pair of sorted-disjoint range streams, by start
/// value with left-bias on ties.  The output stream is sorted by start but
/// not necessarily disjoint.
pub struct Merge {
    ranges: Vec<(u64, u64)>,
    pos: usize,
}

impl View for Merge {
    type V = Seq<(u64, u64)>;

    /// The ranges the stream has yet to yield.
    closed spec fn view(&self) -> Seq<(u64, u64)> {
        self.ranges@.skip(self.pos as int)
    }
}

impl Merge {
    pub closed spec fn wf(&self) -> bool {
        self.pos <= self.ranges@.len()
    }

    /// Merge two sorted-disjoint streams.  The stream ahead is exactly the
    /// left-biased merge by start of the two inputs.
    pub fn new(left: Vec<(u64, u64)>, right: Vec<(u64, u64)>) -> (r: Merge)
        requires
            sorted_disjoint(left@),
            sorted_disjoint(right@),
        ensures
            r.wf(),
            r@ == spec_merge(left@, right@),
    {
        let out = merge_by_start(left, right);
        let m = Merge { ranges: out, pos: 0 };
        proof {
            assert(m.ranges@.skip(0) =~= m.ranges@);
        }
        m
    }

    /// Yield the next range of the merged stream, front first.
    pub fn next(&mut self) -> (r: Option<(u64, u64)>)
        requires
            old(self).wf(),
        ensures
            final(self).wf(),
            old(self)@.len() == 0 ==> r is None && final(self)@ == old(self)@,
            old(self)@.len() > 0 ==> r == Some(old(self)@[0]) && final(self)@ == old(
                self,
            )@.drop_first(),
    {
        if self.pos < self.ranges.len() {
            let item = self.ranges[self.pos];
            self.pos = self.pos + 1;
            proof {
                assert(self.ranges@.skip(self.pos as int) =~= old(self)@.drop_first());
            }
            Some(item)
        } else {
            None
        }
    }

    /// The number of ranges still ahead, exactly.
    pub fn size_hint(&self) -> (r: (usize, Option<usize>))
        requires
            self.wf(),
        ensures
            r.0 == self@.len(),
            r.1 == Some(r.0),
    {
        let rem = self.ranges.len() - self.pos;
        (rem, Some(rem))
    }
}

/// The k-way merge of any number of sorted-disjoint range streams by start
/// value.  The order of equal-start ranges from different streams is
/// implementation-defined; with no input streams the merge is empty.
pub struct KMerge {
    ranges: Vec<(u64, u64)>,
    pos: usize,
}

impl View for KMerge {
    type V = Seq<(u64, u64)>;

    /// The ranges the stream has yet to yield.
    closed spec fn view(&self) -> Seq<(u64, u64)> {
        self.ranges@.skip(self.pos as int)
    }
}

impl KMerge {
    pub closed spec fn wf(&self) -> bool {
        self.pos <= self.ranges@.len()
    }

    /// Merge any number of sorted-disjoint streams.  The stream ahead holds
    /// exactly the ranges of all inputs, as a multiset, in non-decreasing
    /// start order; zero inputs give an empty stream.
    pub fn new(inputs: Vec<Vec<(u64, u64)>>) -> (r: KMerge)
        requires
            forall|i: int| 0 <= i < inputs@.len() ==> sorted_disjoint(#[trigger] inputs@[i]@),
        ensures
            r.wf(),
            r@.to_multiset() == inputs.deep_view().flatten().to_multiset(),
            sorted_by_start(r@),
            inputs@.len() == 0 ==> r@ == Seq::<(u64, u64)>::empty(),
    {
        let ghost ins = inputs@;
        proof {
            assert forall|i: int|
                0 <= i < ins.len() implies sorted_by_start(#[trigger] ins[i]@) by {
                lemma_sorted_disjoint_sorted(ins[i]@);
            }
        }
        let out = kmerge_by_start(inputs);
        let m = KMerge { ranges: out, pos: 0 };
        proof {
            broadcast use vstd::seq_lib::group_to_multiset_ensures;

            assert(m.ranges@.skip(0) =~= m.ranges@);
            if ins.len() == 0 {
                assert(ins.map_values(|v: Vec<(u64, u64)>| v.deep_view())
                    =~= Seq::<Seq<(u64, u64)>>::empty());
                assert(m@.to_multiset().len() == 0);
                assert(m@ =~= Seq::<(u64, u64)>::empty());
            }
        }
        m
    }

    /// Yield the next range of the merged stream, front first.
    pub fn next(&mut self) -> (r: Option<(u64, u64)>)
        requires
            old(self).wf(),
        ensures
            final(self).wf(),
            old(self)@.len() == 0 ==> r is None && final(self)@ == old(self)@,
            old(self)@.len() > 0 ==> r == Some(old(self)@[0]) && final(self)@ == old(
                self,
            )@.drop_first(),
    {
        if self.pos < self.ranges.len() {
            let item = self.ranges[self.pos];
            self.pos = self.pos + 1;
            proof {
                assert(self.ranges@.skip(self.pos as int) =~= old(self)@.drop_first());
            }
            Some(item)
        } else {
            None
        }
    }

    /// The number of ranges still ahead, exactly.
    pub fn size_hint(&self) -> (r: (usize, Option<usize>))
        requires
            self.wf(),
        ensures
            r.0 == self@.len(),
            r.1 == Some(r.0),
    {
        let rem = self.ranges.len() - self.pos;
        (rem, Some(rem))
    }
}

} // verus!
