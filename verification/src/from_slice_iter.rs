//! Compression of a sorted slice of discrete values into a lazy stream of
//! maximal closed-inclusive ranges.
//!
//! A run of consecutive values `v, v+1, ..., w` is emitted as the single
//! range `[v, w]`; a value with no consecutive neighbour is emitted as the
//! singleton `[v, v]`.  A repeated value breaks the `previous + 1 == next`
//! test and therefore starts a new range: duplicates are kept, not folded.

use vstd::prelude::*;

verus! {

/// The ranges the compressor still owes, given the values not yet scanned
/// and a pending range accumulator.
pub open spec fn compressed_from(s: Seq<u64>, p: (u64, u64)) -> Seq<(u64, u64)>
    decreases s.len(),
{
    if s.len() == 0 {
        seq![p]
    } else if s[0] == p.1 + 1 {
        compressed_from(s.drop_first(), (p.0, s[0]))
    } else {
        seq![p] + compressed_from(s.drop_first(), (s[0], s[0]))
    }
}

/// The maximal consecutive runs of a value sequence, as inclusive ranges.
pub open spec fn compressed(s: Seq<u64>) -> Seq<(u64, u64)> {
    if s.len() == 0 {
        Seq::empty()
    } else {
        compressed_from(s.drop_first(), (s[0], s[0]))
    }
}

/// The values of the inclusive range `[a, b]`, in order.
pub open spec fn range_values(a: u64, b: u64) -> Seq<u64>
    decreases b - a,
{
    if a > b {
        Seq::empty()
    } else if a == b {
        seq![a]
    } else {
        seq![a] + range_values((a + 1) as u64, b)
    }
}

/// Every value of every range of `rs`, in stream order.
pub open spec fn expanded(rs: Seq<(u64, u64)>) -> Seq<u64>
    decreases rs.len(),
{
    if rs.len() == 0 {
        Seq::empty()
    } else {
        range_values(rs[0].0, rs[0].1) + expanded(rs.drop_first())
    }
}

/// Appending the next consecutive value extends the run's values by one.
proof fn lemma_range_values_snoc(a: u64, b: u64)
    requires
        a <= b,
        b < u64::MAX,
    ensures
        range_values(a, (b + 1) as u64) == range_values(a, b) + seq![(b + 1) as u64],
    decreases b - a,
{
    if a == b {
        assert(range_values(a, (b + 1) as u64) =~= seq![a] + seq![(b + 1) as u64]);
        assert(range_values(a, b) + seq![(b + 1) as u64] =~= seq![a] + seq![(b + 1) as u64]);
    } else {
        lemma_range_values_snoc((a + 1) as u64, b);
        assert(range_values(a, (b + 1) as u64) =~= seq![a] + range_values((a + 1) as u64, (b
            + 1) as u64));
        assert(seq![a] + (range_values((a + 1) as u64, b) + seq![(b + 1) as u64]) =~= (seq![a]
            + range_values((a + 1) as u64, b)) + seq![(b + 1) as u64]);
        assert(range_values(a, b) =~= seq![a] + range_values((a + 1) as u64, b));
    }
}

/// Expanding what the compressor owes gives the pending run's values
/// followed by the values not yet scanned.
proof fn lemma_expand_from(s: Seq<u64>, p: (u64, u64))
    requires
        p.0 <= p.1,
    ensures
        expanded(compressed_from(s, p)) == range_values(p.0, p.1) + s,
    decreases s.len(),
{
    if s.len() == 0 {
        assert(seq![p].drop_first() =~= Seq::<(u64, u64)>::empty());
        assert(expanded(Seq::<(u64, u64)>::empty()) == Seq::<u64>::empty());
        assert(seq![p][0] == p);
        assert(expanded(seq![p]) == range_values(p.0, p.1) + expanded(seq![p].drop_first()));
        assert(range_values(p.0, p.1) + Seq::<u64>::empty() =~= range_values(p.0, p.1) + s);
    } else if s[0] == p.1 + 1 {
        lemma_expand_from(s.drop_first(), (p.0, s[0]));
        lemma_range_values_snoc(p.0, p.1);
        assert(range_values(p.0, s[0]) + s.drop_first() =~= (range_values(p.0, p.1) + seq![s[0]])
            + s.drop_first());
        assert((range_values(p.0, p.1) + seq![s[0]]) + s.drop_first() =~= range_values(p.0, p.1)
            + s);
    } else {
        lemma_expand_from(s.drop_first(), (s[0], s[0]));
        let rest = compressed_from(s.drop_first(), (s[0], s[0]));
        assert((seq![p] + rest).drop_first() =~= rest);
        assert(expanded(seq![p] + rest) == range_values(p.0, p.1) + expanded(rest));
        assert(range_values(s[0], s[0]) =~= seq![s[0]]);
        assert(range_values(p.0, p.1) + (seq![s[0]] + s.drop_first()) =~= range_values(p.0, p.1)
            + s);
        assert(seq![s[0]] + s.drop_first() =~= s);
    }
}

/// Expanding every range the compressor produces, in order, gives back
/// exactly the input values: the compression round-trip.
pub proof fn lemma_compressed_round_trip(s: Seq<u64>)
    ensures
        expanded(compressed(s)) == s,
{
    if s.len() == 0 {
        assert(expanded(compressed(s)) =~= s);
    } else {
        lemma_expand_from(s.drop_first(), (s[0], s[0]));
        assert(range_values(s[0], s[0]) =~= seq![s[0]]);
        assert(seq![s[0]] + s.drop_first() =~= s);
    }
}

/// A fully consecutive input compresses to the single range covering it.
pub proof fn lemma_compressed_consecutive(s: Seq<u64>)
    requires
        s.len() > 0,
        forall|i: int| 0 <= i < s.len() - 1 ==> s[i + 1] == (#[trigger] s[i]) + 1,
    ensures
        compressed(s) == seq![(s[0], s.last())],
{
    lemma_compressed_consecutive_from(s.drop_first(), (s[0], s[0]));
}

proof fn lemma_compressed_consecutive_from(s: Seq<u64>, p: (u64, u64))
    requires
        s.len() > 0 ==> s[0] == p.1 + 1,
        forall|i: int| 0 <= i < s.len() - 1 ==> s[i + 1] == (#[trigger] s[i]) + 1,
    ensures
        compressed_from(s, p) == seq![(p.0, if s.len() == 0 { p.1 } else { s.last() })],
    decreases s.len(),
{
    if s.len() > 0 {
        let d = s.drop_first();
        assert forall|i: int| 0 <= i < d.len() - 1 implies d[i + 1] == (#[trigger] d[i]) + 1 by {
            assert(s[i + 1 + 1] == s[i + 1] + 1);
        }
        if d.len() > 0 {
            assert(d[0] == s[1]);
            assert(s[1] == s[0] + 1);
        }
        lemma_compressed_consecutive_from(d, (p.0, s[0]));
        if d.len() > 0 {
            assert(d.last() == s.last());
        }
    }
}

/// An input with every gap larger than one compresses to singletons.
pub proof fn lemma_compressed_gaps(s: Seq<u64>)
    requires
        forall|i: int| 0 <= i < s.len() - 1 ==> s[i + 1] > (#[trigger] s[i]) + 1,
    ensures
        compressed(s).len() == s.len(),
        forall|i: int| 0 <= i < s.len() ==> compressed(s)[i] == ((#[trigger] s[i]), s[i]),
{
    if s.len() > 0 {
        lemma_compressed_gaps_from(s.drop_first(), (s[0], s[0]));
        let rs = compressed_from(s.drop_first(), (s[0], s[0]));
        assert forall|i: int| 0 <= i < s.len() implies compressed(s)[i] == ((#[trigger] s[i]), s[i]) by {
            if i > 0 {
                assert(s.drop_first()[i - 1] == s[i]);
            }
        }
    }
}

proof fn lemma_compressed_gaps_from(s: Seq<u64>, p: (u64, u64))
    requires
        s.len() > 0 ==> s[0] != p.1 + 1,
        forall|i: int| 0 <= i < s.len() - 1 ==> s[i + 1] > (#[trigger] s[i]) + 1,
    ensures
        compressed_from(s, p).len() == s.len() + 1,
        compressed_from(s, p)[0] == p,
        forall|i: int|
            0 < i <= s.len() ==> compressed_from(s, p)[i] == ((#[trigger] s[i - 1]), s[i - 1]),
    decreases s.len(),
{
    if s.len() > 0 {
        let d = s.drop_first();
        assert forall|i: int| 0 <= i < d.len() - 1 implies d[i + 1] > (#[trigger] d[i]) + 1 by {
            assert(s[i + 1 + 1] > s[i + 1] + 1);
        }
        if d.len() > 0 {
            assert(d[0] == s[1]);
            assert(s[1] > s[0] + 1);
        }
        lemma_compressed_gaps_from(d, (s[0], s[0]));
        let rest = compressed_from(d, (s[0], s[0]));
        assert forall|i: int|
            0 < i <= s.len() implies (seq![p] + rest)[i] == ((#[trigger] s[i - 1]), s[i
            - 1]) by {
            if i > 1 {
                assert(rest[i - 1] == (d[i - 2], d[i - 2]));
                assert(d[i - 2] == s[i - 1]);
            }
        }
    }
}

/// Compresses a sorted slice of values into maximal inclusive ranges,
/// lazily and in order.
pub struct FromSliceIter<'a> {
    slice: &'a [u64],
    idx: usize,
    pending: Option<(u64, u64)>,
    slice_len: usize,
}

impl<'a> View for FromSliceIter<'a> {
    type V = Seq<(u64, u64)>;

    /// The ranges the iterator has yet to emit.
    closed spec fn view(&self) -> Seq<(u64, u64)> {
        match self.pending {
            None => compressed(self.slice@.skip(self.idx as int)),
            Some(p) => compressed_from(self.slice@.skip(self.idx as int), p),
        }
    }
}

impl<'a> FromSliceIter<'a> {
    /// The length the input slice had at construction, for `size_hint`.
    pub closed spec fn spec_slice_len(&self) -> usize {
        self.slice_len
    }

    pub closed spec fn wf(&self) -> bool {
        &&& self.idx <= self.slice@.len()
        &&& self.slice_len == self.slice@.len()
    }

    /// Start compressing `slice`.  The stream ahead is exactly the sequence
    /// of maximal consecutive runs of the slice.
    pub fn new(slice: &'a [u64]) -> (r: FromSliceIter<'a>)
        ensures
            r.wf(),
            r@ == compressed(slice@),
            r.spec_slice_len() == slice@.len(),
    {
        let r = FromSliceIter { slice, idx: 0, pending: None, slice_len: slice.len() };
        proof {
            assert(slice@.skip(0) =~= slice@);
        }
        r
    }

    /// Emit the next maximal range, front first.
    pub fn next(&mut self) -> (r: Option<(u64, u64)>)
        requires
            old(self).wf(),
        ensures
            final(self).wf(),
            final(self).spec_slice_len() == old(self).spec_slice_len(),
            old(self)@.len() == 0 ==> r is None && final(self)@ == old(self)@,
            old(self)@.len() > 0 ==> r == Some(old(self)@[0]) && final(self)@ == old(
                self,
            )@.drop_first(),
    {
        loop
            invariant
                self.wf(),
                self.slice == old(self).slice,
                self.slice_len == old(self).slice_len,
                self@ == old(self)@,
            decreases self.slice@.len() - self.idx + (if self.pending is None {
                1int
            } else {
                0int
            }),
        {
            let ghost rem = self.slice@.skip(self.idx as int);
            match self.pending {
                None => {
                    if self.idx == self.slice.len() {
                        proof {
                            assert(rem =~= Seq::<u64>::empty());
                        }
                        return None;
                    }
                    let v = self.slice[self.idx];
                    self.pending = Some((v, v));
                    self.idx = self.idx + 1;
                    proof {
                        assert(self.slice@.skip(self.idx as int) =~= rem.drop_first());
                        assert(rem[0] == v);
                    }
                },
                Some(p) => {
                    if self.idx == self.slice.len() {
                        self.pending = None;
                        proof {
                            assert(rem =~= Seq::<u64>::empty());
                            assert(compressed_from(rem, p) == seq![p]);
                            assert(seq![p][0] == p);
                            assert(seq![p].drop_first() =~= Seq::<(u64, u64)>::empty());
                            assert(self@ =~= Seq::<(u64, u64)>::empty());
                        }
                        return Some(p);
                    }
                    let v = self.slice[self.idx];
                    if p.1 < u64::MAX && v == p.1 + 1 {
                        self.pending = Some((p.0, v));
                        self.idx = self.idx + 1;
                        proof {
                            assert(self.slice@.skip(self.idx as int) =~= rem.drop_first());
                            assert(rem[0] == v);
                        }
                    } else {
                        self.pending = Some((v, v));
                        self.idx = self.idx + 1;
                        proof {
                            assert(self.slice@.skip(self.idx as int) =~= rem.drop_first());
                            assert(rem[0] == v);
                            assert(rem[0] != p.1 + 1);
                            let rest = compressed_from(rem.drop_first(), (v, v));
                            assert(compressed_from(rem, p) == seq![p] + rest);
                            assert((seq![p] + rest)[0] == p);
                            assert((seq![p] + rest).drop_first() =~= rest);
                        }
                        return Some(p);
                    }
                },
            }
        }
    }

    /// The advertised bounds on the number of ranges still to come: at
    /// least one fewer than the slice's values, at most one more.
    pub fn size_hint(&self) -> (r: (usize, Option<usize>))
        ensures
            r.0 == if self.spec_slice_len() > 0 {
                (self.spec_slice_len() - 1) as usize
            } else {
                0usize
            },
            r.1 == Some(
                if self.spec_slice_len() < usize::MAX {
                    (self.spec_slice_len() + 1) as usize
                } else {
                    usize::MAX
                },
            ),
    {
        let low = if self.slice_len > 0 {
            self.slice_len - 1
        } else {
            0
        };
        let high = if self.slice_len < usize::MAX {
            self.slice_len + 1
        } else {
            usize::MAX
        };
        (low, Some(high))
    }
}

} // verus!
