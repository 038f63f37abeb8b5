//! The algebraic laws of the coalesced range representation.
//!
//! The engine's contracts describe each operation by the set of values it
//! leaves covered.  The keystone here is canonicity: two coalesced lists that
//! cover the same values are identical.  Idempotence of insertion and
//! commutativity and associativity of union follow from it.

use vstd::prelude::*;
use crate::{coalesced, covers, lemma_coalesced_ordering};

verus! {

/// Dropping the first range of a coalesced list keeps it coalesced.
proof fn lemma_coalesced_drop_first(s: Seq<(u64, u64)>)
    requires
        coalesced(s),
        s.len() > 0,
    ensures
        coalesced(s.drop_first()),
{
    let d = s.drop_first();
    assert forall|i: int| 0 <= i < d.len() implies (#[trigger] d[i]).0 < d[i].1 by {
        assert(d[i] == s[i + 1]);
    }
    assert forall|i: int|
        #![trigger d[i], d[i + 1]]
        0 <= i < d.len() - 1 implies d[i].1 < d[i + 1].0 by {
        assert(d[i] == s[i + 1] && d[i + 1] == s[i + 1 + 1]);
        assert(s[i + 1].1 < s[i + 1 + 1].0);
    }
}

/// A value is covered by the tail of a coalesced list exactly when it is
/// covered by the list but not by its first range.
proof fn lemma_tail_covers(s: Seq<(u64, u64)>, v: int)
    requires
        coalesced(s),
        s.len() > 0,
    ensures
        covers(s.drop_first(), v) <==> (covers(s, v) && !(s[0].0 <= v < s[0].1)),
{
    lemma_coalesced_ordering(s);
    let d = s.drop_first();
    if covers(d, v) {
        let i = choose|i: int| 0 <= i < d.len() && (#[trigger] d[i]).0 <= v < d[i].1;
        assert(d[i] == s[i + 1]);
        assert(s[i + 1].0 <= v < s[i + 1].1);
        assert(s[0].1 < s[i + 1].0);
    }
    if covers(s, v) && !(s[0].0 <= v < s[0].1) {
        let j = choose|j: int| 0 <= j < s.len() && (#[trigger] s[j]).0 <= v < s[j].1;
        assert(j != 0);
        assert(d[j - 1] == s[j]);
    }
}

/// Canonicity: two coalesced lists covering the same values are equal.
#[verifier::rlimit(60)]
pub proof fn lemma_coalesced_canonical(a: Seq<(u64, u64)>, b: Seq<(u64, u64)>)
    requires
        coalesced(a),
        coalesced(b),
        forall|v: int| covers(a, v) <==> covers(b, v),
    ensures
        a == b,
    decreases a.len(),
{
    lemma_coalesced_ordering(a);
    lemma_coalesced_ordering(b);
    if a.len() == 0 {
        if b.len() > 0 {
            assert(b[0].0 <= b[0].0 < b[0].1);
            assert(covers(b, b[0].0 as int));
        }
        assert(a =~= b);
    } else if b.len() == 0 {
        assert(a[0].0 <= a[0].0 < a[0].1);
        assert(covers(a, a[0].0 as int));
        assert(a =~= b);
    } else {
        // The first starts agree: each is a covered value, and nothing
        // before a list's first start is covered by it.
        assert(covers(a, a[0].0 as int)) by {
            assert(a[0].0 <= a[0].0 < a[0].1);
        }
        assert(covers(b, b[0].0 as int)) by {
            assert(b[0].0 <= b[0].0 < b[0].1);
        }
        assert(b[0].0 <= a[0].0) by {
            let i = choose|i: int| 0 <= i < b.len() && (#[trigger] b[i]).0 <= a[0].0 < b[i].1;
            if i > 0 {
                assert(b[0].1 < b[i].0);
            }
        }
        assert(a[0].0 <= b[0].0) by {
            let i = choose|i: int| 0 <= i < a.len() && (#[trigger] a[i]).0 <= b[0].0 < a[i].1;
            if i > 0 {
                assert(a[0].1 < a[i].0);
            }
        }
        // The first ends agree: the smaller end would be a value covered by
        // one list only.
        assert(a[0].1 >= b[0].1) by {
            if a[0].1 < b[0].1 {
                let v = a[0].1 as int;
                assert(b[0].0 <= v < b[0].1);
                assert(covers(b, v));
                let j = choose|j: int| 0 <= j < a.len() && (#[trigger] a[j]).0 <= v < a[j].1;
                assert(j > 0);
                assert(a[0].1 < a[j].0);
            }
        }
        assert(b[0].1 >= a[0].1) by {
            if b[0].1 < a[0].1 {
                let v = b[0].1 as int;
                assert(a[0].0 <= v < a[0].1);
                assert(covers(a, v));
                let j = choose|j: int| 0 <= j < b.len() && (#[trigger] b[j]).0 <= v < b[j].1;
                assert(j > 0);
                assert(b[0].1 < b[j].0);
            }
        }
        assert(a[0] == b[0]);
        // The tails cover the same values, so they are equal by induction.
        assert forall|v: int| covers(a.drop_first(), v) <==> covers(b.drop_first(), v) by {
            lemma_tail_covers(a, v);
            lemma_tail_covers(b, v);
        }
        lemma_coalesced_drop_first(a);
        lemma_coalesced_drop_first(b);
        lemma_coalesced_canonical(a.drop_first(), b.drop_first());
        assert forall|i: int| 0 <= i < a.len() implies a[i] == b[i] by {
            if i > 0 {
                assert(a.drop_first()[i - 1] == b.drop_first()[i - 1]);
            }
        }
        assert(a =~= b);
    }
}

/// Idempotence: inserting the same interval `[start, end)` a second time
/// leaves the stored ranges exactly as after the first insertion.
pub proof fn lemma_internal_add_idempotent(
    base: Seq<(u64, u64)>,
    once: Seq<(u64, u64)>,
    twice: Seq<(u64, u64)>,
    start: u64,
    end: u64,
)
    requires
        coalesced(once),
        coalesced(twice),
        forall|v: int| covers(once, v) <==> covers(base, v) || (start <= v < end),
        forall|v: int| covers(twice, v) <==> covers(once, v) || (start <= v < end),
    ensures
        once == twice,
{
    assert forall|v: int| covers(twice, v) <==> covers(once, v) by {
        assert(covers(once, v) <==> covers(base, v) || (start <= v < end));
    }
    lemma_coalesced_canonical(twice, once);
}

/// Union is commutative: the coalesced results of `a | b` and `b | a` are
/// equal as stored range lists.
pub proof fn lemma_union_commutative(
    a: Seq<(u64, u64)>,
    b: Seq<(u64, u64)>,
    ab: Seq<(u64, u64)>,
    ba: Seq<(u64, u64)>,
)
    requires
        coalesced(ab),
        coalesced(ba),
        forall|v: int| covers(ab, v) <==> covers(a, v) || covers(b, v),
        forall|v: int| covers(ba, v) <==> covers(b, v) || covers(a, v),
    ensures
        ab == ba,
{
    assert forall|v: int| covers(ab, v) <==> covers(ba, v) by {
        assert(covers(ab, v) <==> covers(a, v) || covers(b, v));
        assert(covers(ba, v) <==> covers(b, v) || covers(a, v));
    }
    lemma_coalesced_canonical(ab, ba);
}

/// Union is associative: `(a | b) | c` and `a | (b | c)` give equal stored
/// range lists.
pub proof fn lemma_union_associative(
    a: Seq<(u64, u64)>,
    b: Seq<(u64, u64)>,
    c: Seq<(u64, u64)>,
    ab: Seq<(u64, u64)>,
    ab_c: Seq<(u64, u64)>,
    bc: Seq<(u64, u64)>,
    a_bc: Seq<(u64, u64)>,
)
    requires
        coalesced(ab_c),
        coalesced(a_bc),
        forall|v: int| covers(ab, v) <==> covers(a, v) || covers(b, v),
        forall|v: int| covers(ab_c, v) <==> covers(ab, v) || covers(c, v),
        forall|v: int| covers(bc, v) <==> covers(b, v) || covers(c, v),
        forall|v: int| covers(a_bc, v) <==> covers(a, v) || covers(bc, v),
    ensures
        ab_c == a_bc,
{
    assert forall|v: int| covers(ab_c, v) <==> covers(a_bc, v) by {
        assert(covers(ab, v) <==> covers(a, v) || covers(b, v));
        assert(covers(bc, v) <==> covers(b, v) || covers(c, v));
        assert(covers(ab_c, v) <==> covers(ab, v) || covers(c, v));
        assert(covers(a_bc, v) <==> covers(a, v) || covers(bc, v));
    }
    lemma_coalesced_canonical(ab_c, a_bc);
}

} // verus!
