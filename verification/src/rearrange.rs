//! Sums do not depend on the order of their terms: a selection is worth the
//! same however the items are arranged.

use vstd::prelude::*;
use crate::selection::{lemma_picked_agree, picked, share};

verus! {

/// Some position of `p` holds `i`.
pub open spec fn hits(p: Seq<int>, i: int) -> bool {
    exists|k: int| 0 <= k < p.len() && #[trigger] p[k] == i
}

/// `p` lists the numbers below its length, each exactly once.
pub open spec fn is_permutation(p: Seq<int>) -> bool {
    &&& forall|k: int| 0 <= k < p.len() ==> 0 <= #[trigger] p[k] < p.len()
    &&& forall|k: int, m: int| 0 <= k < m < p.len() ==> #[trigger] p[k] != #[trigger] p[m]
    &&& forall|i: int| 0 <= i < p.len() ==> #[trigger] hits(p, i)
}

/// Taking position `j` out of a sum lowers it by the share of that position.
pub proof fn lemma_picked_without(b: Seq<int>, t: Seq<bool>, j: int, upto: int)
    requires
        0 <= j < upto,
        upto <= b.len(),
        upto <= t.len(),
    ensures
        picked(b, t, upto) == picked(b.remove(j), t.remove(j), upto - 1) + share(b, t, j),
    decreases upto,
{
    if upto == j + 1 {
        lemma_picked_agree(b.remove(j), t.remove(j), b, t, j);
    } else {
        lemma_picked_without(b, t, j, upto - 1);
        assert(share(b.remove(j), t.remove(j), upto - 2) == share(b, t, upto - 1));
    }
}

/// Without the position that holds its greatest number, a permutation is a
/// permutation still.
proof fn lemma_permutation_without_top(p: Seq<int>, j: int)
    requires
        is_permutation(p),
        0 <= j < p.len(),
        p[j] == p.len() - 1,
    ensures
        is_permutation(p.remove(j)),
{
    let q = p.remove(j);
    assert forall|k: int| 0 <= k < q.len() implies 0 <= #[trigger] q[k] < q.len() by {
        let from: int = if k < j {
            k
        } else {
            k + 1
        };
        assert(q[k] == p[from]);
        if from < j {
            assert(p[from] != p[j]);
        } else {
            assert(p[j] != p[from]);
        }
    }
    assert forall|k: int, m: int| 0 <= k < m < q.len() implies #[trigger] q[k] != #[trigger] q[m] by {
        let fk: int = if k < j {
            k
        } else {
            k + 1
        };
        let fm: int = if m < j {
            m
        } else {
            m + 1
        };
        assert(q[k] == p[fk]);
        assert(q[m] == p[fm]);
        assert(p[fk] != p[fm]);
    }
    assert forall|i: int| 0 <= i < q.len() implies #[trigger] hits(q, i) by {
        assert(hits(p, i));
        let k: int = choose|k: int| 0 <= k < p.len() && #[trigger] p[k] == i;
        let to: int = if k < j {
            k
        } else {
            k - 1
        };
        assert(q[to] == i);
    }
}

/// A sum keeps its value when its terms are rearranged: if position `k` of
/// the second sum adds what position `p[k]` of the first adds, for a
/// permutation `p`, the two sums are equal.
pub proof fn lemma_rearranged_sum(
    a: Seq<int>,
    s: Seq<bool>,
    b: Seq<int>,
    t: Seq<bool>,
    p: Seq<int>,
)
    requires
        is_permutation(p),
        b.len() == p.len(),
        t.len() == p.len(),
        forall|k: int| 0 <= k < p.len() ==> share(b, t, k) == share(a, s, #[trigger] p[k]),
    ensures
        picked(b, t, p.len() as int) == picked(a, s, p.len() as int),
    decreases p.len(),
{
    let n: int = p.len() as int;
    if n > 0 {
        assert(hits(p, n - 1));
        let j: int = choose|k: int| 0 <= k < p.len() && #[trigger] p[k] == n - 1;
        let q = p.remove(j);
        let b1 = b.remove(j);
        let t1 = t.remove(j);
        lemma_permutation_without_top(p, j);
        assert forall|k: int| 0 <= k < q.len() implies share(b1, t1, k) == share(
            a,
            s,
            #[trigger] q[k],
        ) by {
            let from: int = if k < j {
                k
            } else {
                k + 1
            };
            assert(q[k] == p[from]);
            assert(share(b1, t1, k) == share(b, t, from));
        }
        lemma_rearranged_sum(a, s, b1, t1, q);
        lemma_picked_without(b, t, j, n);
        assert(share(b, t, j) == share(a, s, p[j]));
    }
}

} // verus!
