//! Puts items in the order of the search and remembers where each came from.

use vstd::prelude::*;
use crate::item::{item_pairs, Item, Value, Weight};
use crate::ranking::{lemma_precedes_transitive, outranks, precedes, ranked};

verus! {

/// Some entry of `out` carries `label`.
pub open spec fn appears(out: Seq<(usize, Value, Weight)>, label: int) -> bool {
    exists|k: int| 0 <= k < out.len() && (#[trigger] out[k]).0 == label
}

/// `out` holds every item of `pairs` exactly once, each labelled with the
/// position it has in `pairs`.
pub open spec fn is_arrangement(
    out: Seq<(usize, Value, Weight)>,
    pairs: Seq<(Value, Weight)>,
) -> bool {
    &&& out.len() == pairs.len()
    &&& forall|k: int|
        0 <= k < out.len() ==> {
            &&& (#[trigger] out[k]).0 < pairs.len()
            &&& out[k].1 == pairs[out[k].0 as int].0
            &&& out[k].2 == pairs[out[k].0 as int].1
        }
    &&& forall|k: int, m: int|
        0 <= k < m < out.len() ==> (#[trigger] out[k]).0 != (#[trigger] out[m]).0
    &&& forall|i: int| 0 <= i < pairs.len() ==> #[trigger] appears(out, i)
}

/// Whether `a` outranks `b`: denser, or as dense and worth more.  The
/// densities are compared exactly, by cross-multiplication.
pub fn goes_first(a: (Value, Weight), b: (Value, Weight)) -> (r: bool)
    ensures
        r == outranks(a, b),
{
    proof {
        assert(a.0 * b.1 <= 0xffff_ffff_ffff_ffff * 0xffff_ffff_ffff_ffff) by (nonlinear_arith)
            requires
                0 <= a.0 <= 0xffff_ffff_ffff_ffff,
                0 <= b.1 <= 0xffff_ffff_ffff_ffff,
        ;
        assert(b.0 * a.1 <= 0xffff_ffff_ffff_ffff * 0xffff_ffff_ffff_ffff) by (nonlinear_arith)
            requires
                0 <= b.0 <= 0xffff_ffff_ffff_ffff,
                0 <= a.1 <= 0xffff_ffff_ffff_ffff,
        ;
    }
    let left: u128 = (a.0 as u128) * (b.1 as u128);
    let right: u128 = (b.0 as u128) * (a.1 as u128);
    left > right || (left == right && a.0 > b.0)
}

/// Each item's position, worth and weight, in the order given.
fn label_items<I: Item>(items: &Vec<I>) -> (out: Vec<(usize, Value, Weight)>)
    ensures
        out.len() == items.len(),
        forall|k: int|
            0 <= k < out.len() ==> #[trigger] out[k] == (
                k as usize,
                item_pairs(items@)[k].0,
                item_pairs(items@)[k].1,
            ),
{
    let mut out: Vec<(usize, Value, Weight)> = Vec::new();
    let mut i: usize = 0;
    while i < items.len()
        invariant
            i <= items.len(),
            out.len() == i,
            forall|k: int|
                0 <= k < i ==> #[trigger] out[k] == (
                    k as usize,
                    item_pairs(items@)[k].0,
                    item_pairs(items@)[k].1,
                ),
        decreases items.len() - i,
    {
        let v: Value = items[i].value();
        let w: Weight = items[i].weight();
        out.push((i, v, w));
        i = i + 1;
    }
    out
}

/// `out` with the entries at `j - 1` and `j` exchanged.
pub open spec fn exchanged(out: Seq<(usize, Value, Weight)>, j: int) -> Seq<(usize, Value, Weight)> {
    out.update(j, out[j - 1]).update(j - 1, out[j])
}

/// Exchanging two neighbours keeps an arrangement an arrangement.
proof fn lemma_exchange_keeps_arrangement(
    out: Seq<(usize, Value, Weight)>,
    pairs: Seq<(Value, Weight)>,
    j: int,
)
    requires
        is_arrangement(out, pairs),
        0 < j < out.len(),
    ensures
        is_arrangement(exchanged(out, j), pairs),
{
    let after = exchanged(out, j);
    assert forall|k: int| 0 <= k < after.len() implies {
        &&& (#[trigger] after[k]).0 < pairs.len()
        &&& after[k].1 == pairs[after[k].0 as int].0
        &&& after[k].2 == pairs[after[k].0 as int].1
    } by {
        let from: int = if k == j {
            j - 1
        } else if k == j - 1 {
            j
        } else {
            k
        };
        assert(after[k] == out[from]);
    }
    assert forall|k: int, m: int| 0 <= k < m < after.len() implies (#[trigger] after[k]).0 != (
    #[trigger] after[m]).0 by {
        let fk: int = if k == j {
            j - 1
        } else if k == j - 1 {
            j
        } else {
            k
        };
        let fm: int = if m == j {
            j - 1
        } else if m == j - 1 {
            j
        } else {
            m
        };
        assert(after[k] == out[fk]);
        assert(after[m] == out[fm]);
        if fk < fm {
            assert(out[fk].0 != out[fm].0);
        } else {
            assert(out[fm].0 != out[fk].0);
        }
    }
    assert forall|i: int| 0 <= i < pairs.len() implies #[trigger] appears(after, i) by {
        assert(appears(out, i));
        let k: int = choose|k: int| 0 <= k < out.len() && (#[trigger] out[k]).0 == i;
        let to: int = if k == j {
            j - 1
        } else if k == j - 1 {
            j
        } else {
            k
        };
        assert(after[to].0 == i);
    }
}

/// The items of `items` in the order of the search: by falling density, then
/// by falling worth, then as they came.  Each entry holds the position the
/// item has in `items`, its worth and its weight.
pub fn sort<I: Item>(items: &Vec<I>) -> (out: Vec<(usize, Value, Weight)>)
    ensures
        is_arrangement(out@, item_pairs(items@)),
        ranked(out@),
{
    let n: usize = items.len();
    let ghost pairs = item_pairs(items@);
    let mut out: Vec<(usize, Value, Weight)> = label_items(items);
    proof {
        assert forall|i: int| 0 <= i < pairs.len() implies #[trigger] appears(out@, i) by {
            assert(out@[i].0 == i);
        }
        assert(is_arrangement(out@, pairs));
    }
    let mut i: usize = 0;
    while i < n
        invariant
            i <= n,
            n == items.len(),
            out.len() == n,
            pairs == item_pairs(items@),
            is_arrangement(out@, pairs),
            forall|a: int, b: int| 0 <= a < b < i ==> #[trigger] precedes(out@[a], out@[b]),
            forall|k: int| i <= k < n ==> (#[trigger] out@[k]).0 == k,
            forall|k: int| 0 <= k < i ==> (#[trigger] out@[k]).0 < i,
        decreases n - i,
    {
        let mut j: usize = i;
        while j > 0 && goes_first((out[j].1, out[j].2), (out[j - 1].1, out[j - 1].2))
            invariant
                j <= i < n,
                out.len() == n,
                is_arrangement(out@, pairs),
                forall|a: int, b: int|
                    0 <= a < b <= i && a != j && b != j ==> #[trigger] precedes(out@[a], out@[b]),
                forall|b: int| j < b <= i ==> #[trigger] precedes(out@[j as int], out@[b]),
                out@[j as int].0 == i,
                forall|k: int| 0 <= k <= i && k != j ==> (#[trigger] out@[k]).0 < i,
                forall|k: int| i < k < n ==> (#[trigger] out@[k]).0 == k,
            decreases j,
        {
            let ghost before = out@;
            let upper: (usize, Value, Weight) = out[j];
            let lower: (usize, Value, Weight) = out[j - 1];
            out[j] = lower;
            out[j - 1] = upper;
            proof {
                assert(out@ == exchanged(before, j as int));
                lemma_exchange_keeps_arrangement(before, pairs, j as int);
                assert forall|a: int, b: int|
                    0 <= a < b <= i && a != j - 1 && b != j - 1 implies #[trigger] precedes(
                    out@[a],
                    out@[b],
                ) by {
                    if b == j {
                        assert(precedes(before[a], before[j - 1]));
                    } else if a == j {
                        assert(precedes(before[j - 1], before[b]));
                    } else {
                        assert(precedes(before[a], before[b]));
                    }
                }
                assert forall|b: int| j - 1 < b <= i implies #[trigger] precedes(
                    out@[j - 1],
                    out@[b],
                ) by {
                    if b > j {
                        assert(precedes(before[j as int], before[b]));
                    }
                }
            }
            j = j - 1;
        }
        proof {
            assert forall|a: int, b: int| 0 <= a < b < i + 1 implies #[trigger] precedes(
                out@[a],
                out@[b],
            ) by {
                if b == j {
                    assert(precedes(out@[j - 1], out@[j as int]));
                    if a < j - 1 {
                        assert(precedes(out@[a], out@[j - 1]));
                        lemma_precedes_transitive(out@[a], out@[j - 1], out@[j as int]);
                    }
                }
            }
        }
        i = i + 1;
    }
    out
}

/// The order of the search is one order only: two ranked arrangements of the
/// same items are the same.
pub proof fn lemma_ranked_arrangement_unique(
    a: Seq<(usize, Value, Weight)>,
    b: Seq<(usize, Value, Weight)>,
    pairs: Seq<(Value, Weight)>,
)
    requires
        is_arrangement(a, pairs),
        ranked(a),
        is_arrangement(b, pairs),
        ranked(b),
    ensures
        a == b,
{
    lemma_ranked_agree_below(a, b, pairs, a.len() as int);
    assert(a =~= b);
}

/// Two ranked arrangements of the same items agree below `upto`.
proof fn lemma_ranked_agree_below(
    a: Seq<(usize, Value, Weight)>,
    b: Seq<(usize, Value, Weight)>,
    pairs: Seq<(Value, Weight)>,
    upto: int,
)
    requires
        is_arrangement(a, pairs),
        ranked(a),
        is_arrangement(b, pairs),
        ranked(b),
        0 <= upto <= a.len(),
    ensures
        forall|k: int| 0 <= k < upto ==> a[k] == b[k],
    decreases upto,
{
    if upto > 0 {
        lemma_ranked_agree_below(a, b, pairs, upto - 1);
        let i: int = upto - 1;
        // Where the entry `a[i]` stands in `b`, and `b[i]` in `a`.
        assert(a[i].0 < pairs.len());
        assert(b[i].0 < pairs.len());
        assert(appears(b, a[i].0 as int));
        let m: int = choose|m: int| 0 <= m < b.len() && (#[trigger] b[m]).0 == a[i].0;
        assert(appears(a, b[i].0 as int));
        let w: int = choose|w: int| 0 <= w < a.len() && (#[trigger] a[w]).0 == b[i].0;
        assert(b[m] == a[i]);
        assert(a[w] == b[i]);
        if m < i {
            assert(a[m] == b[m]);
            assert(a[m].0 != a[i].0);
        }
        if w < i {
            assert(b[w] == a[w]);
            assert(b[w].0 != b[i].0);
        }
        if m > i {
            assert(precedes(b[i], b[m]));
            assert(b[i].0 != b[m].0);
            assert(w > i);
            assert(precedes(a[i], a[w]));
        }
    }
}

} // verus!
