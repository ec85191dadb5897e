//! Selections of items and what they are worth.
//!
//! A selection is a sequence of booleans, one per item: `true` where the item
//! is taken.  Sums run over integer sequences so that worth and weight share
//! one set of lemmas.

use vstd::prelude::*;
use crate::item::{Value, Weight};

verus! {

/// The worth of each item, as integers.
pub open spec fn values_of(items: Seq<(Value, Weight)>) -> Seq<int> {
    Seq::new(items.len(), |i: int| items[i].0 as int)
}

/// The weight of each item, as integers.
pub open spec fn weights_of(items: Seq<(Value, Weight)>) -> Seq<int> {
    Seq::new(items.len(), |i: int| items[i].1 as int)
}

/// What position `i` adds to a sum: `a[i]` where `sel` takes it, else nothing.
pub open spec fn share(a: Seq<int>, sel: Seq<bool>, i: int) -> int {
    if sel[i] {
        a[i]
    } else {
        0
    }
}

/// Sum of `a` over the positions below `upto` that `sel` takes.
pub open spec fn picked(a: Seq<int>, sel: Seq<bool>, upto: int) -> int
    decreases upto,
{
    if upto <= 0 {
        0
    } else {
        picked(a, sel, upto - 1) + share(a, sel, upto - 1)
    }
}

/// Sum of `a` over the positions from `from` on that `sel` takes.
pub open spec fn picked_from(a: Seq<int>, sel: Seq<bool>, from: int) -> int
    decreases a.len() - from,
{
    if from >= a.len() {
        0
    } else {
        share(a, sel, from) + picked_from(a, sel, from + 1)
    }
}

/// The selection of length `n` that takes everything.
pub open spec fn everything(n: nat) -> Seq<bool> {
    Seq::new(n, |i: int| true)
}

/// The selection of length `n` that takes nothing.
pub open spec fn nothing(n: nat) -> Seq<bool> {
    Seq::new(n, |i: int| false)
}

/// Total worth of the items that `sel` takes.
pub open spec fn selection_value(items: Seq<(Value, Weight)>, sel: Seq<bool>) -> int {
    picked(values_of(items), sel, items.len() as int)
}

/// Total weight of the items that `sel` takes.
pub open spec fn selection_weight(items: Seq<(Value, Weight)>, sel: Seq<bool>) -> int {
    picked(weights_of(items), sel, items.len() as int)
}

/// Worth of all the items together.
pub open spec fn total_value(items: Seq<(Value, Weight)>) -> int {
    selection_value(items, everything(items.len()))
}

/// `sel` decides on every item and what it takes weighs no more than `capacity`.
pub open spec fn feasible(items: Seq<(Value, Weight)>, capacity: int, sel: Seq<bool>) -> bool {
    sel.len() == items.len() && selection_weight(items, sel) <= capacity
}

/// No selection that fits `capacity` is worth more than `best`.
pub open spec fn is_optimal(items: Seq<(Value, Weight)>, capacity: int, best: int) -> bool {
    forall|sel: Seq<bool>| #[trigger]
        feasible(items, capacity, sel) ==> selection_value(items, sel) <= best
}

/// Whatever fits `capacity` is worth no more than the machine can count.
pub open spec fn worth_fits(items: Seq<(Value, Weight)>, capacity: int) -> bool {
    forall|sel: Seq<bool>| #[trigger]
        feasible(items, capacity, sel) ==> selection_value(items, sel) <= usize::MAX
}

/// `sel` decides as `dec` does on every position that `dec` covers.
pub open spec fn extends(sel: Seq<bool>, dec: Seq<bool>) -> bool {
    dec.len() <= sel.len() && forall|i: int| 0 <= i < dec.len() ==> sel[i] == dec[i]
}

/// `dec` followed by as many refusals as it takes to decide on `n` items.
pub open spec fn padded(dec: Seq<bool>, n: nat) -> Seq<bool> {
    Seq::new(n, |i: int| i < dec.len() && dec[i])
}

/// No entry of `a` is negative.
pub open spec fn non_negative(a: Seq<int>) -> bool {
    forall|i: int| 0 <= i < a.len() ==> a[i] >= 0
}

/// A sum over all positions is the sum below `k` plus the sum from `k` on.
pub proof fn lemma_picked_split(a: Seq<int>, sel: Seq<bool>, k: int)
    requires
        0 <= k <= a.len(),
    ensures
        picked(a, sel, a.len() as int) == picked(a, sel, k) + picked_from(a, sel, k),
    decreases a.len() - k,
{
    if k < a.len() {
        lemma_picked_split(a, sel, k + 1);
    }
}

/// Sums below `upto` agree when every position below `upto` adds the same.
pub proof fn lemma_picked_agree(a: Seq<int>, s: Seq<bool>, b: Seq<int>, t: Seq<bool>, upto: int)
    requires
        forall|i: int| 0 <= i < upto ==> share(a, s, i) == share(b, t, i),
    ensures
        picked(a, s, upto) == picked(b, t, upto),
    decreases upto,
{
    if upto > 0 {
        lemma_picked_agree(a, s, b, t, upto - 1);
    }
}

/// Refusals add nothing: padding a decision sequence keeps its sum.
pub proof fn lemma_picked_padded(a: Seq<int>, dec: Seq<bool>, n: nat, upto: int)
    requires
        dec.len() <= upto <= n,
    ensures
        picked(a, padded(dec, n), upto) == picked(a, dec, dec.len() as int),
    decreases upto,
{
    if upto > dec.len() {
        lemma_picked_padded(a, dec, n, upto - 1);
    } else {
        lemma_picked_agree(a, padded(dec, n), a, dec, upto);
    }
}

/// A sum of non-negative entries is non-negative and at most the sum of all
/// of them.
pub proof fn lemma_picked_bounds(a: Seq<int>, sel: Seq<bool>, upto: int)
    requires
        non_negative(a),
        upto <= a.len(),
    ensures
        0 <= picked(a, sel, upto) <= picked(a, everything(a.len()), upto),
    decreases upto,
{
    if upto > 0 {
        lemma_picked_bounds(a, sel, upto - 1);
    }
}

/// The same for sums that start at `from`.
pub proof fn lemma_picked_from_bounds(a: Seq<int>, sel: Seq<bool>, from: int)
    requires
        non_negative(a),
        0 <= from,
    ensures
        0 <= picked_from(a, sel, from) <= picked_from(a, everything(a.len()), from),
    decreases a.len() - from,
{
    if from < a.len() {
        lemma_picked_from_bounds(a, sel, from + 1);
    }
}

/// A taken item weighs no more than the selection it belongs to.
pub proof fn lemma_picked_holds_share(a: Seq<int>, sel: Seq<bool>, upto: int, i: int)
    requires
        non_negative(a),
        0 <= i < upto <= a.len(),
    ensures
        share(a, sel, i) <= picked(a, sel, upto),
    decreases upto,
{
    if i < upto - 1 {
        lemma_picked_holds_share(a, sel, upto - 1, i);
    } else {
        lemma_picked_bounds(a, sel, upto - 1);
    }
}

/// A sum that adds no more at any position than another is no greater, and
/// if it is as great, it adds as much at every position.
pub proof fn lemma_picked_pointwise(
    a: Seq<int>,
    s: Seq<bool>,
    b: Seq<int>,
    t: Seq<bool>,
    upto: int,
)
    requires
        forall|i: int| 0 <= i < upto ==> share(a, s, i) <= share(b, t, i),
    ensures
        picked(a, s, upto) <= picked(b, t, upto),
        picked(a, s, upto) == picked(b, t, upto) ==> forall|i: int|
            0 <= i < upto ==> share(a, s, i) == share(b, t, i),
    decreases upto,
{
    if upto > 0 {
        lemma_picked_pointwise(a, s, b, t, upto - 1);
    }
}

/// Where nothing taken counts for anything, the sum is zero.
pub proof fn lemma_picked_zero(a: Seq<int>, sel: Seq<bool>, upto: int)
    requires
        forall|i: int| 0 <= i < upto ==> share(a, sel, i) == 0,
    ensures
        picked(a, sel, upto) == 0,
    decreases upto,
{
    if upto > 0 {
        lemma_picked_zero(a, sel, upto - 1);
    }
}

/// `dec` and `sel` decide alike before position `k`, where `dec` takes and
/// `sel` leaves.
pub open spec fn parts_at(dec: Seq<bool>, sel: Seq<bool>, k: int) -> bool {
    &&& 0 <= k < dec.len()
    &&& k < sel.len()
    &&& dec[k]
    &&& !sel[k]
    &&& forall|i: int| 0 <= i < k ==> sel[i] == dec[i]
}

/// A search that tries taking before leaving comes to `dec` before it comes
/// to `sel`, because `sel` leaves an item that `dec` takes where the two
/// first differ.
pub open spec fn turns_later(dec: Seq<bool>, sel: Seq<bool>) -> bool {
    exists|k: int| #[trigger] parts_at(dec, sel, k)
}

/// `other` takes all that `sel` takes and decides as `sel` does before each
/// item that `sel` takes: it is `sel`, or `sel` with more taken after the
/// last item of `sel`.
pub open spec fn keeps_all_of(sel: Seq<bool>, other: Seq<bool>) -> bool {
    forall|j: int|
        0 <= j < sel.len() && #[trigger] sel[j] ==> j < other.len() && other[j] && forall|i: int|
            0 <= i < j ==> other[i] == sel[i]
}

/// `sel` is among the best selections the one that a search which tries
/// taking before leaving meets first: it fits, nothing that fits is worth
/// more, whatever fits and is worth as much comes after it, and the last item
/// it takes is worth something.
pub open spec fn is_first_best(items: Seq<(Value, Weight)>, capacity: int, sel: Seq<bool>) -> bool {
    &&& feasible(items, capacity, sel)
    &&& is_optimal(items, capacity, selection_value(items, sel))
    &&& forall|other: Seq<bool>| #[trigger]
        feasible(items, capacity, other) && selection_value(items, other) == selection_value(
            items,
            sel,
        ) ==> turns_later(sel, other) || keeps_all_of(sel, other)
    &&& forall|j: int|
        0 <= j < sel.len() && #[trigger] sel[j] && (forall|i: int| j < i < sel.len() ==> !sel[i])
            ==> items[j].0 > 0
}

/// What extends a beginning extends every beginning of that beginning.
pub proof fn lemma_extends_chain(sel: Seq<bool>, mid: Seq<bool>, dec: Seq<bool>)
    requires
        extends(sel, mid),
        extends(mid, dec),
    ensures
        extends(sel, dec),
{
}

/// What extends a beginning that turns later than `dec` turns later than
/// `dec` itself.
pub proof fn lemma_turns_later_chain(dec: Seq<bool>, mid: Seq<bool>, sel: Seq<bool>)
    requires
        turns_later(dec, mid),
        extends(sel, mid),
    ensures
        turns_later(dec, sel),
{
    let k: int = choose|k: int| #[trigger] parts_at(dec, mid, k);
    assert(parts_at(dec, sel, k));
}

/// What turns later than a beginning turns later than whatever extends it.
pub proof fn lemma_turns_later_than_longer(dec: Seq<bool>, longer: Seq<bool>, sel: Seq<bool>)
    requires
        turns_later(dec, sel),
        extends(longer, dec),
    ensures
        turns_later(longer, sel),
{
    let k: int = choose|k: int| #[trigger] parts_at(dec, sel, k);
    assert(parts_at(longer, sel, k));
}

/// Only one selection is the first among the best.
pub proof fn lemma_first_best_unique(
    items: Seq<(Value, Weight)>,
    capacity: int,
    a: Seq<bool>,
    b: Seq<bool>,
)
    requires
        is_first_best(items, capacity, a),
        is_first_best(items, capacity, b),
    ensures
        a == b,
{
    assert(feasible(items, capacity, a));
    assert(feasible(items, capacity, b));
    assert(selection_value(items, a) == selection_value(items, b));
    if a != b {
        assert(!(a =~= b));
        lemma_first_difference(a, b, a.len() as int);
        let k: int = first_difference(a, b, a.len() as int);
        if a[k] {
            lemma_tail_is_worthless(items, capacity, b, a, k);
            assert(a[last_taken(a, items.len() as int)]);
        } else {
            lemma_tail_is_worthless(items, capacity, a, b, k);
            assert(b[last_taken(b, items.len() as int)]);
        }
        assert(false);
    }
}

/// The first position below `upto` where `a` and `b` differ, or `upto` if
/// there is none.
pub open spec fn first_difference(a: Seq<bool>, b: Seq<bool>, upto: int) -> int
    decreases upto,
{
    if upto <= 0 {
        0
    } else if first_difference(a, b, upto - 1) < upto - 1 {
        first_difference(a, b, upto - 1)
    } else if a[upto - 1] != b[upto - 1] {
        upto - 1
    } else {
        upto
    }
}

/// Below their first difference two selections agree, and there they differ.
proof fn lemma_first_difference(a: Seq<bool>, b: Seq<bool>, upto: int)
    requires
        0 <= upto,
    ensures
        0 <= first_difference(a, b, upto) <= upto,
        forall|i: int| 0 <= i < first_difference(a, b, upto) ==> a[i] == b[i],
        first_difference(a, b, upto) < upto ==> a[first_difference(a, b, upto)] != b[
            first_difference(a, b, upto)
        ],
    decreases upto,
{
    if upto > 0 {
        lemma_first_difference(a, b, upto - 1);
    }
}

/// If `short` is first among the best, and `long` fits, is worth as much and
/// first differs from `short` at `k`, where `long` takes, then `long` ends on
/// an item worth nothing.
proof fn lemma_tail_is_worthless(
    items: Seq<(Value, Weight)>,
    capacity: int,
    short: Seq<bool>,
    long: Seq<bool>,
    k: int,
)
    requires
        is_first_best(items, capacity, short),
        feasible(items, capacity, long),
        selection_value(items, short) == selection_value(items, long),
        0 <= k < short.len(),
        long[k],
        !short[k],
        forall|i: int| 0 <= i < k ==> short[i] == long[i],
    ensures
        k <= last_taken(long, items.len() as int) < items.len(),
        long[last_taken(long, items.len() as int)],
        forall|i: int| last_taken(long, items.len() as int) < i < items.len() ==> !long[i],
        items[last_taken(long, items.len() as int)].0 == 0,
{
    let n: int = items.len() as int;
    let a = values_of(items);
    assert(feasible(items, capacity, short));
    // `long` does not turn later than `short`, so it keeps all of `short`:
    // `short` takes nothing from `k` on.
    if turns_later(short, long) {
        let m: int = choose|m: int| #[trigger] parts_at(short, long, m);
        assert(false);
    }
    assert(keeps_all_of(short, long));
    assert forall|i: int| k <= i < n implies !short[i] by {
        if short[i] {
            assert(long[i] && forall|j: int| 0 <= j < i ==> long[j] == short[j]);
        }
    }
    // Both are worth the same, so what `long` takes from `k` on is worth
    // nothing.
    lemma_picked_split(a, short, k);
    lemma_picked_split(a, long, k);
    lemma_picked_agree(a, short, a, long, k);
    lemma_picked_from_zero(a, short, k);
    assert(picked_from(a, long, k) == 0);
    assert(non_negative(a));
    let last: int = last_taken(long, n);
    lemma_last_taken(long, n);
    assert(last >= k);
    lemma_picked_from_holds_share(a, long, k, last);
}

/// The last position below `upto` that `sel` takes, or `-1` if it takes none.
pub open spec fn last_taken(sel: Seq<bool>, upto: int) -> int
    decreases upto,
{
    if upto <= 0 {
        -1
    } else if sel[upto - 1] {
        upto - 1
    } else {
        last_taken(sel, upto - 1)
    }
}

/// The last taken item is taken, and nothing after it is.
proof fn lemma_last_taken(sel: Seq<bool>, upto: int)
    requires
        0 <= upto,
    ensures
        -1 <= last_taken(sel, upto) < upto,
        last_taken(sel, upto) >= 0 ==> sel[last_taken(sel, upto)],
        forall|i: int| last_taken(sel, upto) < i < upto ==> !sel[i],
    decreases upto,
{
    if upto > 0 && !sel[upto - 1] {
        lemma_last_taken(sel, upto - 1);
    }
}

/// A sum from `from` on over nothing taken is zero.
pub proof fn lemma_picked_from_zero(a: Seq<int>, sel: Seq<bool>, from: int)
    requires
        forall|i: int| from <= i < a.len() ==> !sel[i],
    ensures
        picked_from(a, sel, from) == 0,
    decreases a.len() - from,
{
    if from < a.len() {
        lemma_picked_from_zero(a, sel, from + 1);
    }
}

/// A share is no more than a sum it belongs to, for sums that start at `from`.
pub proof fn lemma_picked_from_holds_share(a: Seq<int>, sel: Seq<bool>, from: int, i: int)
    requires
        non_negative(a),
        0 <= from <= i < a.len(),
    ensures
        share(a, sel, i) <= picked_from(a, sel, from),
    decreases a.len() - from,
{
    if from < i {
        lemma_picked_from_holds_share(a, sel, from + 1, i);
    } else {
        lemma_picked_from_bounds(a, sel, from + 1);
    }
}

} // verus!
