//! The entry point: order the items, search, and report the best selection
//! in the order the items were given.

use vstd::prelude::*;
use crate::item::{item_pairs, Item, Value, Weight};
use crate::ranking::{cross, lemma_ranked_is_density_sorted, precedes, ranked};
use crate::rearrange::{hits, is_permutation, lemma_rearranged_sum};
use crate::search::{crawl, is_outcome, labels_taken, pairs_of, searchable};
use crate::selection::{
    everything, feasible, is_first_best, is_optimal, keeps_all_of, lemma_first_best_unique,
    lemma_picked_pointwise, turns_later,
    lemma_picked_bounds, lemma_picked_from_bounds, lemma_picked_holds_share, lemma_picked_split,
    lemma_picked_zero, non_negative, nothing, picked, selection_value, selection_weight, share,
    total_value, values_of, weights_of, worth_fits,
};
use crate::sorter::{appears, is_arrangement, lemma_ranked_arrangement_unique, sort};

verus! {

/// Where each entry of an arrangement came from.
pub open spec fn positions(out: Seq<(usize, Value, Weight)>) -> Seq<int> {
    Seq::new(out.len(), |k: int| out[k].0 as int)
}

/// The selection of arranged items that takes what `sel` takes of the items
/// as they were given.
pub open spec fn arranged(out: Seq<(usize, Value, Weight)>, sel: Seq<bool>) -> Seq<bool> {
    Seq::new(out.len(), |k: int| sel[out[k].0 as int])
}

/// Where in an arrangement the item that came at position `i` stands.
pub open spec fn place_of(out: Seq<(usize, Value, Weight)>, i: int) -> int {
    choose|k: int| 0 <= k < out.len() && (#[trigger] out[k]).0 == i
}

/// The selection of items as they were given that takes what `moved` takes
/// of the arranged items.
pub open spec fn restored(out: Seq<(usize, Value, Weight)>, moved: Seq<bool>) -> Seq<bool> {
    Seq::new(out.len(), |i: int| moved[place_of(out, i)])
}

/// Arranging what was restored gives back what was arranged.
pub proof fn lemma_restored(
    out: Seq<(usize, Value, Weight)>,
    pairs: Seq<(Value, Weight)>,
    moved: Seq<bool>,
)
    requires
        is_arrangement(out, pairs),
        moved.len() == out.len(),
    ensures
        restored(out, moved).len() == pairs.len(),
        forall|k: int|
            0 <= k < out.len() ==> moved[k] == restored(out, moved)[(#[trigger] out[k]).0 as int],
{
    assert forall|k: int| 0 <= k < out.len() implies moved[k] == restored(out, moved)[(
    #[trigger] out[k]).0 as int] by {
        let i: int = out[k].0 as int;
        assert(out[k].0 < pairs.len());
        let m: int = place_of(out, i);
        assert(0 <= m < out.len() && out[m].0 == i);
        if m < k {
            assert(out[m].0 != out[k].0);
        } else if k < m {
            assert(out[k].0 != out[m].0);
        }
    }
}

/// If whatever fits can be counted, it can be counted in any arrangement.
pub proof fn lemma_worth_fits_arranged(
    out: Seq<(usize, Value, Weight)>,
    pairs: Seq<(Value, Weight)>,
    capacity: int,
)
    requires
        is_arrangement(out, pairs),
        worth_fits(pairs, capacity),
    ensures
        worth_fits(pairs_of(out), capacity),
{
    assert forall|moved: Seq<bool>| #[trigger]
        feasible(pairs_of(out), capacity, moved) implies selection_value(pairs_of(out), moved)
        <= usize::MAX by {
        let sel = restored(out, moved);
        lemma_restored(out, pairs, moved);
        lemma_arranged_selection(out, pairs, sel, moved);
        assert(feasible(pairs, capacity, sel));
    }
}

/// Whatever fits can be counted where all items together can, where there
/// are no items, where every item alone is too heavy, and where no item is
/// worth anything.
pub proof fn lemma_worth_fits_when(items: Seq<(Value, Weight)>, capacity: int)
    ensures
        total_value(items) <= usize::MAX ==> worth_fits(items, capacity),
        items.len() == 0 ==> worth_fits(items, capacity),
        (forall|i: int| 0 <= i < items.len() ==> (#[trigger] items[i]).1 > capacity)
            ==> worth_fits(items, capacity),
        (forall|i: int| 0 <= i < items.len() ==> (#[trigger] items[i]).0 == 0) ==> worth_fits(
            items,
            capacity,
        ),
{
    if total_value(items) <= usize::MAX {
        assert forall|sel: Seq<bool>| #[trigger]
            feasible(items, capacity, sel) implies selection_value(items, sel) <= usize::MAX by {
            assert(non_negative(values_of(items)));
            lemma_picked_bounds(values_of(items), sel, items.len() as int);
        }
    }
    if forall|i: int| 0 <= i < items.len() ==> (#[trigger] items[i]).1 > capacity {
        assert forall|sel: Seq<bool>| #[trigger]
            feasible(items, capacity, sel) implies selection_value(items, sel) <= usize::MAX by {
            lemma_too_heavy_takes_nothing(items, capacity, sel);
        }
    }
    if forall|i: int| 0 <= i < items.len() ==> (#[trigger] items[i]).0 == 0 {
        assert forall|sel: Seq<bool>| #[trigger]
            feasible(items, capacity, sel) implies selection_value(items, sel) <= usize::MAX by {
            lemma_worthless_items(items, sel);
        }
    }
}

/// The origins of an arrangement form a permutation.
pub proof fn lemma_arrangement_permutes(
    out: Seq<(usize, Value, Weight)>,
    pairs: Seq<(Value, Weight)>,
)
    requires
        is_arrangement(out, pairs),
    ensures
        is_permutation(positions(out)),
{
    let p = positions(out);
    assert forall|k: int| 0 <= k < p.len() implies 0 <= #[trigger] p[k] < p.len() by {
        assert(out[k].0 < pairs.len());
    }
    assert forall|k: int, m: int| 0 <= k < m < p.len() implies #[trigger] p[k] != #[trigger] p[m] by {
        assert(out[k].0 != out[m].0);
    }
    assert forall|i: int| 0 <= i < p.len() implies #[trigger] hits(p, i) by {
        assert(appears(out, i));
        let k: int = choose|k: int| 0 <= k < out.len() && (#[trigger] out[k]).0 == i;
        assert(p[k] == i);
    }
}

/// A selection is worth and weighs the same whether its items are summed as
/// they were given or as they are arranged.
pub proof fn lemma_arranged_selection(
    out: Seq<(usize, Value, Weight)>,
    pairs: Seq<(Value, Weight)>,
    sel: Seq<bool>,
    moved: Seq<bool>,
)
    requires
        is_arrangement(out, pairs),
        moved.len() == out.len(),
        forall|k: int| 0 <= k < out.len() ==> moved[k] == sel[(#[trigger] out[k]).0 as int],
    ensures
        selection_value(pairs_of(out), moved) == selection_value(pairs, sel),
        selection_weight(pairs_of(out), moved) == selection_weight(pairs, sel),
{
    let p = positions(out);
    lemma_arrangement_permutes(out, pairs);
    assert forall|k: int| 0 <= k < p.len() implies share(values_of(pairs_of(out)), moved, k)
        == share(values_of(pairs), sel, #[trigger] p[k]) by {
        assert(out[k].0 < pairs.len());
    }
    lemma_rearranged_sum(values_of(pairs), sel, values_of(pairs_of(out)), moved, p);
    assert forall|k: int| 0 <= k < p.len() implies share(weights_of(pairs_of(out)), moved, k)
        == share(weights_of(pairs), sel, #[trigger] p[k]) by {
        assert(out[k].0 < pairs.len());
    }
    lemma_rearranged_sum(weights_of(pairs), sel, weights_of(pairs_of(out)), moved, p);
}

/// The label of a taken item is among the labels taken.
pub proof fn lemma_taken_label_listed(
    items: Seq<(usize, Value, Weight)>,
    sel: Seq<bool>,
    upto: int,
    k: int,
)
    requires
        0 <= k < upto,
        sel[k],
    ensures
        labels_taken(items, sel, upto).contains(items[k].0),
    decreases upto,
{
    let before = labels_taken(items, sel, upto - 1);
    if k == upto - 1 {
        assert(before.push(items[k].0)[before.len() as int] == items[k].0);
    } else {
        lemma_taken_label_listed(items, sel, upto - 1, k);
        let at: int = choose|at: int| 0 <= at < before.len() && before[at] == items[k].0;
        if sel[upto - 1] {
            assert(before.push(items[upto - 1].0)[at] == items[k].0);
        }
    }
}

/// A label among the labels taken belongs to a taken item.
pub proof fn lemma_listed_label_taken(
    items: Seq<(usize, Value, Weight)>,
    sel: Seq<bool>,
    upto: int,
    label: usize,
) -> (k: int)
    requires
        labels_taken(items, sel, upto).contains(label),
    ensures
        0 <= k < upto,
        sel[k],
        items[k].0 == label,
    decreases upto,
{
    if upto <= 0 {
        assert(false);
        0
    } else {
        let before = labels_taken(items, sel, upto - 1);
        if sel[upto - 1] && items[upto - 1].0 == label {
            upto - 1
        } else {
            let all = labels_taken(items, sel, upto);
            let at: int = choose|at: int| 0 <= at < all.len() && all[at] == label;
            assert(before[at] == label);
            lemma_listed_label_taken(items, sel, upto - 1, label)
        }
    }
}

/// Where every item alone is too heavy, a selection that fits takes nothing
/// and is worth nothing.
pub proof fn lemma_too_heavy_takes_nothing(
    items: Seq<(Value, Weight)>,
    capacity: int,
    sel: Seq<bool>,
)
    requires
        feasible(items, capacity, sel),
        forall|i: int| 0 <= i < items.len() ==> (#[trigger] items[i]).1 > capacity,
    ensures
        sel == nothing(items.len()),
        selection_value(items, sel) == 0,
{
    let w = weights_of(items);
    assert(non_negative(w));
    assert forall|i: int| 0 <= i < items.len() implies !sel[i] by {
        lemma_picked_holds_share(w, sel, items.len() as int, i);
        assert(items[i].1 > capacity);
    }
    assert(sel =~= nothing(items.len()));
    lemma_picked_zero(values_of(items), sel, items.len() as int);
}

/// Where no item is worth anything, no selection is.
pub proof fn lemma_worthless_items(items: Seq<(Value, Weight)>, sel: Seq<bool>)
    requires
        forall|i: int| 0 <= i < items.len() ==> (#[trigger] items[i]).0 == 0,
    ensures
        selection_value(items, sel) == 0,
{
    assert forall|i: int| 0 <= i < items.len() implies share(values_of(items), sel, i) == 0 by {
        assert(items[i].0 == 0);
    }
    lemma_picked_zero(values_of(items), sel, items.len() as int);
}

/// Whether `label` is among `labels`.
fn holds(labels: &Vec<usize>, label: usize) -> (found: bool)
    ensures
        found == labels@.contains(label),
{
    let mut i: usize = 0;
    while i < labels.len()
        invariant
            i <= labels.len(),
            forall|k: int| 0 <= k < i ==> labels@[k] != label,
        decreases labels.len() - i,
    {
        if labels[i] == label {
            return true;
        }
        i = i + 1;
    }
    false
}

/// `out` is the order in which `items` are searched, and `taken` is, in that
/// order, the first among the best selections.
pub open spec fn is_searched_as(
    items: Seq<(Value, Weight)>,
    capacity: int,
    taken: Seq<bool>,
    out: Seq<(usize, Value, Weight)>,
) -> bool {
    &&& is_arrangement(out, items)
    &&& ranked(out)
    &&& is_first_best(pairs_of(out), capacity, arranged(out, taken))
}

/// `taken` is the best selection of `items` that the search meets first: the
/// items are searched by falling density, then by falling worth, then as
/// they came, each tried taken before it is tried left, and of the
/// selections that fit and are worth most, `taken` is the first so met.
pub open spec fn is_first_found(items: Seq<(Value, Weight)>, capacity: int, taken: Seq<bool>) -> bool {
    &&& taken.len() == items.len()
    &&& exists|out: Seq<(usize, Value, Weight)>| #[trigger]
        is_searched_as(items, capacity, taken, out)
}

/// Only one selection is the best that the search meets first: what
/// [`solve`] promises of its selection holds of no other.
pub proof fn lemma_first_found_unique(
    items: Seq<(Value, Weight)>,
    capacity: int,
    a: Seq<bool>,
    b: Seq<bool>,
)
    requires
        is_first_found(items, capacity, a),
        is_first_found(items, capacity, b),
    ensures
        a == b,
{
    let out_a = choose|out: Seq<(usize, Value, Weight)>| #[trigger]
        is_searched_as(items, capacity, a, out);
    let out_b = choose|out: Seq<(usize, Value, Weight)>| #[trigger]
        is_searched_as(items, capacity, b, out);
    lemma_ranked_arrangement_unique(out_a, out_b, items);
    lemma_first_best_unique(
        pairs_of(out_a),
        capacity,
        arranged(out_a, a),
        arranged(out_a, b),
    );
    assert forall|i: int| 0 <= i < items.len() implies a[i] == b[i] by {
        assert(appears(out_a, i));
        let k: int = choose|k: int| 0 <= k < out_a.len() && (#[trigger] out_a[k]).0 == i;
        assert(arranged(out_a, a)[k] == a[i]);
        assert(arranged(out_a, b)[k] == b[i]);
    }
    assert(a =~= b);
}

/// Whether the items are worth no more together than the machine can count.
/// Where they are, [`solve`] takes them with any capacity.
pub fn values_fit<I: Item>(items: &Vec<I>) -> (fit: bool)
    ensures
        fit == (total_value(item_pairs(items@)) <= usize::MAX),
        fit ==> forall|capacity: int| #[trigger] worth_fits(item_pairs(items@), capacity),
{
    let ghost a = values_of(item_pairs(items@));
    let ghost all = everything(items@.len());
    let mut sum: usize = 0;
    let mut i: usize = 0;
    while i < items.len()
        invariant
            i <= items.len(),
            a == values_of(item_pairs(items@)),
            all == everything(items@.len()),
            sum == picked(a, all, i as int),
        decreases items.len() - i,
    {
        let v: Value = items[i].value();
        if v > usize::MAX - sum {
            proof {
                assert(non_negative(a));
                lemma_picked_split(a, all, i + 1);
                lemma_picked_from_bounds(a, all, i + 1);
            }
            return false;
        }
        sum = sum + v;
        i = i + 1;
    }
    proof {
        assert forall|capacity: int| #[trigger] worth_fits(item_pairs(items@), capacity) by {
            lemma_worth_fits_when(item_pairs(items@), capacity);
        }
    }
    true
}

/// The selection that takes exactly the items that weigh nothing and are
/// worth something.
pub open spec fn free_worth(items: Seq<(Value, Weight)>) -> Seq<bool> {
    Seq::new(items.len(), |i: int| items[i].1 == 0 && items[i].0 > 0)
}

/// With no room, nothing that fits is worth more than the items that weigh
/// nothing and are worth something, and what is worth as much takes them all.
pub proof fn lemma_free_worth_is_best(items: Seq<(Value, Weight)>, sel: Seq<bool>)
    requires
        feasible(items, 0, sel),
    ensures
        feasible(items, 0, free_worth(items)),
        selection_weight(items, free_worth(items)) == 0,
        selection_value(items, sel) <= selection_value(items, free_worth(items)),
        selection_value(items, sel) == selection_value(items, free_worth(items)) ==> forall|
            i: int,
        | 0 <= i < items.len() && free_worth(items)[i] ==> sel[i],
{
    let n: int = items.len() as int;
    let free = free_worth(items);
    lemma_picked_zero(weights_of(items), free, n);
    assert(non_negative(weights_of(items)));
    assert forall|i: int| 0 <= i < n implies share(values_of(items), sel, i) <= share(
        values_of(items),
        free,
        i,
    ) by {
        lemma_picked_holds_share(weights_of(items), sel, n, i);
    }
    lemma_picked_pointwise(values_of(items), sel, values_of(items), free, n);
    if selection_value(items, sel) == selection_value(items, free) {
        assert forall|i: int| 0 <= i < n && free[i] implies sel[i] by {
            assert(share(values_of(items), sel, i) == share(values_of(items), free, i));
        }
    }
}

/// In the order of the search, the items that weigh nothing and are worth
/// something come before all others.
pub proof fn lemma_free_worth_leads(out: Seq<(usize, Value, Weight)>, i: int, j: int)
    requires
        ranked(out),
        0 <= i < j < out.len(),
        out[j].2 == 0,
        out[j].1 > 0,
    ensures
        out[i].2 == 0,
        out[i].1 > 0,
{
    assert(precedes(out[i], out[j]));
    let vi: int = out[i].1 as int;
    let wi: int = out[i].2 as int;
    let vj: int = out[j].1 as int;
    assert(cross((out[j].1, out[j].2), (out[i].1, out[i].2)) == vj * wi - vi * 0);
    assert(cross((out[i].1, out[i].2), (out[j].1, out[j].2)) == vi * 0 - vj * wi);
    assert(wi == 0) by (nonlinear_arith)
        requires
            vj > 0,
            wi >= 0,
            vj * wi <= 0,
    ;
    assert(vj * wi == 0) by (nonlinear_arith)
        requires
            wi == 0,
    ;
}

/// With no room, the items that weigh nothing and are worth something are
/// the first among the best selections, in the order of the search.
pub proof fn lemma_free_worth_first_best(
    out: Seq<(usize, Value, Weight)>,
    pairs: Seq<(Value, Weight)>,
)
    requires
        is_arrangement(out, pairs),
        ranked(out),
    ensures
        arranged(out, free_worth(pairs)) == free_worth(pairs_of(out)),
        is_first_best(pairs_of(out), 0, free_worth(pairs_of(out))),
{
    let sorted = pairs_of(out);
    let free = free_worth(sorted);
    assert(arranged(out, free_worth(pairs)) =~= free) by {
        assert forall|k: int| 0 <= k < out.len() implies arranged(out, free_worth(pairs))[k]
            == free[k] by {
            assert(out[k].0 < pairs.len());
        }
    }
    lemma_picked_zero(weights_of(sorted), free, sorted.len() as int);
    lemma_free_worth_is_best(sorted, free);
    assert forall|other: Seq<bool>| #[trigger] feasible(sorted, 0, other) implies selection_value(
        sorted,
        other,
    ) <= selection_value(sorted, free) by {
        lemma_free_worth_is_best(sorted, other);
    }
    assert forall|other: Seq<bool>| #[trigger]
        feasible(sorted, 0, other) && selection_value(sorted, other) == selection_value(
            sorted,
            free,
        ) implies turns_later(free, other) || keeps_all_of(free, other) by {
        lemma_free_worth_is_best(sorted, other);
        assert forall|j: int| 0 <= j < free.len() && #[trigger] free[j] implies j < other.len()
            && other[j] && forall|i: int| 0 <= i < j ==> other[i] == free[i] by {
            assert forall|i: int| 0 <= i < j implies other[i] == free[i] by {
                lemma_free_worth_leads(out, i, j);
            }
        }
    }
}

/// The items that weigh nothing and are worth something, and what they are
/// worth together.
fn take_free_worth<I: Item>(items: &Vec<I>) -> (r: (Value, Vec<bool>))
    requires
        worth_fits(item_pairs(items@), 0),
    ensures
        r.1@ == free_worth(item_pairs(items@)),
        r.0 == selection_value(item_pairs(items@), r.1@),
{
    let ghost pairs = item_pairs(items@);
    let ghost free = free_worth(pairs);
    let mut taken: Vec<bool> = Vec::new();
    let mut worth: Value = 0;
    let mut i: usize = 0;
    proof {
        lemma_picked_zero(weights_of(pairs), free, pairs.len() as int);
        assert(feasible(pairs, 0, free));
        assert(non_negative(values_of(pairs)));
    }
    while i < items.len()
        invariant
            i <= items.len(),
            pairs == item_pairs(items@),
            free == free_worth(pairs),
            taken.len() == i,
            forall|k: int| 0 <= k < i ==> taken@[k] == free[k],
            worth == picked(values_of(pairs), free, i as int),
            selection_value(pairs, free) <= usize::MAX,
            non_negative(values_of(pairs)),
        decreases items.len() - i,
    {
        let v: Value = items[i].value();
        let w: Weight = items[i].weight();
        let take: bool = w == 0 && v > 0;
        proof {
            lemma_picked_split(values_of(pairs), free, i + 1);
            lemma_picked_from_bounds(values_of(pairs), free, i + 1);
        }
        if take {
            worth = worth + v;
        }
        taken.push(take);
        i = i + 1;
    }
    assert(taken@ =~= free);
    (worth, taken)
}

/// Finds a selection of `items` of the greatest worth that a knapsack with
/// room `slack` can hold.  Returns that worth, the weight of the selection,
/// and for each item, in the order given, whether it is taken.
///
/// An item that weighs nothing and is worth something is always taken.  With
/// no room these items are the selection; with room the search finds it.
///
/// The worth is handed out as a machine number, so whatever fits the
/// knapsack must be worth no more than such a number holds.
pub fn solve<I: Item>(items: &Vec<I>, slack: Weight) -> (r: (Value, Weight, Vec<bool>))
    requires
        worth_fits(item_pairs(items@), slack as int),
    ensures
        r.2@.len() == items@.len(),
        r.0 == selection_value(item_pairs(items@), r.2@),
        r.1 == selection_weight(item_pairs(items@), r.2@),
        r.1 <= slack,
        is_optimal(item_pairs(items@), slack as int, r.0 as int),
        is_first_found(item_pairs(items@), slack as int, r.2@),
        items@.len() == 0 ==> r.0 == 0 && r.1 == 0,
        (forall|i: int| 0 <= i < items@.len() ==> (#[trigger] items@[i]).weight_spec() > slack)
            ==> r.0 == 0 && r.2@ == nothing(items@.len()),
        (forall|i: int| 0 <= i < items@.len() ==> (#[trigger] items@[i]).value_spec() == 0)
            ==> r.0 == 0,
{
    let ghost pairs = item_pairs(items@);
    let sorted_items = sort(items);
    let ghost out = sorted_items@;
    let (value, total_weight, res) = if slack == 0 {
        let (worth, taken) = take_free_worth(items);
        proof {
            lemma_free_worth_first_best(out, pairs);
            assert(is_searched_as(pairs, 0, taken@, out));
            assert forall|sel: Seq<bool>| #[trigger] feasible(pairs, 0, sel) implies
                selection_value(pairs, sel) <= worth by {
                lemma_free_worth_is_best(pairs, sel);
            }
            lemma_picked_zero(weights_of(pairs), taken@, pairs.len() as int);
        }
        (worth, 0, taken)
    } else {
        search_with_room(items, sorted_items, slack)
    };
    proof {
        if forall|i: int| 0 <= i < pairs.len() ==> (#[trigger] items@[i]).weight_spec() > slack {
            assert forall|i: int| 0 <= i < pairs.len() implies (#[trigger] pairs[i]).1 > slack by {
                assert(items@[i].weight_spec() > slack);
            }
            lemma_too_heavy_takes_nothing(pairs, slack as int, res@);
        }
        if forall|i: int| 0 <= i < pairs.len() ==> (#[trigger] items@[i]).value_spec() == 0 {
            assert forall|i: int| 0 <= i < pairs.len() implies (#[trigger] pairs[i]).0 == 0 by {
                assert(items@[i].value_spec() == 0);
            }
            lemma_worthless_items(pairs, res@);
        }
    }
    (value, total_weight, res)
}

/// Searches the arranged items for the best selection and reports it in the
/// order the items were given.
fn search_with_room<I: Item>(
    items: &Vec<I>,
    sorted_items: Vec<(usize, Value, Weight)>,
    slack: Weight,
) -> (r: (Value, Weight, Vec<bool>))
    requires
        slack > 0,
        worth_fits(item_pairs(items@), slack as int),
        is_arrangement(sorted_items@, item_pairs(items@)),
        ranked(sorted_items@),
    ensures
        r.2@.len() == items@.len(),
        r.0 == selection_value(item_pairs(items@), r.2@),
        r.1 == selection_weight(item_pairs(items@), r.2@),
        r.1 <= slack,
        is_optimal(item_pairs(items@), slack as int, r.0 as int),
        is_searched_as(item_pairs(items@), slack as int, r.2@, sorted_items@),
{
    let n: usize = items.len();
    let ghost pairs = item_pairs(items@);
    let ghost out = sorted_items@;
    proof {
        lemma_worth_fits_arranged(out, pairs, slack as int);
        lemma_ranked_is_density_sorted(out);
        assert(searchable(pairs_of(out), slack as int));
    }
    let (best_node_items, value, left) = crawl(&sorted_items, slack);
    let ghost found: Seq<bool> = choose|sel: Seq<bool>|
        {
            &&& #[trigger] is_outcome(
                out,
                slack as int,
                sel,
                best_node_items@,
                value as int,
                left as int,
            )
            &&& searchable(pairs_of(out), slack as int) ==> is_first_best(
                pairs_of(out),
                slack as int,
                sel,
            )
        };
    proof {
        assert(non_negative(weights_of(pairs_of(out))));
        lemma_picked_bounds(weights_of(pairs_of(out)), found, out.len() as int);
    }
    let total_weight: Weight = slack - left;
    let mut res: Vec<bool> = Vec::new();
    let mut i: usize = 0;
    while i < n
        invariant
            i <= n,
            res.len() == i,
            forall|k: int| 0 <= k < i ==> res@[k] == best_node_items@.contains(k as usize),
        decreases n - i,
    {
        res.push(holds(&best_node_items, i));
        i = i + 1;
    }
    proof {
        assert forall|k: int| 0 <= k < out.len() implies found[k] == res@[(
        #[trigger] out[k]).0 as int] by {
            assert(out[k].0 < pairs.len());
            if found[k] {
                lemma_taken_label_listed(out, found, out.len() as int, k);
            }
            if res@[out[k].0 as int] {
                let m: int = lemma_listed_label_taken(out, found, out.len() as int, out[k].0);
                if m < k {
                    assert(out[m].0 != out[k].0);
                } else if k < m {
                    assert(out[k].0 != out[m].0);
                }
            }
        }
        lemma_arranged_selection(out, pairs, res@, found);
        assert(found =~= arranged(out, res@));
        assert forall|sel: Seq<bool>| #[trigger] feasible(pairs, slack as int, sel) implies
            selection_value(pairs, sel) <= value by {
            let moved = arranged(out, sel);
            lemma_arranged_selection(out, pairs, sel, moved);
            assert(feasible(pairs_of(out), slack as int, moved));
        }
    }
    (value, total_weight, res)
}

} // verus!
