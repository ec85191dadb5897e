//! The search: a depth-first walk over the take/leave decisions, cut short
//! wherever the bound shows that a branch cannot beat the best node so far.

use std::collections::VecDeque;
use vstd::prelude::*;
use vstd::slice::slice_subrange;
use crate::bound::{bound, bound_spec, UpperBound};
use crate::item::{Value, Weight};
use crate::relaxation::{
    density_sorted, lemma_bound_covers, lemma_no_free_worth_after, no_free_worth,
};
use crate::selection::{
    extends, feasible, is_first_best, is_optimal, keeps_all_of, lemma_extends_chain,
    lemma_picked_agree, lemma_picked_from_bounds, lemma_picked_padded, lemma_picked_split,
    lemma_turns_later_chain, lemma_turns_later_than_longer, non_negative, padded, parts_at, picked,
    picked_from, selection_value, selection_weight, share, turns_later, values_of, weights_of,
    worth_fits,
};

verus! {

/// A partial selection: the first `level` items are decided, the rest are
/// still open.
#[derive(Debug)]
pub struct Node {
    /// Labels of the items taken so far, in the order they were taken.
    pub items: Vec<usize>,
    /// What the taken items are worth together.
    pub profit: Value,
    /// Room left in the knapsack.
    pub slack: Weight,
    /// How many items are decided.
    pub level: usize,
}

impl Node {
    /// The node's selection, its worth and the room it leaves.
    pub fn to_tuple(self) -> (r: (Vec<usize>, Value, Weight))
        ensures
            r.0 == self.items,
            r.1 == self.profit,
            r.2 == self.slack,
    {
        (self.items, self.profit, self.slack)
    }
}

/// Worth and weight of each labelled item, without the label.
pub open spec fn pairs_of(items: Seq<(usize, Value, Weight)>) -> Seq<(Value, Weight)> {
    Seq::new(items.len(), |i: int| (items[i].1, items[i].2))
}

/// The labels of the items below position `upto` that `sel` takes, in order.
pub open spec fn labels_taken(
    items: Seq<(usize, Value, Weight)>,
    sel: Seq<bool>,
    upto: int,
) -> Seq<usize>
    decreases upto,
{
    if upto <= 0 {
        Seq::empty()
    } else if sel[upto - 1] {
        labels_taken(items, sel, upto - 1).push(items[upto - 1].0)
    } else {
        labels_taken(items, sel, upto - 1)
    }
}

/// `node` is the partial selection that decides the first items as `dec` says.
pub open spec fn node_at(
    items: Seq<(usize, Value, Weight)>,
    capacity: int,
    node: Node,
    dec: Seq<bool>,
) -> bool {
    &&& dec.len() == node.level
    &&& node.level <= items.len()
    &&& node.items@ == labels_taken(items, dec, dec.len() as int)
    &&& node.profit == picked(values_of(pairs_of(items)), dec, dec.len() as int)
    &&& node.slack == capacity - picked(weights_of(pairs_of(items)), dec, dec.len() as int)
}

/// `labels`, `worth` and `room` describe the selection `sel` of `items` in a
/// knapsack of the given capacity, and the selection fits.
pub open spec fn is_outcome(
    items: Seq<(usize, Value, Weight)>,
    capacity: int,
    sel: Seq<bool>,
    labels: Seq<usize>,
    worth: int,
    room: int,
) -> bool {
    &&& sel.len() == items.len()
    &&& labels == labels_taken(items, sel, items.len() as int)
    &&& worth == selection_value(pairs_of(items), sel)
    &&& room == capacity - selection_weight(pairs_of(items), sel)
    &&& room >= 0
}

/// Some sequence of decisions in `decs` is a beginning of `sel`.
pub open spec fn covered(decs: Seq<Seq<bool>>, sel: Seq<bool>) -> bool {
    exists|k: int| 0 <= k < decs.len() && #[trigger] extends(sel, decs[k])
}

/// Number of nodes in a full decision tree over `depth` open items.
pub open spec fn subtree_size(depth: nat) -> nat
    decreases depth,
{
    if depth == 0 {
        1
    } else {
        2 * subtree_size((depth - 1) as nat) + 1
    }
}

/// Most nodes the search can still visit, given the nodes that wait.
pub open spec fn pending_work(queue: Seq<Node>, n: int) -> nat
    decreases queue.len(),
{
    if queue.len() == 0 {
        0
    } else {
        subtree_size((n - queue[0].level) as nat) + pending_work(queue.drop_first(), n)
    }
}

/// A node put in front adds the size of its subtree to the work.
proof fn lemma_work_with_front(queue: Seq<Node>, node: Node, n: int)
    ensures
        pending_work(seq![node] + queue, n) == subtree_size((n - node.level) as nat)
            + pending_work(queue, n),
{
    assert((seq![node] + queue).drop_first() =~= queue);
}

/// Labels below `upto` agree when the decisions below `upto` agree.
pub proof fn lemma_labels_agree(
    items: Seq<(usize, Value, Weight)>,
    s: Seq<bool>,
    t: Seq<bool>,
    upto: int,
)
    requires
        forall|i: int| 0 <= i < upto ==> s[i] == t[i],
    ensures
        labels_taken(items, s, upto) == labels_taken(items, t, upto),
    decreases upto,
{
    if upto > 0 {
        lemma_labels_agree(items, s, t, upto - 1);
    }
}

/// Refusals add no label.
pub proof fn lemma_labels_padded(
    items: Seq<(usize, Value, Weight)>,
    dec: Seq<bool>,
    n: nat,
    upto: int,
)
    requires
        dec.len() <= upto <= n,
    ensures
        labels_taken(items, padded(dec, n), upto) == labels_taken(items, dec, dec.len() as int),
    decreases upto,
{
    if upto > dec.len() {
        lemma_labels_padded(items, dec, n, upto - 1);
    } else {
        lemma_labels_agree(items, padded(dec, n), dec, upto);
    }
}

/// A selection that begins as `dec` is worth what `dec` takes plus what the
/// selection takes after that.
pub proof fn lemma_extension_sum(a: Seq<int>, dec: Seq<bool>, sel: Seq<bool>)
    requires
        extends(sel, dec),
        dec.len() <= a.len(),
    ensures
        picked(a, sel, a.len() as int) == picked(a, dec, dec.len() as int) + picked_from(
            a,
            sel,
            dec.len() as int,
        ),
{
    lemma_picked_split(a, sel, dec.len() as int);
    lemma_picked_agree(a, sel, a, dec, dec.len() as int);
}

/// Worth and weight of each labelled item, in the same order.
fn strip_labels(items: &Vec<(usize, Value, Weight)>) -> (pairs: Vec<(Value, Weight)>)
    ensures
        pairs@ == pairs_of(items@),
{
    let mut pairs: Vec<(Value, Weight)> = Vec::new();
    let mut i: usize = 0;
    while i < items.len()
        invariant
            i <= items.len(),
            pairs.len() == i,
            forall|k: int| 0 <= k < i ==> pairs[k] == pairs_of(items@)[k],
        decreases items.len() - i,
    {
        pairs.push((items[i].1, items[i].2));
        i = i + 1;
    }
    assert(pairs@ =~= pairs_of(items@));
    pairs
}

impl Clone for Node {
    /// A copy of the node, field by field.
    fn clone(&self) -> (copy: Self)
        ensures
            copy.items@ == self.items@,
            copy.profit == self.profit,
            copy.slack == self.slack,
            copy.level == self.level,
    {
        let mut labels: Vec<usize> = Vec::new();
        let mut i: usize = 0;
        while i < self.items.len()
            invariant
                i <= self.items.len(),
                labels.len() == i,
                forall|k: int| 0 <= k < i ==> labels[k] == self.items[k],
            decreases self.items.len() - i,
        {
            labels.push(self.items[i]);
            i = i + 1;
        }
        assert(labels@ =~= self.items@);
        Node { items: labels, profit: self.profit, slack: self.slack, level: self.level }
    }
}

/// Deciding one more item adds its share to a sum and, if it is taken, its
/// label to the labels.
proof fn lemma_decide_next(items: Seq<(usize, Value, Weight)>, dec: Seq<bool>, taken: bool)
    requires
        dec.len() < items.len(),
    ensures
        picked(values_of(pairs_of(items)), dec.push(taken), dec.len() as int + 1) == picked(
            values_of(pairs_of(items)),
            dec,
            dec.len() as int,
        ) + if taken {
            items[dec.len() as int].1 as int
        } else {
            0
        },
        picked(weights_of(pairs_of(items)), dec.push(taken), dec.len() as int + 1) == picked(
            weights_of(pairs_of(items)),
            dec,
            dec.len() as int,
        ) + if taken {
            items[dec.len() as int].2 as int
        } else {
            0
        },
        labels_taken(items, dec.push(taken), dec.len() as int + 1) == if taken {
            labels_taken(items, dec, dec.len() as int).push(items[dec.len() as int].0)
        } else {
            labels_taken(items, dec, dec.len() as int)
        },
{
    let next = dec.push(taken);
    let l: int = dec.len() as int;
    lemma_picked_agree(values_of(pairs_of(items)), next, values_of(pairs_of(items)), dec, l);
    lemma_picked_agree(weights_of(pairs_of(items)), next, weights_of(pairs_of(items)), dec, l);
    lemma_labels_agree(items, next, dec, l);
}

/// Where whatever fits can be counted, so can a partial selection that fits.
proof fn lemma_worth_fits(
    items: Seq<(usize, Value, Weight)>,
    capacity: int,
    dec: Seq<bool>,
)
    requires
        worth_fits(pairs_of(items), capacity),
        dec.len() <= items.len(),
        picked(weights_of(pairs_of(items)), dec, dec.len() as int) <= capacity,
    ensures
        picked(values_of(pairs_of(items)), dec, dec.len() as int) <= usize::MAX,
{
    let pairs = pairs_of(items);
    let n = items.len();
    lemma_picked_padded(values_of(pairs), dec, n, n as int);
    lemma_picked_padded(weights_of(pairs), dec, n, n as int);
    assert(feasible(pairs, capacity, padded(dec, n)));
}

/// A sum above zero has a taken entry above zero.
proof fn lemma_heavy_taken(a: Seq<int>, sel: Seq<bool>, upto: int) -> (i: int)
    requires
        picked(a, sel, upto) > 0,
    ensures
        0 <= i < upto,
        sel[i],
        a[i] > 0,
    decreases upto,
{
    if share(a, sel, upto - 1) > 0 {
        upto - 1
    } else {
        lemma_heavy_taken(a, sel, upto - 1)
    }
}

/// The items can be searched with the bound: they come in order of falling
/// density, and there is room to begin with or no item weighs nothing and is
/// worth something.
pub open spec fn searchable(items: Seq<(Value, Weight)>, capacity: int) -> bool {
    density_sorted(items) && (capacity > 0 || no_free_worth(items, 0))
}

/// On searchable items, a fitting selection that begins as `dec` is worth no
/// more than the whole units of the bound at the node of `dec`.
proof fn lemma_bound_closes(
    pairs: Seq<(Value, Weight)>,
    capacity: int,
    dec: Seq<bool>,
    sel: Seq<bool>,
)
    requires
        searchable(pairs, capacity),
        dec.len() <= pairs.len(),
        extends(sel, dec),
        feasible(pairs, capacity, sel),
    ensures
        selection_value(pairs, sel) <= bound_spec(
            pairs.subrange(dec.len() as int, pairs.len() as int),
            capacity - picked(weights_of(pairs), dec, dec.len() as int),
            picked(values_of(pairs), dec, dec.len() as int),
        ),
{
    let level: int = dec.len() as int;
    let room: int = capacity - picked(weights_of(pairs), dec, level);
    lemma_extension_sum(values_of(pairs), dec, sel);
    lemma_extension_sum(weights_of(pairs), dec, sel);
    assert(non_negative(weights_of(pairs)));
    lemma_picked_from_bounds(weights_of(pairs), sel, level);
    if room == 0 && capacity > 0 {
        let heavy: int = lemma_heavy_taken(weights_of(pairs), dec, level);
        lemma_no_free_worth_after(pairs, heavy);
    }
    lemma_bound_covers(pairs, sel, level, room, picked(values_of(pairs), dec, level));
}

/// A fitting selection that takes the item after `dec` leaves room for it.
proof fn lemma_taken_item_fits(
    pairs: Seq<(Value, Weight)>,
    capacity: int,
    dec: Seq<bool>,
    sel: Seq<bool>,
)
    requires
        dec.len() < pairs.len(),
        extends(sel, dec),
        feasible(pairs, capacity, sel),
        sel[dec.len() as int],
    ensures
        pairs[dec.len() as int].1 <= capacity - picked(
            weights_of(pairs),
            dec,
            dec.len() as int,
        ),
{
    let a = weights_of(pairs);
    assert(non_negative(a));
    lemma_extension_sum(a, dec, sel);
    lemma_picked_from_bounds(a, sel, dec.len() as int + 1);
}

/// The node of `dec` is met at or after the node of `best`: it lies below
/// it, or turns away from it to the side searched later.
pub open spec fn met_after(best: Seq<bool>, dec: Seq<bool>) -> bool {
    extends(dec, best) || turns_later(best, dec)
}

/// `dec` is empty or ends on taking an item that is worth something.
pub open spec fn ends_on_worth(items: Seq<(usize, Value, Weight)>, dec: Seq<bool>) -> bool {
    dec.len() == 0 || (dec.last() && dec.len() <= items.len() && items[dec.len() - 1].1 > 0)
}

/// `node` waits at `dec` while `best` is the best node met: it is met after
/// `best`, and if it is worth more, that is due to the item it ends on.
pub open spec fn waits(
    items: Seq<(usize, Value, Weight)>,
    capacity: int,
    node: Node,
    dec: Seq<bool>,
    best: Seq<bool>,
    best_profit: int,
) -> bool {
    &&& node_at(items, capacity, node, dec)
    &&& met_after(best, dec)
    &&& node.profit > best_profit ==> dec.len() > 0 && ends_on_worth(items, dec)
}

/// The search is done with `sel`: it is worth no more than the best node,
/// and if it is worth as much, it is met after that node.
pub open spec fn settled(
    pairs: Seq<(Value, Weight)>,
    best: Seq<bool>,
    best_profit: int,
    sel: Seq<bool>,
) -> bool {
    &&& selection_value(pairs, sel) <= best_profit
    &&& selection_value(pairs, sel) == best_profit ==> met_after(best, sel)
}

/// With nothing left to search, the best node met is the first among the
/// best selections.
proof fn lemma_search_ends(
    items: Seq<(usize, Value, Weight)>,
    capacity: int,
    best_node: Node,
    best: Seq<bool>,
)
    requires
        node_at(items, capacity, best_node, best),
        ends_on_worth(items, best),
        forall|sel: Seq<bool>| #[trigger]
            feasible(pairs_of(items), capacity, sel) ==> settled(
                pairs_of(items),
                best,
                best_node.profit as int,
                sel,
            ),
    ensures
        is_first_best(pairs_of(items), capacity, padded(best, items.len())),
{
    let pairs = pairs_of(items);
    let n = items.len();
    let found = padded(best, n);
    lemma_picked_padded(values_of(pairs), best, n, n as int);
    lemma_picked_padded(weights_of(pairs), best, n, n as int);
    assert(feasible(pairs, capacity, found));
    assert forall|other: Seq<bool>| #[trigger]
        feasible(pairs, capacity, other) && selection_value(pairs, other) == selection_value(
            pairs,
            found,
        ) implies turns_later(found, other) || keeps_all_of(found, other) by {
        assert(settled(pairs, best, best_node.profit as int, other));
        if turns_later(best, other) {
            let k: int = choose|k: int| #[trigger] parts_at(best, other, k);
            assert(parts_at(found, other, k));
        }
    }
    assert forall|sel: Seq<bool>| #[trigger] feasible(pairs, capacity, sel) implies selection_value(
        pairs,
        sel,
    ) <= selection_value(pairs, found) by {
        assert(settled(pairs, best, best_node.profit as int, sel));
    }
    assert forall|j: int|
        0 <= j < found.len() && #[trigger] found[j] && (forall|i: int|
            j < i < found.len() ==> !found[i]) implies pairs[j].0 > 0 by {
        if j < best.len() - 1 {
            assert(found[best.len() - 1]);
        }
    }
}

/// Searches the take/leave decisions over `items`, in the order given, for
/// the selection of greatest worth that fits `slack`, and returns the labels
/// of the items taken, their worth and the room they leave.
///
/// Each item is first tried taken, then left, and a node replaces the best
/// one only if it is worth more.  A node is searched further only where its
/// exact bound is greater than the worth of the best node; a bound that ties
/// with that worth cuts the branch.  The result always describes a selection
/// that fits.  Where the items are searchable, that is, they come in order of
/// falling density and there is room or no item weighs nothing and is worth
/// something, no fitting selection is worth more, and among those worth as
/// much the result is the one that this order of search meets first.
pub fn crawl(items: &Vec<(usize, Value, Weight)>, slack: Weight) -> (r: (
    Vec<usize>,
    Value,
    Weight,
))
    requires
        worth_fits(pairs_of(items@), slack as int),
    ensures
        exists|sel: Seq<bool>|
            {
                &&& #[trigger] is_outcome(items@, slack as int, sel, r.0@, r.1 as int, r.2 as int)
                &&& searchable(pairs_of(items@), slack as int) ==> is_first_best(
                    pairs_of(items@),
                    slack as int,
                    sel,
                )
            },
        searchable(pairs_of(items@), slack as int) ==> is_optimal(
            pairs_of(items@),
            slack as int,
            r.1 as int,
        ),
{
    let n: usize = items.len();
    let pairs: Vec<(Value, Weight)> = strip_labels(items);
    let init = Node { items: Vec::new(), profit: 0, slack: slack, level: 0 };
    let mut best_node: Node = init.clone();
    let mut queue: VecDeque<Node> = VecDeque::new();
    queue.push_back(init);
    let ghost capacity: int = slack as int;
    // The decisions that lead to each waiting node, and to the best node.
    let ghost mut decs: Seq<Seq<bool>> = seq![Seq::<bool>::empty()];
    let ghost mut best_dec: Seq<bool> = Seq::<bool>::empty();
    proof {
        assert(extends(Seq::<bool>::empty(), Seq::<bool>::empty()));
        assert forall|sel: Seq<bool>| #[trigger] feasible(pairs@, capacity, sel) implies covered(
            decs,
            sel,
        ) by {
            assert(extends(sel, decs[0]));
        }
    }
    loop
        invariant
            n == items.len(),
            pairs@ == pairs_of(items@),
            capacity == slack,
            worth_fits(pairs@, capacity),
            decs.len() == queue@.len(),
            forall|k: int|
                0 <= k < queue@.len() ==> #[trigger] waits(
                    items@,
                    capacity,
                    queue@[k],
                    decs[k],
                    best_dec,
                    best_node.profit as int,
                ),
            forall|i: int, j: int|
                0 <= i < j < decs.len() ==> #[trigger] turns_later(decs[i], decs[j]),
            node_at(items@, capacity, best_node, best_dec),
            ends_on_worth(items@, best_dec),
            searchable(pairs@, capacity) ==> forall|sel: Seq<bool>| #[trigger]
                feasible(pairs@, capacity, sel) ==> settled(
                    pairs@,
                    best_dec,
                    best_node.profit as int,
                    sel,
                ) || covered(decs, sel),
        ensures
            queue@.len() == 0,
        decreases pending_work(queue@, n as int),
    {
        let ghost old_decs = decs;
        let ghost old_queue = queue@;
        let ghost old_best: int = best_node.profit as int;
        let ghost old_best_dec = best_dec;
        match queue.pop_front() {
            None => {
                break ;
            },
            Some(popped) => {
                let mut node: Node = popped;
                let ghost dec: Seq<bool> = old_decs[0];
                let ghost level: int = node.level as int;
                proof {
                    assert(waits(
                        items@,
                        capacity,
                        old_queue[0],
                        old_decs[0],
                        old_best_dec,
                        old_best,
                    ));
                    decs = old_decs.drop_first();
                    assert(old_queue =~= seq![node] + queue@);
                    lemma_work_with_front(queue@, node, n as int);
                }
                if node.profit > best_node.profit {
                    best_node = node.clone();
                    proof {
                        best_dec = dec;
                    }
                }
                proof {
                    // The nodes left waiting turn later than the node just
                    // taken, so they still wait if that node is now the best.
                    assert forall|k: int| 0 <= k < queue@.len() implies #[trigger] waits(
                        items@,
                        capacity,
                        queue@[k],
                        decs[k],
                        best_dec,
                        best_node.profit as int,
                    ) by {
                        assert(waits(
                            items@,
                            capacity,
                            old_queue[k + 1],
                            old_decs[k + 1],
                            old_best_dec,
                            old_best,
                        ));
                        assert(turns_later(old_decs[0], old_decs[k + 1]));
                    }
                    assert forall|i: int, j: int| 0 <= i < j < decs.len() implies #[trigger] turns_later(
                        decs[i],
                        decs[j],
                    ) by {
                        assert(turns_later(old_decs[i + 1], old_decs[j + 1]));
                    }
                    assert(met_after(best_dec, dec));
                }
                let ghost rest = decs;
                let ghost mut split: bool = false;
                let ghost mut both: bool = false;
                if node.level != n {
                    let tail = slice_subrange(pairs.as_slice(), node.level, n);
                    let upper_bound: UpperBound = bound(tail, node.slack, node.profit);
                    if upper_bound.exceeds(best_node.profit) {
                        let label: usize = items[node.level].0;
                        let v: Value = items[node.level].1;
                        let w: Weight = items[node.level].2;
                        proof {
                            split = true;
                            lemma_decide_next(items@, dec, false);
                            lemma_decide_next(items@, dec, true);
                            assert(subtree_size((n - level) as nat) == 2 * subtree_size(
                                (n - level - 1) as nat,
                            ) + 1);
                            lemma_children_wait(best_dec, dec, false);
                            lemma_children_wait(best_dec, dec, true);
                        }
                        node.level = node.level + 1;
                        let left = node.clone();
                        proof {
                            lemma_work_with_front(queue@, left, n as int);
                        }
                        queue.push_front(left);
                        proof {
                            decs = seq![dec.push(false)] + decs;
                        }
                        if w <= node.slack {
                            proof {
                                lemma_worth_fits(items@, capacity, dec.push(true));
                            }
                            node.items.push(label);
                            node.slack = node.slack - w;
                            node.profit = node.profit + v;
                            proof {
                                both = true;
                                lemma_work_with_front(queue@, node, n as int);
                            }
                            queue.push_front(node);
                            proof {
                                decs = seq![dec.push(true)] + decs;
                            }
                        }
                    }
                }
                proof {
                    // How many children went in front of the waiting nodes.
                    let shift: int = if both {
                        2
                    } else if split {
                        1
                    } else {
                        0
                    };
                    assert forall|i: int, j: int| 0 <= i < j < decs.len() implies #[trigger] turns_later(
                        decs[i],
                        decs[j],
                    ) by {
                        if i >= shift {
                            assert(turns_later(rest[i - shift], rest[j - shift]));
                        } else if j >= shift {
                            assert(turns_later(old_decs[0], old_decs[j - shift + 1]));
                            lemma_turns_later_than_longer(dec, decs[i], decs[j]);
                        } else {
                            assert(parts_at(decs[i], decs[j], level));
                        }
                    }
                    // Every fitting selection below the node just taken is
                    // below one of its children, or the bound settles it.
                    if searchable(pairs@, capacity) {
                        assert forall|sel: Seq<bool>| #[trigger]
                            feasible(pairs@, capacity, sel) implies settled(
                            pairs@,
                            best_dec,
                            best_node.profit as int,
                            sel,
                        ) || covered(decs, sel) by {
                            if settled(pairs@, old_best_dec, old_best, sel) {
                            } else {
                                assert(covered(old_decs, sel));
                                let k: int = choose|k: int|
                                    0 <= k < old_decs.len() && #[trigger] extends(
                                        sel,
                                        old_decs[k],
                                    );
                                if k > 0 {
                                    assert(decs[k - 1 + shift] == old_decs[k]);
                                    assert(extends(sel, decs[k - 1 + shift]));
                                } else if split {
                                    if sel[level] {
                                        lemma_taken_item_fits(pairs@, capacity, dec, sel);
                                        assert(both);
                                        assert(extends(sel, decs[0]));
                                    } else {
                                        let at: int = if both {
                                            1
                                        } else {
                                            0
                                        };
                                        assert(decs[at] == dec.push(false));
                                        assert(extends(sel, decs[at]));
                                    }
                                } else {
                                    lemma_bound_closes(pairs@, capacity, dec, sel);
                                    if extends(dec, best_dec) {
                                        lemma_extends_chain(sel, dec, best_dec);
                                    } else {
                                        lemma_turns_later_chain(best_dec, dec, sel);
                                    }
                                }
                            }
                        }
                    }
                }
            },
        }
    }
    proof {
        // The best node, with every open item left, is the selection found.
        let sel = padded(best_dec, n as nat);
        lemma_picked_padded(values_of(pairs@), best_dec, n as nat, n as int);
        lemma_picked_padded(weights_of(pairs@), best_dec, n as nat, n as int);
        lemma_labels_padded(items@, best_dec, n as nat, n as int);
        assert(is_outcome(
            items@,
            capacity,
            sel,
            best_node.items@,
            best_node.profit as int,
            best_node.slack as int,
        ));
        if searchable(pairs@, capacity) {
            assert forall|sel: Seq<bool>| #[trigger]
                feasible(pairs@, capacity, sel) implies settled(
                pairs@,
                best_dec,
                best_node.profit as int,
                sel,
            ) by {
                assert(!covered(decs, sel));
            }
            lemma_search_ends(items@, capacity, best_node, best_dec);
        }
    }
    best_node.to_tuple()
}

/// A child of the node of `dec` is met after `best` if that node is.
proof fn lemma_children_wait(best: Seq<bool>, dec: Seq<bool>, taken: bool)
    requires
        met_after(best, dec),
    ensures
        met_after(best, dec.push(taken)),
{
    let child = dec.push(taken);
    assert(extends(child, dec));
    if extends(dec, best) {
        lemma_extends_chain(child, dec, best);
    } else {
        lemma_turns_later_chain(best, dec, child);
    }
}

} // verus!
