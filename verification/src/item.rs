//! What the solver needs to know of an item: its worth and its weight.

use vstd::prelude::*;

verus! {

/// Worth of an item, or of a selection of items.
pub type Value = usize;

/// Weight of an item, or capacity of a knapsack.
pub type Weight = usize;

/// Anything that can be packed: it has a worth and a weight, and both stay
/// the same for as long as the item lives.
pub trait Item {
    /// The item's worth, as contracts speak of it.
    spec fn value_spec(&self) -> Value;

    /// The item's weight, as contracts speak of it.
    spec fn weight_spec(&self) -> Weight;

    /// The item's worth.
    fn value(&self) -> (v: Value)
        ensures
            v == self.value_spec(),
    ;

    /// The item's weight.
    fn weight(&self) -> (w: Weight)
        ensures
            w == self.weight_spec(),
    ;

    /// Worth per unit of weight, rounded down.  A weightless item has no such
    /// ratio, so the call is not allowed for it.
    fn price_per_weight(&self) -> (p: usize)
        requires
            self.weight_spec() != 0,
        ensures
            p == self.value_spec() / self.weight_spec(),
    {
        self.value() / self.weight()
    }
}

/// A pair of worth and weight is an item.
impl Item for (usize, usize) {
    open spec fn value_spec(&self) -> Value {
        self.0
    }

    open spec fn weight_spec(&self) -> Weight {
        self.1
    }

    fn value(&self) -> (v: Value) {
        self.0
    }

    fn weight(&self) -> (w: Weight) {
        self.1
    }
}

/// The worth and weight of every item of `items`, position by position.
pub open spec fn item_pairs<I: Item>(items: Seq<I>) -> Seq<(Value, Weight)> {
    Seq::new(items.len(), |i: int| (items[i].value_spec(), items[i].weight_spec()))
}

} // verus!
