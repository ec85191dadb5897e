//! The relaxation bound: how much worth a run of items could still add if the
//! first item that does not fit could be cut.  The bound is kept exact: whole
//! units of worth and the fraction of a unit that the cut leaves.  With no
//! room left nothing is added.

use vstd::prelude::*;
use vstd::arithmetic::div_mod::{lemma_fundamental_div_mod, lemma_mod_bound};
use crate::item::{Value, Weight};

verus! {

/// An optimistic estimate of the worth a partial selection can still reach:
/// `whole + part / per` units of worth, with `part / per` a proper fraction.
/// The whole units are held in 128 bits, since an estimate may exceed what
/// any selection can be worth.
#[derive(Debug, Clone, Copy, PartialEq, Eq, Structural)]
pub struct UpperBound {
    /// Whole units of worth.
    pub whole: u128,
    /// Numerator of the fraction of a unit on top of the whole units.
    pub part: usize,
    /// Denominator of that fraction: the weight of the item that was cut, or
    /// one if none was.
    pub per: Weight,
}

impl UpperBound {
    /// The fraction is a proper one.
    pub open spec fn wf(self) -> bool {
        0 <= self.part < self.per
    }

    /// The estimate in units of one `per`-th: its numerator over `per`.
    pub open spec fn scaled(self) -> int {
        self.whole * self.per + self.part
    }

    /// Whether the estimate is greater than `worth`: it has more whole units,
    /// or as many and a fraction on top.
    pub fn exceeds(&self, worth: Value) -> (r: bool)
        ensures
            r == (self.whole > worth || (self.whole == worth && self.part > 0)),
            self.wf() ==> r == (self.scaled() > worth * self.per),
    {
        proof {
            let whole: int = self.whole as int;
            let per: int = self.per as int;
            let w: int = worth as int;
            if self.wf() {
                assert((whole * per > w * per) == (whole > w) && (whole * per == w * per) == (
                whole == w) && (whole < w ==> whole * per + per <= w * per)) by (nonlinear_arith)
                    requires
                        0 < per,
                ;
            }
        }
        self.whole > (worth as u128) || (self.whole == (worth as u128) && self.part > 0)
    }
}

/// The part of an item of worth `v` and weight `w` that fills `slack`, rounded
/// down to whole units of worth.
pub open spec fn slice_worth(v: int, w: int, slack: int) -> int {
    (v * slack) / w
}

/// What greedy filling adds, exactly, as a numerator and a denominator: the
/// worth of every item taken whole, and of the first item that does not fit
/// its worth times the room left over its weight.
pub open spec fn fill_ratio(items: Seq<(Value, Weight)>, from: int, slack: int) -> (int, int)
    decreases items.len() - from,
{
    if from < 0 || from >= items.len() {
        (0, 1)
    } else {
        let v: int = items[from].0 as int;
        let w: int = items[from].1 as int;
        if w <= slack {
            let rest = fill_ratio(items, from + 1, slack - w);
            (v * rest.1 + rest.0, rest.1)
        } else {
            (v * slack, w)
        }
    }
}

/// The exact bound for a partial selection worth `base` with `slack` room
/// left and `tail` still undecided, as a numerator and a denominator.  With
/// no room left the bound is the base.
pub open spec fn bound_ratio(tail: Seq<(Value, Weight)>, slack: int, base: int) -> (int, int) {
    if slack == 0 {
        (base, 1)
    } else {
        let added = fill_ratio(tail, 0, slack);
        (base * added.1 + added.0, added.1)
    }
}

/// What greedy filling adds to a knapsack with `slack` room left, walking
/// `items` from position `from`: every item is taken whole while it fits, and
/// of the first one that does not fit, the slice that uses up the room.  An
/// item that weighs nothing fits whatever room the walk has left.
pub open spec fn fill(items: Seq<(Value, Weight)>, from: int, slack: int) -> int
    decreases items.len() - from,
{
    if from < 0 || from >= items.len() {
        0
    } else {
        let v: int = items[from].0 as int;
        let w: int = items[from].1 as int;
        if w <= slack {
            v + fill(items, from + 1, slack - w)
        } else {
            slice_worth(v, w, slack)
        }
    }
}

/// The whole units of the bound for a partial selection worth `base` with
/// `slack` room left and `tail` still undecided.  With no room left the bound
/// is the base.
pub open spec fn bound_spec(tail: Seq<(Value, Weight)>, slack: int, base: int) -> int {
    if slack == 0 {
        base
    } else {
        base + fill(tail, 0, slack)
    }
}

/// A slice is worth between nothing and the whole item.
pub proof fn lemma_slice_worth_range(v: int, w: int, slack: int)
    requires
        0 <= v,
        0 <= slack < w,
    ensures
        0 <= slice_worth(v, w, slack) <= v,
        w * slice_worth(v, w, slack) <= v * slack < w * slice_worth(v, w, slack) + w,
{
    let x: int = v * slack;
    let q: int = x / w;
    assert(0 <= x) by (nonlinear_arith)
        requires
            0 <= v,
            0 <= slack,
            x == v * slack,
    ;
    lemma_fundamental_div_mod(x, w);
    lemma_mod_bound(x, w);
    assert(x <= v * w) by (nonlinear_arith)
        requires
            0 <= v,
            0 <= slack < w,
            x == v * slack,
    ;
    assert(0 <= q <= v) by (nonlinear_arith)
        requires
            0 < w,
            0 <= v,
            0 <= x <= v * w,
            w * q <= x < w * q + w,
    ;
}

/// Greedy filling never adds a negative amount.
pub proof fn lemma_fill_non_negative(items: Seq<(Value, Weight)>, from: int, slack: int)
    requires
        0 <= slack,
    ensures
        0 <= fill(items, from, slack),
    decreases items.len() - from,
{
    if 0 <= from < items.len() {
        let v: int = items[from].0 as int;
        let w: int = items[from].1 as int;
        if w <= slack {
            lemma_fill_non_negative(items, from + 1, slack - w);
        } else {
            lemma_slice_worth_range(v, w, slack);
        }
    }
}

/// The whole units of greedy filling are its exact worth rounded down.
pub proof fn lemma_fill_is_floor(items: Seq<(Value, Weight)>, from: int, slack: int)
    requires
        0 <= slack,
    ensures
        fill_ratio(items, from, slack).1 > 0,
        fill_ratio(items, from, slack).0 >= 0,
        fill_ratio(items, from, slack).1 * fill(items, from, slack) <= fill_ratio(
            items,
            from,
            slack,
        ).0 < fill_ratio(items, from, slack).1 * fill(items, from, slack) + fill_ratio(
            items,
            from,
            slack,
        ).1,
    decreases items.len() - from,
{
    if 0 <= from < items.len() {
        let v: int = items[from].0 as int;
        let w: int = items[from].1 as int;
        if w <= slack {
            lemma_fill_is_floor(items, from + 1, slack - w);
            let rest = fill_ratio(items, from + 1, slack - w);
            let whole: int = fill(items, from + 1, slack - w);
            assert(rest.1 * (v + whole) == v * rest.1 + rest.1 * whole) by (nonlinear_arith);
            assert(v * rest.1 >= 0) by (nonlinear_arith)
                requires
                    v >= 0,
                    rest.1 > 0,
            ;
        } else {
            lemma_slice_worth_range(v, w, slack);
        }
    }
}

/// Upper bound on the worth that a selection worth `res`, with `slack` room
/// left, can reach by adding items of `items`.
///
/// With no room left, or no items, the bound is `res`.  Otherwise items are
/// taken whole, in the order given, while they fit; of the first one that
/// does not fit, the slice that fills the room is counted, to the exact
/// fraction, and the walk ends there.
///
/// The result `whole + part / per` is the exact bound: `per` is its
/// denominator and `whole * per + part` its numerator, with `whole` the
/// exact bound rounded down.
pub fn bound(items: &[(Value, Weight)], slack: Weight, res: Value) -> (r: UpperBound)
    ensures
        r.wf(),
        r.per == bound_ratio(items@, slack as int, res as int).1,
        r.scaled() == bound_ratio(items@, slack as int, res as int).0,
        r.whole == bound_spec(items@, slack as int, res as int),
        r.whole >= res,
        slack == 0 || items@.len() == 0 ==> r == (UpperBound {
            whole: res as u128,
            part: 0,
            per: 1,
        }),
{
    if slack == 0 {
        return UpperBound { whole: res as u128, part: 0, per: 1 };
    }
    let ghost goal = bound_ratio(items@, slack as int, res as int);
    let ghost floor: int = bound_spec(items@, slack as int, res as int);
    let mut room: Weight = slack;
    let mut acc: u128 = res as u128;
    let mut i: usize = 0;
    proof {
        lemma_fill_non_negative(items@, 0, slack as int);
        assert(res * goal.1 == goal.1 * res) by (nonlinear_arith);
    }
    while i < items.len()
        invariant
            slack != 0,
            goal == bound_ratio(items@, slack as int, res as int),
            floor == bound_spec(items@, slack as int, res as int),
            i <= items.len(),
            acc + fill(items@, i as int, room as int) == floor,
            fill(items@, i as int, room as int) >= 0,
            fill_ratio(items@, i as int, room as int).1 == goal.1,
            goal.1 * acc + fill_ratio(items@, i as int, room as int).0 == goal.0,
            res <= acc <= res + i * 0xffff_ffff_ffff_ffff,
        decreases items.len() - i,
    {
        let v: Value = items[i].0;
        let w: Weight = items[i].1;
        if room < w {
            proof {
                lemma_slice_worth_range(v as int, w as int, room as int);
                assert(v * room <= 0xffff_ffff_ffff_ffff * 0xffff_ffff_ffff_ffff)
                    by (nonlinear_arith)
                    requires
                        0 <= v <= 0xffff_ffff_ffff_ffff,
                        0 <= room <= 0xffff_ffff_ffff_ffff,
                ;
                lemma_fundamental_div_mod(v * room, w as int);
                lemma_mod_bound(v * room, w as int);
            }
            let cut: u128 = (v as u128) * (room as u128);
            let whole: u128 = acc + cut / (w as u128);
            let part: usize = (cut % (w as u128)) as usize;
            proof {
                let q: int = (v * room) / (w as int);
                assert(w * (acc + q) == w * acc + w * q) by (nonlinear_arith);
                assert(whole * w == w * (acc + q)) by (nonlinear_arith)
                    requires
                        whole == acc + q,
                ;
            }
            return UpperBound { whole, part, per: w };
        }
        proof {
            lemma_fill_non_negative(items@, i + 1, room - w);
            assert(goal.1 * (acc + v) == goal.1 * acc + v * goal.1) by (nonlinear_arith);
        }
        acc = acc + (v as u128);
        room = room - w;
        i = i + 1;
    }
    proof {
        assert(goal.1 * acc == acc * 1) by (nonlinear_arith)
            requires
                goal.1 == 1,
        ;
    }
    UpperBound { whole: acc, part: 0, per: 1 }
}

} // verus!
