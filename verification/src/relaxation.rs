//! Why the bound can be trusted: on items in order of falling density it is
//! never below what a fitting selection is worth, as long as there is room
//! or no item left weighs nothing and is worth something.

use vstd::prelude::*;
use crate::bound::{
    bound_ratio, bound_spec, fill, fill_ratio, lemma_fill_is_floor, lemma_fill_non_negative,
    lemma_slice_worth_range, slice_worth,
};
use crate::item::{Value, Weight};
use crate::selection::{
    lemma_picked_from_bounds, non_negative, picked_from, values_of, weights_of,
};

verus! {

/// `a` is worth at least as much per unit of weight as `b`.  The ratios are
/// compared by cross-multiplication, so a weightless item of some worth is
/// denser than any item that weighs something.
pub open spec fn at_least_as_dense(a: (Value, Weight), b: (Value, Weight)) -> bool {
    a.0 * b.1 >= b.0 * a.1
}

/// Density never rises along `items`.
pub open spec fn density_sorted(items: Seq<(Value, Weight)>) -> bool {
    forall|i: int, j: int|
        0 <= i < j < items.len() ==> #[trigger] at_least_as_dense(items[i], items[j])
}

/// `item` is worth no more per unit of weight than `price` per `width`.
pub open spec fn priced_within(item: (Value, Weight), price: int, width: int) -> bool {
    item.0 * width <= price * item.1
}

/// Every item from position `from` on is priced within `price` per `width`.
pub open spec fn all_priced_within(
    items: Seq<(Value, Weight)>,
    from: int,
    price: int,
    width: int,
) -> bool {
    forall|i: int| from <= i < items.len() ==> #[trigger] priced_within(items[i], price, width)
}

/// A slice of an item priced within `price` per `width` earns no more than
/// the price of the room it fills.
proof fn lemma_slice_within_price(v: int, w: int, slack: int, price: int, width: int)
    requires
        0 <= v,
        0 <= slack < w,
        0 <= price,
        0 <= width,
        v * width <= price * w,
    ensures
        width * slice_worth(v, w, slack) <= price * slack,
{
    let f: int = slice_worth(v, w, slack);
    lemma_slice_worth_range(v, w, slack);
    assert(width * (w * f) <= width * (v * slack)) by (nonlinear_arith)
        requires
            0 <= width,
            w * f <= v * slack,
    ;
    assert((v * width) * slack <= (price * w) * slack) by (nonlinear_arith)
        requires
            0 <= slack,
            v * width <= price * w,
    ;
    assert(width * (v * slack) == (v * width) * slack) by (nonlinear_arith);
    assert(width * (w * f) == w * (width * f)) by (nonlinear_arith);
    assert((price * w) * slack == w * (price * slack)) by (nonlinear_arith);
    assert(width * f <= price * slack) by (nonlinear_arith)
        requires
            0 < w,
            w * (width * f) <= w * (price * slack),
    ;
}

/// Where `width` more room lets an item in whole that was cut before, the
/// item and what is earned in the room left after it are together worth at
/// most `price` more than the slice was.
proof fn lemma_slice_then_rest(v: int, w: int, c: int, d: int, price: int, g: int, f: int)
    requires
        0 <= v,
        0 <= c < w <= c + d,
        0 <= price,
        v * d <= price * w,
        0 <= g,
        d * g <= price * (c + d - w),
        w * f <= v * c < w * f + w,
    ensures
        v + g <= f + price,
{
    let short: int = w - c;
    let spare: int = c + d - w;
    let m: int = d * w;
    let dv: int = d * v;
    let pw: int = price * w;
    let lost: int = w * (v - f);
    let gain: int = w * (d * g);
    assert(dv == v * d) by (nonlinear_arith)
        requires
            dv == d * v,
    ;
    assert(lost <= v * short + w - 1) by (nonlinear_arith)
        requires
            lost == w * (v - f),
            short == w - c,
            v * c < w * f + w,
    ;
    assert(d * lost <= d * (v * short + w - 1)) by (nonlinear_arith)
        requires
            0 <= d,
            lost <= v * short + w - 1,
    ;
    assert(d * (v * short + w - 1) == dv * short + m - d) by (nonlinear_arith)
        requires
            dv == d * v,
            m == d * w,
    ;
    assert(dv * short <= pw * short) by (nonlinear_arith)
        requires
            0 <= short,
            dv <= pw,
    ;
    assert(gain <= w * (price * spare)) by (nonlinear_arith)
        requires
            gain == w * (d * g),
            0 < w,
            d * g <= price * spare,
    ;
    assert(w * (price * spare) == pw * spare) by (nonlinear_arith)
        requires
            pw == price * w,
    ;
    assert(pw * short + pw * spare == pw * d) by (nonlinear_arith)
        requires
            short + spare == d,
    ;
    assert(pw * d == m * price) by (nonlinear_arith)
        requires
            pw == price * w,
            m == d * w,
    ;
    assert(d * lost + gain == m * (v - f + g)) by (nonlinear_arith)
        requires
            lost == w * (v - f),
            gain == w * (d * g),
            m == d * w,
    ;
    assert(m * (price + 1) == m * price + m) by (nonlinear_arith);
    assert(0 < m) by (nonlinear_arith)
        requires
            m == d * w,
            0 < d,
            0 < w,
    ;
    assert(m * (v - f + g) < m * (price + 1));
    assert(v - f + g < price + 1) by (nonlinear_arith)
        requires
            0 < m,
            m * (v - f + g) < m * (price + 1),
    ;
}

/// With `width` more room, the slice of an item that still does not fit
/// grows by at most `price`.
proof fn lemma_slice_grows_by_price(v: int, w: int, c: int, d: int, price: int)
    requires
        0 <= v,
        0 <= c,
        0 <= d,
        c + d < w,
        0 <= price,
        v * d <= price * w,
    ensures
        slice_worth(v, w, c + d) <= slice_worth(v, w, c) + price,
{
    let f1: int = slice_worth(v, w, c + d);
    let f0: int = slice_worth(v, w, c);
    lemma_slice_worth_range(v, w, c + d);
    lemma_slice_worth_range(v, w, c);
    assert(v * (c + d) == v * c + v * d) by (nonlinear_arith);
    assert(w * f1 < w * (f0 + 1 + price)) by (nonlinear_arith)
        requires
            w * f1 <= v * c + v * d,
            v * c < w * f0 + w,
            v * d <= price * w,
    ;
    assert(f1 < f0 + 1 + price) by (nonlinear_arith)
        requires
            0 < w,
            w * f1 < w * (f0 + 1 + price),
    ;
}

/// Greedy filling earns no more than the price of the room it fills, where
/// every item it walks is priced within `price` per `width`.
pub proof fn lemma_fill_within_price(
    items: Seq<(Value, Weight)>,
    from: int,
    slack: int,
    price: int,
    width: int,
)
    requires
        0 <= from,
        0 <= slack,
        0 <= price,
        0 <= width,
        all_priced_within(items, from, price, width),
    ensures
        width * fill(items, from, slack) <= price * slack,
    decreases items.len() - from,
{
    if from >= items.len() {
        assert(width * 0 <= price * slack) by (nonlinear_arith)
            requires
                0 <= price,
                0 <= slack,
        ;
    } else {
        let v: int = items[from].0 as int;
        let w: int = items[from].1 as int;
        assert(priced_within(items[from], price, width));
        if w <= slack {
            let rest: int = fill(items, from + 1, slack - w);
            lemma_fill_within_price(items, from + 1, slack - w, price, width);
            assert(width * (v + rest) <= price * slack) by (nonlinear_arith)
                requires
                    v * width <= price * w,
                    width * rest <= price * (slack - w),
            ;
        } else {
            lemma_slice_within_price(v, w, slack, price, width);
        }
    }
}

/// With `width` more room, greedy filling earns at most `price` more, where
/// every item it walks is priced within `price` per `width`.
pub proof fn lemma_fill_extra_room(
    items: Seq<(Value, Weight)>,
    from: int,
    slack: int,
    price: int,
    width: int,
)
    requires
        0 <= from,
        0 <= slack,
        0 <= price,
        0 <= width,
        all_priced_within(items, from, price, width),
    ensures
        fill(items, from, slack + width) <= fill(items, from, slack) + price,
    decreases items.len() - from,
{
    if from < items.len() {
        let v: int = items[from].0 as int;
        let w: int = items[from].1 as int;
        assert(priced_within(items[from], price, width));
        if w <= slack {
            lemma_fill_extra_room(items, from + 1, slack - w, price, width);
        } else if w <= slack + width {
            let g: int = fill(items, from + 1, slack + width - w);
            lemma_fill_non_negative(items, from + 1, slack + width - w);
            lemma_fill_within_price(items, from + 1, slack + width - w, price, width);
            lemma_slice_worth_range(v, w, slack);
            lemma_slice_then_rest(v, w, slack, width, price, g, slice_worth(v, w, slack));
        } else {
            lemma_slice_grows_by_price(v, w, slack, width, price);
        }
    }
}

/// What earns no more than the exact price of the room earns no more than
/// the slice that fills it.
proof fn lemma_price_caps_slice(v: int, w: int, slack: int, g: int)
    requires
        0 <= v,
        0 <= slack < w,
        w * g <= v * slack,
    ensures
        g <= slice_worth(v, w, slack),
{
    let f: int = slice_worth(v, w, slack);
    lemma_slice_worth_range(v, w, slack);
    assert(g < f + 1) by (nonlinear_arith)
        requires
            0 < w,
            w * g < w * f + w,
    ;
}

/// On items of falling density, every item after position `from` is priced
/// within the worth of that item per its weight.
pub proof fn lemma_sorted_prices(items: Seq<(Value, Weight)>, from: int)
    requires
        density_sorted(items),
        0 <= from < items.len(),
    ensures
        all_priced_within(items, from + 1, items[from].0 as int, items[from].1 as int),
{
    let v: int = items[from].0 as int;
    let w: int = items[from].1 as int;
    assert forall|i: int| from + 1 <= i < items.len() implies #[trigger] priced_within(
        items[i],
        v,
        w,
    ) by {
        assert(at_least_as_dense(items[from], items[i]));
    }
}

/// Leaving out the first item never raises what greedy filling earns, on
/// items of falling density.
pub proof fn lemma_fill_drop_head(items: Seq<(Value, Weight)>, from: int, slack: int)
    requires
        density_sorted(items),
        0 <= from < items.len(),
        0 <= slack,
    ensures
        fill(items, from + 1, slack) <= fill(items, from, slack),
{
    let v: int = items[from].0 as int;
    let w: int = items[from].1 as int;
    lemma_sorted_prices(items, from);
    if w <= slack {
        lemma_fill_extra_room(items, from + 1, slack - w, v, w);
    } else {
        lemma_fill_within_price(items, from + 1, slack, v, w);
        lemma_price_caps_slice(v, w, slack, fill(items, from + 1, slack));
    }
}

/// Starting later never raises what greedy filling earns, on items of
/// falling density.
pub proof fn lemma_fill_start_later(items: Seq<(Value, Weight)>, from: int, later: int, slack: int)
    requires
        density_sorted(items),
        0 <= from <= later,
        0 <= slack,
    ensures
        fill(items, later, slack) <= fill(items, from, slack),
    decreases later - from,
{
    if later >= items.len() {
        lemma_fill_non_negative(items, from, slack);
    } else if from < later {
        lemma_fill_start_later(items, from + 1, later, slack);
        lemma_fill_drop_head(items, from, slack);
    }
}

/// Greedy filling is sound: on items of falling density, what a selection
/// takes from position `from` on is worth no more than greedy filling earns
/// there, provided what it takes fits the room.
pub proof fn lemma_fill_covers(
    items: Seq<(Value, Weight)>,
    sel: Seq<bool>,
    from: int,
    slack: int,
)
    requires
        density_sorted(items),
        0 <= from <= items.len(),
        picked_from(weights_of(items), sel, from) <= slack,
    ensures
        picked_from(values_of(items), sel, from) <= fill(items, from, slack),
    decreases items.len() - from,
{
    if from < items.len() {
        let w: int = items[from].1 as int;
        assert(non_negative(weights_of(items)));
        lemma_picked_from_bounds(weights_of(items), sel, from + 1);
        if sel[from] {
            lemma_fill_covers(items, sel, from + 1, slack - w);
        } else {
            lemma_fill_covers(items, sel, from + 1, slack);
            lemma_fill_drop_head(items, from, slack);
        }
    }
}

/// Greedy filling of a suffix is greedy filling of the whole from where the
/// suffix starts.
pub proof fn lemma_fill_of_suffix(items: Seq<(Value, Weight)>, start: int, from: int, slack: int)
    requires
        0 <= start <= items.len(),
        0 <= from,
    ensures
        fill(items.subrange(start, items.len() as int), from, slack) == fill(
            items,
            start + from,
            slack,
        ),
    decreases items.len() - start - from,
{
    let tail = items.subrange(start, items.len() as int);
    if from < tail.len() {
        let w: int = tail[from].1 as int;
        if w <= slack {
            lemma_fill_of_suffix(items, start, from + 1, slack - w);
        }
    }
}

/// The first ratio is no greater than the second.  Both are a numerator and
/// a denominator, the denominators above zero.
pub open spec fn ratio_le(a: (int, int), b: (int, int)) -> bool {
    a.0 * b.1 <= b.0 * a.1
}

/// Order of ratios carries over.
pub proof fn lemma_ratio_le_transitive(a: (int, int), b: (int, int), c: (int, int))
    requires
        a.1 > 0,
        b.1 > 0,
        c.1 > 0,
        ratio_le(a, b),
        ratio_le(b, c),
    ensures
        ratio_le(a, c),
{
    let x: int = a.0 * c.1;
    let y: int = c.0 * a.1;
    assert((a.0 * b.1) * c.1 <= (b.0 * a.1) * c.1) by (nonlinear_arith)
        requires
            a.0 * b.1 <= b.0 * a.1,
            c.1 > 0,
    ;
    assert((b.0 * c.1) * a.1 <= (c.0 * b.1) * a.1) by (nonlinear_arith)
        requires
            b.0 * c.1 <= c.0 * b.1,
            a.1 > 0,
    ;
    assert((a.0 * b.1) * c.1 == b.1 * x) by (nonlinear_arith)
        requires
            x == a.0 * c.1,
    ;
    assert((b.0 * a.1) * c.1 == (b.0 * c.1) * a.1) by (nonlinear_arith);
    assert((c.0 * b.1) * a.1 == b.1 * y) by (nonlinear_arith)
        requires
            y == c.0 * a.1,
    ;
    assert(x <= y) by (nonlinear_arith)
        requires
            b.1 > 0,
            b.1 * x <= b.1 * y,
    ;
}

/// Exactly as for the whole units: greedy filling earns no more than the
/// price of the room it fills, where every item it walks is priced within
/// `price` per `width`.
pub proof fn lemma_ratio_within_price(
    items: Seq<(Value, Weight)>,
    from: int,
    slack: int,
    price: int,
    width: int,
)
    requires
        0 <= from,
        0 <= slack,
        0 <= price,
        0 <= width,
        all_priced_within(items, from, price, width),
    ensures
        width * fill_ratio(items, from, slack).0 <= (price * slack) * fill_ratio(
            items,
            from,
            slack,
        ).1,
    decreases items.len() - from,
{
    let room: int = price * slack;
    assert(0 <= room) by (nonlinear_arith)
        requires
            room == price * slack,
            0 <= price,
            0 <= slack,
    ;
    if from < items.len() {
        let v: int = items[from].0 as int;
        let w: int = items[from].1 as int;
        assert(priced_within(items[from], price, width));
        if w <= slack {
            let rest = fill_ratio(items, from + 1, slack - w);
            lemma_fill_is_floor(items, from + 1, slack - w);
            lemma_ratio_within_price(items, from + 1, slack - w, price, width);
            let wv: int = width * v;
            let pw: int = price * w;
            assert(wv == v * width);
            assert(wv * rest.1 <= pw * rest.1) by (nonlinear_arith)
                requires
                    wv <= pw,
                    rest.1 > 0,
            ;
            assert(width * (v * rest.1 + rest.0) == wv * rest.1 + width * rest.0)
                by (nonlinear_arith)
                requires
                    wv == width * v,
            ;
            assert(pw * rest.1 + (price * (slack - w)) * rest.1 == room * rest.1)
                by (nonlinear_arith)
                requires
                    pw == price * w,
                    room == price * slack,
            ;
        } else {
            assert(width * (v * slack) == (v * width) * slack) by (nonlinear_arith);
            assert((v * width) * slack <= (price * w) * slack) by (nonlinear_arith)
                requires
                    v * width <= price * w,
                    0 <= slack,
            ;
            assert((price * w) * slack == room * w) by (nonlinear_arith)
                requires
                    room == price * slack,
            ;
        }
    }
}

/// Where `width` more room lets an item in whole that was cut before,
/// exactly: with `rest` the ratio earned in the room left after the item.
proof fn lemma_ratio_slice_then_rest(
    v: int,
    w: int,
    c: int,
    d: int,
    price: int,
    rest: (int, int),
)
    requires
        0 <= v,
        0 <= c < w <= c + d,
        0 <= price,
        v * d <= price * w,
        rest.1 > 0,
        d * rest.0 <= (price * (c + d - w)) * rest.1,
    ensures
        (v * rest.1 + rest.0) * w <= (v * c) * rest.1 + (price * w) * rest.1,
{
    let short: int = w - c;
    let area: int = rest.1 * short;
    let dv: int = d * v;
    let pw: int = price * w;
    let lhs: int = (v * rest.1 + rest.0) * w;
    let rhs: int = (v * c) * rest.1 + pw * rest.1;
    assert(dv == v * d) by (nonlinear_arith)
        requires
            dv == d * v,
    ;
    assert(0 <= area) by (nonlinear_arith)
        requires
            area == rest.1 * short,
            rest.1 > 0,
            short > 0,
    ;
    assert(dv * area <= pw * area) by (nonlinear_arith)
        requires
            dv <= pw,
            0 <= area,
    ;
    assert((d * rest.0) * w <= ((price * (c + d - w)) * rest.1) * w) by (nonlinear_arith)
        requires
            d * rest.0 <= (price * (c + d - w)) * rest.1,
            0 < w,
    ;
    // d * lhs = dv * D * w + (d * N) * w
    assert(d * lhs == (dv * rest.1) * w + (d * rest.0) * w) by (nonlinear_arith)
        requires
            lhs == (v * rest.1 + rest.0) * w,
            dv == d * v,
    ;
    // d * rhs = dv * c * D + d * pw * D
    assert(d * rhs == (dv * rest.1) * c + (d * pw) * rest.1) by (nonlinear_arith)
        requires
            rhs == (v * c) * rest.1 + pw * rest.1,
            dv == d * v,
    ;
    assert((dv * rest.1) * w - (dv * rest.1) * c == dv * area) by (nonlinear_arith)
        requires
            area == rest.1 * short,
            short == w - c,
    ;
    assert((d * pw) * rest.1 - ((price * (c + d - w)) * rest.1) * w == pw * area)
        by (nonlinear_arith)
        requires
            area == rest.1 * short,
            short == w - c,
            pw == price * w,
    ;
    assert(d * lhs <= d * rhs);
    assert(lhs <= rhs) by (nonlinear_arith)
        requires
            0 < d,
            d * lhs <= d * rhs,
    ;
}

/// Exactly as for the whole units: with `width` more room, greedy filling
/// earns at most `price` more, where every item it walks is priced within
/// `price` per `width`.
pub proof fn lemma_ratio_extra_room(
    items: Seq<(Value, Weight)>,
    from: int,
    slack: int,
    price: int,
    width: int,
)
    requires
        0 <= from,
        0 <= slack,
        0 <= price,
        0 <= width,
        all_priced_within(items, from, price, width),
    ensures
        fill_ratio(items, from, slack + width).0 * fill_ratio(items, from, slack).1
            <= fill_ratio(items, from, slack).0 * fill_ratio(items, from, slack + width).1 + (
        price * fill_ratio(items, from, slack).1) * fill_ratio(items, from, slack + width).1,
    decreases items.len() - from,
{
    let more = fill_ratio(items, from, slack + width);
    let less = fill_ratio(items, from, slack);
    lemma_fill_is_floor(items, from, slack + width);
    lemma_fill_is_floor(items, from, slack);
    if from < items.len() {
        let v: int = items[from].0 as int;
        let w: int = items[from].1 as int;
        assert(priced_within(items[from], price, width));
        if w <= slack {
            let m = fill_ratio(items, from + 1, slack + width - w);
            let l = fill_ratio(items, from + 1, slack - w);
            lemma_ratio_extra_room(items, from + 1, slack - w, price, width);
            assert((v * m.1 + m.0) * l.1 == (v * m.1) * l.1 + m.0 * l.1) by (nonlinear_arith);
            assert((v * l.1 + l.0) * m.1 == (v * m.1) * l.1 + l.0 * m.1) by (nonlinear_arith);
        } else if w <= slack + width {
            let rest = fill_ratio(items, from + 1, slack + width - w);
            lemma_fill_is_floor(items, from + 1, slack + width - w);
            lemma_ratio_within_price(items, from + 1, slack + width - w, price, width);
            lemma_ratio_slice_then_rest(v, w, slack, width, price, rest);
        } else {
            let pw: int = price * w;
            assert((v * (slack + width)) * w == (v * slack) * w + (v * width) * w)
                by (nonlinear_arith);
            assert((v * width) * w <= pw * w) by (nonlinear_arith)
                requires
                    v * width <= pw,
                    0 < w,
            ;
        }
    } else {
        assert(0 <= price * 1 * 1) by (nonlinear_arith)
            requires
                0 <= price,
        ;
    }
}

/// Exactly as for the whole units: leaving out the first item never raises
/// what greedy filling earns, on items of falling density.
pub proof fn lemma_ratio_drop_head(items: Seq<(Value, Weight)>, from: int, slack: int)
    requires
        density_sorted(items),
        0 <= from < items.len(),
        0 <= slack,
    ensures
        ratio_le(fill_ratio(items, from + 1, slack), fill_ratio(items, from, slack)),
{
    let v: int = items[from].0 as int;
    let w: int = items[from].1 as int;
    let short = fill_ratio(items, from + 1, slack);
    lemma_sorted_prices(items, from);
    if w <= slack {
        let rest = fill_ratio(items, from + 1, slack - w);
        lemma_ratio_extra_room(items, from + 1, slack - w, v, w);
        assert((v * rest.1 + rest.0) * short.1 == rest.0 * short.1 + (v * rest.1) * short.1)
            by (nonlinear_arith);
    } else {
        lemma_ratio_within_price(items, from + 1, slack, v, w);
        assert(short.0 * w == w * short.0) by (nonlinear_arith);
    }
}

/// Exactly as for the whole units: starting later never raises what greedy
/// filling earns, on items of falling density.
pub proof fn lemma_ratio_start_later(
    items: Seq<(Value, Weight)>,
    from: int,
    later: int,
    slack: int,
)
    requires
        density_sorted(items),
        0 <= from <= later,
        0 <= slack,
    ensures
        ratio_le(fill_ratio(items, later, slack), fill_ratio(items, from, slack)),
    decreases later - from,
{
    lemma_fill_is_floor(items, from, slack);
    if later >= items.len() {
        assert(0 * fill_ratio(items, from, slack).1 == 0) by (nonlinear_arith);
    } else if from < later {
        lemma_ratio_start_later(items, from + 1, later, slack);
        lemma_ratio_drop_head(items, from, slack);
        lemma_fill_is_floor(items, from + 1, slack);
        lemma_fill_is_floor(items, later, slack);
        lemma_ratio_le_transitive(
            fill_ratio(items, later, slack),
            fill_ratio(items, from + 1, slack),
            fill_ratio(items, from, slack),
        );
    }
}

/// Exact greedy filling of a suffix is that of the whole from where the
/// suffix starts.
pub proof fn lemma_ratio_of_suffix(items: Seq<(Value, Weight)>, start: int, from: int, slack: int)
    requires
        0 <= start <= items.len(),
        0 <= from,
    ensures
        fill_ratio(items.subrange(start, items.len() as int), from, slack) == fill_ratio(
            items,
            start + from,
            slack,
        ),
    decreases items.len() - start - from,
{
    let tail = items.subrange(start, items.len() as int);
    if from < tail.len() {
        let w: int = tail[from].1 as int;
        if w <= slack {
            lemma_ratio_of_suffix(items, start, from + 1, slack - w);
        }
    }
}

/// The bound is never below the worth it starts from: not its whole units,
/// and so not the exact bound.
pub proof fn lemma_bound_at_least_base(tail: Seq<(Value, Weight)>, slack: int, base: int)
    requires
        0 <= slack,
    ensures
        bound_spec(tail, slack, base) >= base,
        bound_ratio(tail, slack, base).1 > 0,
        bound_ratio(tail, slack, base).0 >= base * bound_ratio(tail, slack, base).1,
{
    lemma_fill_non_negative(tail, 0, slack);
    lemma_fill_is_floor(tail, 0, slack);
}

/// Dropping items from the front of a tail of falling density never raises
/// the bound: not the exact bound, and not its whole units.
pub proof fn lemma_bound_falls_with_front(
    tail: Seq<(Value, Weight)>,
    dropped: int,
    slack: int,
    base: int,
)
    requires
        density_sorted(tail),
        0 <= dropped <= tail.len(),
        0 <= slack,
    ensures
        ratio_le(
            bound_ratio(tail.subrange(dropped, tail.len() as int), slack, base),
            bound_ratio(tail, slack, base),
        ),
        bound_spec(tail.subrange(dropped, tail.len() as int), slack, base) <= bound_spec(
            tail,
            slack,
            base,
        ),
{
    if slack > 0 {
        lemma_fill_of_suffix(tail, dropped, 0, slack);
        lemma_fill_start_later(tail, 0, dropped, slack);
        lemma_ratio_of_suffix(tail, dropped, 0, slack);
        lemma_ratio_start_later(tail, 0, dropped, slack);
        let short = fill_ratio(tail, dropped, slack);
        let full = fill_ratio(tail, 0, slack);
        assert((base * short.1 + short.0) * full.1 == (base * short.1) * full.1 + short.0
            * full.1) by (nonlinear_arith);
        assert((base * full.1 + full.0) * short.1 == (base * short.1) * full.1 + full.0
            * short.1) by (nonlinear_arith);
    }
}

/// No item from position `from` on weighs nothing and is worth something.
pub open spec fn no_free_worth(items: Seq<(Value, Weight)>, from: int) -> bool {
    forall|i: int| from <= i < items.len() && (#[trigger] items[i]).1 == 0 ==> items[i].0 == 0
}

/// On items of falling density, no item after one that weighs something
/// weighs nothing and is worth something.
pub proof fn lemma_no_free_worth_after(items: Seq<(Value, Weight)>, heavy: int)
    requires
        density_sorted(items),
        0 <= heavy < items.len(),
        items[heavy].1 > 0,
    ensures
        no_free_worth(items, heavy + 1),
{
    assert forall|i: int| heavy + 1 <= i < items.len() && (#[trigger] items[i]).1
        == 0 implies items[i].0 == 0 by {
        assert(at_least_as_dense(items[heavy], items[i]));
        let v: int = items[i].0 as int;
        let w: int = items[heavy].1 as int;
        assert(items[heavy].0 * 0 == 0);
        assert(v * w <= 0);
        assert(v == 0) by (nonlinear_arith)
            requires
                v >= 0,
                w > 0,
                v * w <= 0,
        ;
    }
}

/// With no room, a selection that fits takes nothing of worth from position
/// `from` on, unless an item there weighs nothing and is worth something.
pub proof fn lemma_no_room_no_worth(items: Seq<(Value, Weight)>, sel: Seq<bool>, from: int)
    requires
        0 <= from,
        no_free_worth(items, from),
        picked_from(weights_of(items), sel, from) <= 0,
    ensures
        picked_from(values_of(items), sel, from) == 0,
    decreases items.len() - from,
{
    if from < items.len() {
        assert(non_negative(weights_of(items)));
        lemma_picked_from_bounds(weights_of(items), sel, from + 1);
        assert(sel[from] ==> items[from].1 == 0);
        lemma_no_room_no_worth(items, sel, from + 1);
    }
}

/// The bound is sound: on items of falling density, what a selection that
/// fits the room takes from position `from` on is worth no more than the
/// whole units of the bound on those items; provided that there is room, or
/// that none of those items weighs nothing and is worth something.
pub proof fn lemma_bound_covers(
    items: Seq<(Value, Weight)>,
    sel: Seq<bool>,
    from: int,
    slack: int,
    base: int,
)
    requires
        density_sorted(items),
        0 <= from <= items.len(),
        0 <= slack,
        picked_from(weights_of(items), sel, from) <= slack,
        slack > 0 || no_free_worth(items, from),
    ensures
        base + picked_from(values_of(items), sel, from) <= bound_spec(
            items.subrange(from, items.len() as int),
            slack,
            base,
        ),
{
    if slack > 0 {
        lemma_fill_covers(items, sel, from, slack);
        lemma_fill_of_suffix(items, from, 0, slack);
    } else {
        lemma_no_room_no_worth(items, sel, from);
    }
}

} // verus!
