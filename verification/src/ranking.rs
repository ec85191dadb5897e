//! The order in which items are searched: falling density first, then
//! falling worth, then the position the item came in.

use vstd::prelude::*;
use crate::item::{Value, Weight};
use crate::relaxation::{at_least_as_dense, density_sorted};
use crate::search::pairs_of;

verus! {

/// Positive where `a` is denser than `b`, negative where `b` is denser than
/// `a`: the difference of their densities, cleared of fractions.
pub open spec fn cross(a: (Value, Weight), b: (Value, Weight)) -> int {
    a.0 * b.1 - b.0 * a.1
}

/// `a` is denser than `b`, or as dense and worth more.
pub open spec fn outranks(a: (Value, Weight), b: (Value, Weight)) -> bool {
    cross(a, b) > 0 || (cross(a, b) == 0 && a.0 > b.0)
}

/// `b` does not outrank `a`.
pub open spec fn keeps_rank(a: (Value, Weight), b: (Value, Weight)) -> bool {
    !outranks(b, a)
}

/// The labelled item `a` is searched before `b`: it outranks `b`, or neither
/// outranks the other and `a` came first.
pub open spec fn precedes(a: (usize, Value, Weight), b: (usize, Value, Weight)) -> bool {
    outranks((a.1, a.2), (b.1, b.2)) || (!outranks((b.1, b.2), (a.1, a.2)) && a.0 < b.0)
}

/// Every item of `out` precedes all that follow it.
pub open spec fn ranked(out: Seq<(usize, Value, Weight)>) -> bool {
    forall|i: int, j: int| 0 <= i < j < out.len() ==> #[trigger] precedes(out[i], out[j])
}

/// How the density differences between three items hang together.
proof fn lemma_cross_chain(av: int, aw: int, bv: int, bw: int, cv: int, cw: int)
    ensures
        bw * (av * cw - cv * aw) == cw * (av * bw - bv * aw) + aw * (bv * cw - cv * bw),
        bv * (av * cw - cv * aw) == cv * (av * bw - bv * aw) + av * (bv * cw - cv * bw),
{
    assert(bw * (av * cw - cv * aw) == cw * (av * bw - bv * aw) + aw * (bv * cw - cv * bw))
        by (nonlinear_arith);
    assert(bv * (av * cw - cv * aw) == cv * (av * bw - bv * aw) + av * (bv * cw - cv * bw))
        by (nonlinear_arith);
}

/// The sign of a product with a factor that is not negative.
proof fn lemma_product_sign(p: int, q: int)
    requires
        0 <= p,
    ensures
        0 <= q ==> 0 <= p * q,
        q <= 0 ==> p * q <= 0,
        (0 < p && p * q == 0) ==> q == 0,
        (0 < p && p * q >= 0) ==> q >= 0,
        (0 < p && 0 < q) ==> 0 < p * q,
        p == 0 ==> p * q == 0,
{
    assert(0 <= q ==> 0 <= p * q) by (nonlinear_arith)
        requires
            0 <= p,
    ;
    assert(q <= 0 ==> p * q <= 0) by (nonlinear_arith)
        requires
            0 <= p,
    ;
    assert((0 < p && 0 < q) ==> 0 < p * q) by (nonlinear_arith);
    assert((0 < p && q < 0) ==> p * q < 0) by (nonlinear_arith);
    assert(p == 0 ==> p * q == 0) by (nonlinear_arith);
}

/// Keeping rank carries over: if `b` does not outrank `a` and `c` does not
/// outrank `b`, then `c` does not outrank `a`.
pub proof fn lemma_keeps_rank_transitive(
    a: (Value, Weight),
    b: (Value, Weight),
    c: (Value, Weight),
)
    requires
        keeps_rank(a, b),
        keeps_rank(b, c),
    ensures
        keeps_rank(a, c),
{
    let av: int = a.0 as int;
    let aw: int = a.1 as int;
    let bv: int = b.0 as int;
    let bw: int = b.1 as int;
    let cv: int = c.0 as int;
    let cw: int = c.1 as int;
    let x: int = av * bw - bv * aw;
    let y: int = bv * cw - cv * bw;
    let z: int = av * cw - cv * aw;
    assert(cross(a, b) == x && cross(b, a) == -x);
    assert(cross(b, c) == y && cross(c, b) == -y);
    assert(cross(a, c) == z && cross(c, a) == -z);
    assert(x >= 0 && (x == 0 ==> av >= bv));
    assert(y >= 0 && (y == 0 ==> bv >= cv));
    lemma_cross_chain(av, aw, bv, bw, cv, cw);
    lemma_product_sign(cw, x);
    lemma_product_sign(aw, y);
    lemma_product_sign(cv, x);
    lemma_product_sign(av, y);
    lemma_product_sign(bw, z);
    lemma_product_sign(bv, z);
    lemma_product_sign(x, cw);
    lemma_product_sign(x, cv);
    lemma_product_sign(y, aw);
    lemma_product_sign(y, av);
    lemma_product_sign(av, cw);
    lemma_product_sign(cv, aw);
    lemma_product_sign(bv, aw);
    lemma_product_sign(av, bw);
    lemma_product_sign(bv, cw);
    lemma_product_sign(cv, bw);
    assert(cw * x == x * cw && aw * y == y * aw && cv * x == x * cv && av * y == y * av)
        by (nonlinear_arith);
    if bw > 0 {
        assert(z >= 0);
        if z == 0 {
            if x > 0 {
                assert(cw == 0);
                assert(cv == 0);
            } else if y > 0 {
                assert(aw == 0);
                assert(av == 0);
                assert(false);
            }
        }
    } else if bv > 0 {
        assert(z >= 0);
        if z == 0 {
            if x > 0 {
                assert(cv == 0);
            } else if y > 0 {
                assert(av == 0);
                assert(false);
            }
        }
    } else {
        assert(x == 0 && y == 0);
        assert(cv == 0);
        assert(z >= 0);
    }
}

/// Preceding carries over from pair to pair.
pub proof fn lemma_precedes_transitive(
    a: (usize, Value, Weight),
    b: (usize, Value, Weight),
    c: (usize, Value, Weight),
)
    requires
        precedes(a, b),
        precedes(b, c),
    ensures
        precedes(a, c),
{
    let pa = (a.1, a.2);
    let pb = (b.1, b.2);
    let pc = (c.1, c.2);
    assert(keeps_rank(pa, pb));
    assert(keeps_rank(pb, pc));
    lemma_keeps_rank_transitive(pa, pb, pc);
    if !outranks(pa, pc) {
        assert(keeps_rank(pc, pa));
        lemma_keeps_rank_transitive(pc, pa, pb);
        lemma_keeps_rank_transitive(pb, pc, pa);
    }
}

/// Ranked items come in order of falling density.
pub proof fn lemma_ranked_is_density_sorted(out: Seq<(usize, Value, Weight)>)
    requires
        ranked(out),
    ensures
        density_sorted(pairs_of(out)),
{
    let pairs = pairs_of(out);
    assert forall|i: int, j: int| 0 <= i < j < pairs.len() implies #[trigger] at_least_as_dense(
        pairs[i],
        pairs[j],
    ) by {
        assert(precedes(out[i], out[j]));
        assert(cross(pairs[i], pairs[j]) >= 0);
    }
}

} // verus!
