//! What folding means: planes as multilinear polynomials, and their values at
//! points.
use crate::field::F128;
use crate::ligerito::eq_table;
use crate::multilinear::{
    corner, eq_weight, fold, fold_entry, law_eq_weight_at_corners, law_sum_of_one_term,
    lemma_sum_add, lemma_sum_congruent, lemma_sum_scale, round_message, sum_upto,
};
use crate::rounds::{odd_products, sum_products};
use crate::sumcheck::{
    even_products, folded_products, inner, inner_terms, law_fold_weighted_sum, lemma_sum_pairs,
    weighted,
};
use crate::zerocheck::tail_plane;
use vstd::arithmetic::power2::{lemma_pow2_unfold, pow2};
use vstd::prelude::*;

verus! {

/// The value at `point` of the multilinear polynomial whose table is `plane`.
pub open spec fn extension(plane: Seq<F128>, point: Seq<F128>) -> F128 {
    inner(plane, eq_table(point))
}

proof fn lemma_pair_weight(lo: F128, hi: F128, p: F128, w: F128)
    ensures
        lo * ((F128::one() + p) * w) + hi * (p * w) == fold_entry(lo, hi, p) * w,
{
    let one = F128::one();
    // lo * ((1 + p) * w) = (lo + p * lo) * w
    crate::field::law_mul_associates(lo, one + p, w);
    crate::field::law_mul_distributes(lo, one, p);
    crate::field::law_mul_commutes(lo, p);
    crate::field::law_mul_commutes(lo, one);
    crate::field::law_mul_units(lo);
    assert(lo * (one + p) == lo + p * lo);
    // hi * (p * w) = (p * hi) * w
    crate::field::law_mul_associates(hi, p, w);
    crate::field::law_mul_commutes(hi, p);
    // together
    crate::field::law_mul_commutes(lo + p * lo, w);
    crate::field::law_mul_commutes(p * hi, w);
    crate::field::law_mul_distributes(w, lo + p * lo, p * hi);
    crate::field::law_mul_distributes(p, lo, hi);
    crate::field::law_add(lo, p * lo, p * hi);
    crate::field::law_mul_commutes(w, fold_entry(lo, hi, p));
}

/// Folding a plane at a challenge binds its first variable: the value at a point is
/// the value of the folded plane at the rest of the point.
pub proof fn law_fold_binds_first_variable(plane: Seq<F128>, point: Seq<F128>)
    requires
        point.len() >= 1,
        plane.len() == pow2(point.len()),
    ensures
        extension(plane, point) == extension(fold(plane, point[0]), point.skip(1)),
{
    let n = pow2((point.len() - 1) as nat) as int;
    lemma_pow2_unfold(point.len());
    let rest = point.skip(1);
    let folded = fold(plane, point[0]);
    let terms = inner_terms(plane, eq_table(point));
    let even = |p: int| terms(2 * p);
    let odd = |p: int| terms(2 * p + 1);
    let goal = inner_terms(folded, eq_table(rest));
    lemma_sum_pairs(terms, even, odd, n);
    assert forall|p: int| 0 <= p < n implies #[trigger] goal(p) == even(p) + odd(p) by {
        let w = eq_weight(rest, p);
        assert((2 * p) % 2 == 0 && (2 * p) / 2 == p);
        assert((2 * p + 1) % 2 == 1 && (2 * p + 1) / 2 == p);
        assert(eq_table(point)[2 * p] == (F128::one() + point[0]) * w);
        assert(eq_table(point)[2 * p + 1] == point[0] * w);
        lemma_pair_weight(plane[2 * p], plane[2 * p + 1], point[0], w);
    }
    lemma_sum_add(even, odd, goal, n);
}

proof fn lemma_fold_first(plane: Seq<F128>, rhos: Seq<F128>, from: int, to: int)
    requires
        from < to,
    ensures
        tail_plane(plane, rhos, from, to) == tail_plane(
            fold(plane, rhos[from]),
            rhos,
            from + 1,
            to,
        ),
    decreases to - from,
{
    if to > from + 1 {
        lemma_fold_first(plane, rhos, from, to - 1);
    } else {
        assert(tail_plane(plane, rhos, from, from) == plane);
    }
}

/// Folding a plane at a challenge for every variable leaves its value at the point
/// of those challenges.
pub proof fn law_folds_evaluate(plane: Seq<F128>, rhos: Seq<F128>, from: int, to: int)
    requires
        0 <= from <= to <= rhos.len(),
        plane.len() == pow2((to - from) as nat),
    ensures
        tail_plane(plane, rhos, from, to).len() == 1,
        tail_plane(plane, rhos, from, to)[0] == extension(plane, rhos.subrange(from, to)),
    decreases to - from,
{
    let point = rhos.subrange(from, to);
    if from == to {
        vstd::arithmetic::power2::lemma2_to64();
        let terms = inner_terms(plane, eq_table(point));
        assert(plane.len() == 1);
        assert(sum_upto(terms, 1) == sum_upto(terms, 0) + terms(0));
        crate::field::law_add(plane[0], F128::zero(), F128::zero());
        crate::field::law_mul_units(plane[0]);
        crate::field::law_mul_commutes(plane[0], F128::one());
    } else {
        lemma_pow2_unfold((to - from) as nat);
        lemma_fold_first(plane, rhos, from, to);
        law_folds_evaluate(fold(plane, rhos[from]), rhos, from + 1, to);
        law_fold_binds_first_variable(plane, point);
        assert(point.skip(1) =~= rhos.subrange(from + 1, to));
    }
}

/// Two runs of folds one after the other are one run.
pub proof fn law_folds_compose(plane: Seq<F128>, rhos: Seq<F128>, from: int, mid: int, to: int)
    requires
        from <= mid <= to,
    ensures
        tail_plane(tail_plane(plane, rhos, from, mid), rhos, mid, to) == tail_plane(
            plane,
            rhos,
            from,
            to,
        ),
    decreases to - mid,
{
    if mid < to {
        law_folds_compose(plane, rhos, from, mid, to - 1);
    }
}

/// The summands of the zerocheck sum.
pub open spec fn claim_terms(a: Seq<F128>, b: Seq<F128>, point: Seq<F128>) -> spec_fn(int) -> F128 {
    |x: int| eq_weight(point, x) * (a[x] * b[x])
}

/// The zerocheck sum of two planes: their products, weighted by equality with
/// `point`.
pub open spec fn claim(a: Seq<F128>, b: Seq<F128>, point: Seq<F128>) -> F128 {
    sum_upto(claim_terms(a, b, point), a.len() as int)
}

/// The round polynomial at zero.
pub open spec fn round_at_zero(a: Seq<F128>, b: Seq<F128>, rest: Seq<F128>) -> F128 {
    sum_upto(
        weighted(|p: int| eq_weight(rest, p), even_products(a, b)),
        (a.len() / 2) as int,
    )
}

/// A zerocheck round is sound: with the bare message `(g1, ginf)` of the round and
/// the value `g0` of its polynomial at zero, the sum splits over the first
/// variable, and the sum of the folded planes is the value of the polynomial at
/// the challenge.
pub proof fn law_zerocheck_round(a: Seq<F128>, b: Seq<F128>, point: Seq<F128>, rho: F128)
    requires
        point.len() >= 1,
        a.len() == pow2(point.len()),
        b.len() == a.len(),
    ensures
        ({
            let rest = point.skip(1);
            let (g1, ginf) = round_message(a, b, seq![F128::one()] + rest);
            let g0 = round_at_zero(a, b, rest);
            &&& claim(a, b, point) == (F128::one() + point[0]) * g0 + point[0] * g1
            &&& claim(fold(a, rho), fold(b, rho), rest) == g0 + rho * (((g0 + g1) + ginf) + rho
                * ginf)
        }),
{
    let n = pow2((point.len() - 1) as nat) as int;
    lemma_pow2_unfold(point.len());
    let one = F128::one();
    let rest = point.skip(1);
    let w = |p: int| eq_weight(rest, p);
    let e = weighted(w, even_products(a, b));
    let o = weighted(w, odd_products(a, b));
    let s = weighted(w, sum_products(a, b));
    let bare = seq![one] + rest;
    assert(bare.skip(1) =~= rest);
    let (g1, ginf) = round_message(a, b, bare);
    let g0 = round_at_zero(a, b, rest);
    assert(g1 == sum_upto(o, n)) by {
        crate::field::law_mul_units(sum_upto(crate::multilinear::one_terms(a, b, rest), n));
        lemma_sum_congruent(crate::multilinear::one_terms(a, b, rest), o, n);
    }
    assert(ginf == sum_upto(s, n)) by {
        lemma_sum_congruent(crate::multilinear::inf_terms(a, b, rest), s, n);
    }
    // the folded sum is the quadratic at the challenge
    law_fold_weighted_sum(w, a, b, rho, n);
    lemma_sum_congruent(
        weighted(w, folded_products(a, b, rho)),
        claim_terms(fold(a, rho), fold(b, rho), rest),
        n,
    );
    // the sum splits over the first variable
    let terms = claim_terms(a, b, point);
    let even = |p: int| (one + point[0]) * e(p);
    let odd = |p: int| point[0] * o(p);
    assert forall|p: int| 0 <= p < n implies #[trigger] even(p) == terms(2 * p) by {
        assert((2 * p) % 2 == 0 && (2 * p) / 2 == p);
        crate::field::law_mul_associates(one + point[0], w(p), a[2 * p] * b[2 * p]);
    }
    assert forall|p: int| 0 <= p < n implies #[trigger] odd(p) == terms(2 * p + 1) by {
        assert((2 * p + 1) % 2 == 1 && (2 * p + 1) / 2 == p);
        crate::field::law_mul_associates(point[0], w(p), a[2 * p + 1] * b[2 * p + 1]);
    }
    lemma_sum_pairs(terms, even, odd, n);
    lemma_sum_scale(one + point[0], e, even, n);
    lemma_sum_scale(point[0], o, odd, n);
}

/// A multilinear polynomial takes at every corner of the cube the value of its table there.
pub proof fn law_extension_at_corners(plane: Seq<F128>, y: int, n: nat)
    requires
        plane.len() == pow2(n),
        0 <= y < pow2(n),
    ensures
        extension(plane, corner(y, n)) == plane[y],
{
    law_eq_weight_at_corners(0, y, n);
    let terms = inner_terms(plane, eq_table(corner(y, n)));
    assert forall|i: int| 0 <= i < plane.len() && i != y implies #[trigger] terms(i)
        == F128::zero() by {
        law_eq_weight_at_corners(i, y, n);
        crate::field::law_mul_units(plane[i]);
    }
    law_eq_weight_at_corners(y, y, n);
    crate::field::law_mul_units(plane[y]);
    law_sum_of_one_term(terms, plane.len() as int, y);
}

/// The message of a zerocheck round: the first coordinate of the point times the weighted sum of
/// the products at one, and the weighted sum of the products of the sums of pairs, both weighted
/// by equality with the other coordinates.
pub proof fn law_round_message_parts(a: Seq<F128>, b: Seq<F128>, point: Seq<F128>)
    ensures
        round_message(a, b, point).0 == point[0] * sum_upto(
            |p: int| eq_weight(point.skip(1), p) * (a[2 * p + 1] * b[2 * p + 1]),
            (a.len() / 2) as int,
        ),
        round_message(a, b, point).1 == sum_upto(
            |p: int|
                eq_weight(point.skip(1), p) * ((a[2 * p] + a[2 * p + 1]) * (b[2 * p] + b[2 * p
                    + 1])),
            (a.len() / 2) as int,
        ),
{
    let n = (a.len() / 2) as int;
    let rest = point.skip(1);
    let one = |p: int| eq_weight(rest, p) * (a[2 * p + 1] * b[2 * p + 1]);
    let inf = |p: int|
        eq_weight(rest, p) * ((a[2 * p] + a[2 * p + 1]) * (b[2 * p] + b[2 * p + 1]));
    lemma_sum_congruent(crate::multilinear::one_terms(a, b, rest), one, n);
    lemma_sum_congruent(crate::multilinear::inf_terms(a, b, rest), inf, n);
}

} // verus!
