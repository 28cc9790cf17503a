//! Folding rounds on a pair of planes.
use crate::field::F128;
use crate::multilinear::{
    build_eq, eq_weight, fold, inf_terms, one_terms, round_message, sum_upto, SplitEq,
};
use vstd::arithmetic::power2::{lemma_pow2_adds, pow2};
use vstd::prelude::*;

verus! {

/// The product of the odd entries of each pair.
pub open spec fn odd_products(a: Seq<F128>, b: Seq<F128>) -> spec_fn(int) -> F128 {
    |p: int| a[2 * p + 1] * b[2 * p + 1]
}

/// The product of the sums of each pair.
pub open spec fn sum_products(a: Seq<F128>, b: Seq<F128>) -> spec_fn(int) -> F128 {
    |p: int| (a[2 * p] + a[2 * p + 1]) * (b[2 * p] + b[2 * p + 1])
}

/// The summands of one row of a split sum.
pub open spec fn row_terms(
    lo: Seq<F128>,
    g: spec_fn(int) -> F128,
    h: int,
    cols: int,
) -> spec_fn(int) -> F128 {
    |l: int| lo[l] * g(h * cols + l)
}

/// The weighted rows of a split sum.
pub open spec fn split_rows(
    lo: Seq<F128>,
    hi: Seq<F128>,
    g: spec_fn(int) -> F128,
) -> spec_fn(int) -> F128 {
    |h: int| hi[h] * sum_upto(row_terms(lo, g, h, lo.len() as int), lo.len() as int)
}

/// Summing by rows with factored weights gives the plain weighted sum.
pub proof fn lemma_split_sum(
    eq: SplitEq,
    point: Seq<F128>,
    g: spec_fn(int) -> F128,
    f: spec_fn(int) -> F128,
)
    requires
        eq.factors(point),
        forall|p: int| #[trigger] f(p) == eq_weight(point, p) * g(p),
    ensures
        eq.lo@.len() * eq.hi@.len() == pow2(point.len()),
        sum_upto(split_rows(eq.lo@, eq.hi@, g), eq.hi@.len() as int) == sum_upto(
            f,
            pow2(point.len()) as int,
        ),
{
    let cols = eq.lo@.len() as int;
    let rows = eq.hi@.len() as int;
    let outer = split_rows(eq.lo@, eq.hi@, g);
    lemma_pow2_adds(eq.n_lo as nat, eq.n_hi as nat);
    assert(rows * cols == cols * rows) by (nonlinear_arith);
    assert forall|h: int| 0 <= h < rows implies #[trigger] outer(h) == sum_upto(
        |l: int| f(h * cols + l),
        cols,
    ) by {
        let inner = row_terms(eq.lo@, g, h, cols);
        let scaled = |l: int| f(h * cols + l);
        assert forall|l: int| 0 <= l < cols implies #[trigger] scaled(l) == eq.hi@[h] * inner(
            l,
        ) by {
            crate::multilinear::law_eq_weight_splits(point, eq.n_lo as int, h, l);
            crate::field::law_mul_commutes(eq.lo@[l], eq.hi@[h]);
            crate::field::law_mul_associates(eq.hi@[h], eq.lo@[l], g(h * cols + l));
        }
        crate::multilinear::lemma_sum_scale(eq.hi@[h], inner, scaled, cols);
    }
    crate::multilinear::lemma_sum_rows(f, outer, rows, cols);
}

/// Folds a plane in place at `rho`, halving its length.
pub fn fold_in_place(plane: &mut Vec<F128>, rho: F128)
    ensures
        final(plane)@ == fold(old(plane)@, rho),
{
    let ghost before = plane@;
    let len = plane.len();
    let half = len / 2;
    let mut i: usize = 0;
    while i < half
        invariant
            i <= half,
            half == len / 2,
            len == before.len(),
            plane@.len() == before.len(),
            forall|j: int| 0 <= j < i ==> plane@[j] == fold(before, rho)[j],
            forall|j: int| 2 * i <= j < before.len() ==> plane@[j] == before[j],
        decreases half - i,
    {
        let lo = plane[2 * i];
        let hi = plane[2 * i + 1];
        plane.set(i, lo + rho * (lo + hi));
        i = i + 1;
    }
    plane.truncate(half);
    assert(plane@ =~= fold(before, rho));
}

/// Folds both planes in place at `rho`.
pub fn fold_in_place_pair(a: &mut Vec<F128>, b: &mut Vec<F128>, rho: F128)
    ensures
        final(a)@ == fold(old(a)@, rho),
        final(b)@ == fold(old(b)@, rho),
{
    fold_in_place(a, rho);
    fold_in_place(b, rho);
}

/// Two planes over the variables of `point`.
pub open spec fn planes_match(a: Seq<F128>, b: Seq<F128>, point: Seq<F128>) -> bool {
    &&& point.len() >= 1
    &&& a.len() == pow2(point.len())
    &&& b.len() == a.len()
}

/// The round message, by direct summation.
pub fn round_pair_naive(a: &[F128], b: &[F128], point: &[F128]) -> (message: (F128, F128))
    requires
        planes_match(a@, b@, point@),
    ensures
        message == round_message(a@, b@, point@),
{
    let len = a.len();
    let rest = vstd::slice::slice_subrange(point, 1, point.len());
    assert(rest@ =~= point@.skip(1));
    proof {
        vstd::arithmetic::power2::lemma_pow2_unfold(point@.len());
    }
    let eq = build_eq(rest);
    let pairs = eq.len();
    let mut one = F128::zero();
    let mut inf = F128::zero();
    let mut p: usize = 0;
    while p < pairs
        invariant
            p <= pairs,
            pairs == eq@.len(),
            2 * pairs == len,
            len == a@.len(),
            b@.len() == a@.len(),
            forall|x: int| 0 <= x < pairs ==> eq@[x] == eq_weight(rest@, x),
            one == sum_upto(one_terms(a@, b@, rest@), p as int),
            inf == sum_upto(inf_terms(a@, b@, rest@), p as int),
        decreases pairs - p,
    {
        one = one + eq[p] * (a[2 * p + 1] * b[2 * p + 1]);
        inf = inf + eq[p] * ((a[2 * p] + a[2 * p + 1]) * (b[2 * p] + b[2 * p + 1]));
        p = p + 1;
    }
    (point[0] * one, inf)
}

/// The round message, summed row by row with factored weights.
pub fn round_pair_split(a: &[F128], b: &[F128], point: &[F128]) -> (message: (F128, F128))
    requires
        planes_match(a@, b@, point@),
    ensures
        message == round_message(a@, b@, point@),
{
    let len = a.len();
    let rest = vstd::slice::slice_subrange(point, 1, point.len());
    assert(rest@ =~= point@.skip(1));
    let ghost odd = odd_products(a@, b@);
    let ghost sums = sum_products(a@, b@);
    proof {
        vstd::arithmetic::power2::lemma_pow2_unfold(point@.len());
    }
    let eq = SplitEq::new(rest);
    let cols = eq.lo.len();
    let rows = eq.hi.len();
    proof {
        lemma_split_sum(eq, rest@, odd, one_terms(a@, b@, rest@));
        lemma_split_sum(eq, rest@, sums, inf_terms(a@, b@, rest@));
    }
    let mut one = F128::zero();
    let mut inf = F128::zero();
    let mut h: usize = 0;
    while h < rows
        invariant
            h <= rows,
            rows == eq.hi@.len(),
            cols == eq.lo@.len(),
            2 * (cols * rows) == len,
            len == a@.len(),
            b@.len() == a@.len(),
            odd == odd_products(a@, b@),
            sums == sum_products(a@, b@),
            one == sum_upto(split_rows(eq.lo@, eq.hi@, odd), h as int),
            inf == sum_upto(split_rows(eq.lo@, eq.hi@, sums), h as int),
        decreases rows - h,
    {
        assert(0 <= h * cols && h * cols + cols <= cols * rows) by (nonlinear_arith)
            requires
                0 <= h,
                0 <= cols,
                h + 1 <= rows,
        ;
        let base = h * cols;
        let mut row_one = F128::zero();
        let mut row_inf = F128::zero();
        let mut l: usize = 0;
        while l < cols
            invariant
                l <= cols,
                cols == eq.lo@.len(),
                base == h * cols,
                2 * (base + cols) <= len,
                len == a@.len(),
                b@.len() == a@.len(),
                odd == odd_products(a@, b@),
                sums == sum_products(a@, b@),
                row_one == sum_upto(row_terms(eq.lo@, odd, h as int, cols as int), l as int),
                row_inf == sum_upto(row_terms(eq.lo@, sums, h as int, cols as int), l as int),
            decreases cols - l,
        {
            let x = 2 * (base + l);
            row_one = row_one + eq.lo[l] * (a[x + 1] * b[x + 1]);
            row_inf = row_inf + eq.lo[l] * ((a[x] + a[x + 1]) * (b[x] + b[x + 1]));
            l = l + 1;
        }
        one = one + eq.hi[h] * row_one;
        inf = inf + eq.hi[h] * row_inf;
        h = h + 1;
    }
    (point[0] * one, inf)
}

/// The planes handed to a fused round: `point` is over the folded planes.
pub open spec fn fused_shape(
    a: Seq<F128>,
    b: Seq<F128>,
    a_out: Seq<F128>,
    b_out: Seq<F128>,
    point: Seq<F128>,
) -> bool {
    &&& point.len() >= 1
    &&& a.len() == 2 * pow2(point.len())
    &&& b.len() == a.len()
    &&& a_out.len() >= pow2(point.len())
    &&& b_out.len() >= pow2(point.len())
}

/// What a fused round leaves in an output buffer: the folded plane in front, the
/// rest as it was.
pub open spec fn folded_into(
    before: Seq<F128>,
    plane: Seq<F128>,
    rho: F128,
) -> Seq<F128> {
    fold(plane, rho) + before.skip((plane.len() / 2) as int)
}

/// Folds both planes at `rho` into the front of the output buffers and returns
/// the message of the folded planes.
pub fn fold_and_compute_round_pair_into(
    a: &[F128],
    b: &[F128],
    a_out: &mut Vec<F128>,
    b_out: &mut Vec<F128>,
    rho: F128,
    point: &[F128],
) -> (message: (F128, F128))
    requires
        fused_shape(a@, b@, old(a_out)@, old(b_out)@, point@),
    ensures
        final(a_out)@ == folded_into(old(a_out)@, a@, rho),
        final(b_out)@ == folded_into(old(b_out)@, b@, rho),
        message == round_message(fold(a@, rho), fold(b@, rho), point@),
{
    let ghost a_before = a_out@;
    let ghost b_before = b_out@;
    let len = a.len();
    let half = len / 2;
    let mut i: usize = 0;
    while i < half
        invariant
            i <= half,
            2 * half == len,
            len == a@.len(),
            b@.len() == a@.len(),
            a_before.len() >= half,
            b_before.len() >= half,
            a_out@.len() == a_before.len(),
            b_out@.len() == b_before.len(),
            forall|j: int| 0 <= j < i ==> a_out@[j] == fold(a@, rho)[j],
            forall|j: int| 0 <= j < i ==> b_out@[j] == fold(b@, rho)[j],
            forall|j: int| i <= j < a_before.len() ==> a_out@[j] == a_before[j],
            forall|j: int| i <= j < b_before.len() ==> b_out@[j] == b_before[j],
        decreases half - i,
    {
        a_out.set(i, a[2 * i] + rho * (a[2 * i] + a[2 * i + 1]));
        b_out.set(i, b[2 * i] + rho * (b[2 * i] + b[2 * i + 1]));
        i = i + 1;
    }
    assert(a_out@ =~= folded_into(a_before, a@, rho));
    assert(b_out@ =~= folded_into(b_before, b@, rho));
    let a_front = vstd::slice::slice_subrange(a_out.as_slice(), 0, half);
    let b_front = vstd::slice::slice_subrange(b_out.as_slice(), 0, half);
    assert(a_front@ =~= fold(a@, rho));
    assert(b_front@ =~= fold(b@, rho));
    round_pair_split(a_front, b_front, point)
}

/// The same round in a single pass: each output pair is folded and weighed at
/// once.
pub fn fold_and_compute_round_pair_fused_tail_into(
    a: &[F128],
    b: &[F128],
    a_out: &mut Vec<F128>,
    b_out: &mut Vec<F128>,
    rho: F128,
    point: &[F128],
) -> (message: (F128, F128))
    requires
        fused_shape(a@, b@, old(a_out)@, old(b_out)@, point@),
    ensures
        final(a_out)@ == folded_into(old(a_out)@, a@, rho),
        final(b_out)@ == folded_into(old(b_out)@, b@, rho),
        message == round_message(fold(a@, rho), fold(b@, rho), point@),
{
    let ghost a_before = a_out@;
    let ghost b_before = b_out@;
    let ghost a_fold = fold(a@, rho);
    let ghost b_fold = fold(b@, rho);
    let len = a.len();
    let rest = vstd::slice::slice_subrange(point, 1, point.len());
    assert(rest@ =~= point@.skip(1));
    proof {
        vstd::arithmetic::power2::lemma_pow2_unfold(point@.len());
    }
    let eq = build_eq(rest);
    let pairs = eq.len();
    let mut one = F128::zero();
    let mut inf = F128::zero();
    let mut p: usize = 0;
    while p < pairs
        invariant
            p <= pairs,
            pairs == eq@.len(),
            4 * pairs == len,
            len == a@.len(),
            b@.len() == a@.len(),
            a_fold == fold(a@, rho),
            b_fold == fold(b@, rho),
            a_before.len() >= 2 * pairs,
            b_before.len() >= 2 * pairs,
            a_out@.len() == a_before.len(),
            b_out@.len() == b_before.len(),
            forall|x: int| 0 <= x < pairs ==> eq@[x] == eq_weight(rest@, x),
            forall|j: int| 0 <= j < 2 * p ==> a_out@[j] == a_fold[j],
            forall|j: int| 0 <= j < 2 * p ==> b_out@[j] == b_fold[j],
            forall|j: int| 2 * p <= j < a_before.len() ==> a_out@[j] == a_before[j],
            forall|j: int| 2 * p <= j < b_before.len() ==> b_out@[j] == b_before[j],
            one == sum_upto(one_terms(a_fold, b_fold, rest@), p as int),
            inf == sum_upto(inf_terms(a_fold, b_fold, rest@), p as int),
        decreases pairs - p,
    {
        let a0 = a[4 * p] + rho * (a[4 * p] + a[4 * p + 1]);
        let a1 = a[4 * p + 2] + rho * (a[4 * p + 2] + a[4 * p + 3]);
        let b0 = b[4 * p] + rho * (b[4 * p] + b[4 * p + 1]);
        let b1 = b[4 * p + 2] + rho * (b[4 * p + 2] + b[4 * p + 3]);
        assert(a0 == a_fold[2 * p as int] && a1 == a_fold[2 * p + 1]);
        assert(b0 == b_fold[2 * p as int] && b1 == b_fold[2 * p + 1]);
        a_out.set(2 * p, a0);
        a_out.set(2 * p + 1, a1);
        b_out.set(2 * p, b0);
        b_out.set(2 * p + 1, b1);
        one = one + eq[p] * (a1 * b1);
        inf = inf + eq[p] * ((a0 + a1) * (b0 + b1));
        p = p + 1;
    }
    assert(a_out@ =~= folded_into(a_before, a@, rho));
    assert(b_out@ =~= folded_into(b_before, b@, rho));
    (point[0] * one, inf)
}

} // verus!
