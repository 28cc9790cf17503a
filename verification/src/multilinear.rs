//! Multilinear tools: finite sums, equality weights, plane folding and round
//! messages.
//!
//! A plane is the table of values of a multilinear polynomial on the Boolean
//! cube; the first variable is the lowest bit of the index. Binding that
//! variable to `rho` folds neighbouring entries.
use crate::field::F128;
use vstd::arithmetic::power2::{lemma_pow2_adds, lemma_pow2_pos, lemma_pow2_unfold, pow2};
use vstd::prelude::*;

verus! {

/// `f(0) + f(1) + ... + f(n - 1)`.
pub open spec fn sum_upto(f: spec_fn(int) -> F128, n: int) -> F128
    decreases n,
{
    if n <= 0 {
        F128::zero()
    } else {
        sum_upto(f, n - 1) + f(n - 1)
    }
}

/// The equality weight of index `x` at `point`: the product over the variables
/// of `p` where the bit of `x` is one and `1 + p` where it is zero.
pub open spec fn eq_weight(point: Seq<F128>, x: int) -> F128
    decreases point.len(),
{
    if point.len() == 0 {
        F128::one()
    } else {
        (if x % 2 == 1 {
            point[0]
        } else {
            F128::one() + point[0]
        }) * eq_weight(point.skip(1), x / 2)
    }
}

/// One entry of a folded plane.
pub open spec fn fold_entry(lo: F128, hi: F128, rho: F128) -> F128 {
    lo + rho * (lo + hi)
}

/// The plane with its first variable bound to `rho`.
pub open spec fn fold(plane: Seq<F128>, rho: F128) -> Seq<F128> {
    Seq::new(
        (plane.len() / 2) as nat,
        |i: int| fold_entry(plane[2 * i], plane[2 * i + 1], rho),
    )
}

/// The summands of the value at one of the round polynomial.
pub open spec fn one_terms(a: Seq<F128>, b: Seq<F128>, point: Seq<F128>) -> spec_fn(int) -> F128 {
    |p: int| eq_weight(point, p) * (a[2 * p + 1] * b[2 * p + 1])
}

/// The summands of the leading coefficient of the round polynomial.
pub open spec fn inf_terms(a: Seq<F128>, b: Seq<F128>, point: Seq<F128>) -> spec_fn(int) -> F128 {
    |p: int| eq_weight(point, p) * ((a[2 * p] + a[2 * p + 1]) * (b[2 * p] + b[2 * p + 1]))
}

/// The round message of two planes: `(point[0] * G(1), G(infinity))`, where `G`
/// sums the product of the planes over all variables but the first, weighted by
/// equality with the rest of `point`.
pub open spec fn round_message(a: Seq<F128>, b: Seq<F128>, point: Seq<F128>) -> (F128, F128) {
    (
        point[0] * sum_upto(one_terms(a, b, point.skip(1)), (a.len() / 2) as int),
        sum_upto(inf_terms(a, b, point.skip(1)), (a.len() / 2) as int),
    )
}

// Sums.

pub proof fn lemma_sum_congruent(f: spec_fn(int) -> F128, g: spec_fn(int) -> F128, n: int)
    requires
        forall|i: int| 0 <= i < n ==> #[trigger] f(i) == g(i),
    ensures
        sum_upto(f, n) == sum_upto(g, n),
    decreases n,
{
    if n > 0 {
        lemma_sum_congruent(f, g, n - 1);
    }
}

pub proof fn lemma_sum_zero(f: spec_fn(int) -> F128, n: int)
    requires
        forall|i: int| 0 <= i < n ==> #[trigger] f(i) == F128::zero(),
    ensures
        sum_upto(f, n) == F128::zero(),
    decreases n,
{
    if n > 0 {
        lemma_sum_zero(f, n - 1);
        crate::field::law_add(F128::zero(), F128::zero(), F128::zero());
    }
}

/// A sum in which all terms but one vanish is that term, wherever it stands.
pub proof fn law_sum_of_one_term(f: spec_fn(int) -> F128, n: int, k: int)
    requires
        0 <= k < n,
        forall|i: int| 0 <= i < n && i != k ==> #[trigger] f(i) == F128::zero(),
    ensures
        sum_upto(f, n) == f(k),
    decreases n,
{
    crate::field::law_add(f(k), F128::zero(), F128::zero());
    crate::field::law_add(F128::zero(), f(k), F128::zero());
    if k == n - 1 {
        lemma_sum_zero(f, n - 1);
    } else {
        law_sum_of_one_term(f, n - 1, k);
        assert(f(n - 1) == F128::zero());
    }
}

/// A sum feels every one of its terms: where two lists of terms differ in one place only,
/// the sums differ by the difference there.
pub proof fn law_sum_feels_every_term(
    f: spec_fn(int) -> F128,
    g: spec_fn(int) -> F128,
    n: int,
    k: int,
)
    requires
        0 <= k < n,
        forall|i: int| 0 <= i < n && i != k ==> #[trigger] f(i) == g(i),
    ensures
        sum_upto(f, n) + sum_upto(g, n) == f(k) + g(k),
{
    let both = |i: int| f(i) + g(i);
    assert forall|i: int| 0 <= i < n && i != k implies #[trigger] both(i) == F128::zero() by {
        assert(f(i) == g(i));
        crate::field::law_add(f(i), f(i), f(i));
    }
    lemma_sum_add(f, g, both, n);
    law_sum_of_one_term(both, n, k);
}

pub proof fn lemma_sum_add(
    f: spec_fn(int) -> F128,
    g: spec_fn(int) -> F128,
    h: spec_fn(int) -> F128,
    n: int,
)
    requires
        forall|i: int| 0 <= i < n ==> #[trigger] h(i) == f(i) + g(i),
    ensures
        sum_upto(h, n) == sum_upto(f, n) + sum_upto(g, n),
    decreases n,
{
    crate::field::law_add(F128::zero(), F128::zero(), F128::zero());
    if n > 0 {
        lemma_sum_add(f, g, h, n - 1);
        crate::field::lemma_add_exchange(
            sum_upto(f, n - 1),
            sum_upto(g, n - 1),
            f(n - 1),
            g(n - 1),
        );
    }
}

pub proof fn lemma_sum_scale(c: F128, f: spec_fn(int) -> F128, g: spec_fn(int) -> F128, n: int)
    requires
        forall|i: int| 0 <= i < n ==> #[trigger] g(i) == c * f(i),
    ensures
        sum_upto(g, n) == c * sum_upto(f, n),
    decreases n,
{
    crate::field::law_mul_units(c);
    if n > 0 {
        lemma_sum_scale(c, f, g, n - 1);
        crate::field::law_mul_distributes(c, sum_upto(f, n - 1), f(n - 1));
    }
}

/// A sum splits at any index.
pub proof fn lemma_sum_append(
    f: spec_fn(int) -> F128,
    g: spec_fn(int) -> F128,
    m: int,
    n: int,
)
    requires
        0 <= m,
        0 <= n,
        forall|i: int| 0 <= i < n ==> #[trigger] g(i) == f(m + i),
    ensures
        sum_upto(f, m + n) == sum_upto(f, m) + sum_upto(g, n),
    decreases n,
{
    crate::field::law_add(sum_upto(f, m), F128::zero(), F128::zero());
    if n > 0 {
        lemma_sum_append(f, g, m, n - 1);
        crate::field::law_add(sum_upto(f, m), sum_upto(g, n - 1), g(n - 1));
    }
}

/// A sum over `rows * cols` indices, taken row by row.
pub proof fn lemma_sum_rows(
    f: spec_fn(int) -> F128,
    row: spec_fn(int) -> F128,
    rows: int,
    cols: int,
)
    requires
        0 <= rows,
        0 <= cols,
        forall|h: int|
            0 <= h < rows ==> #[trigger] row(h) == sum_upto(|l: int| f(h * cols + l), cols),
    ensures
        sum_upto(row, rows) == sum_upto(f, rows * cols),
    decreases rows,
{
    if rows > 0 {
        lemma_sum_rows(f, row, rows - 1, cols);
        let h = rows - 1;
        let last = |l: int| f(h * cols + l);
        assert(rows * cols == h * cols + cols && h * cols >= 0) by (nonlinear_arith)
            requires
                h == rows - 1,
                rows > 0,
                cols >= 0,
        ;
        lemma_sum_append(f, last, h * cols, cols);
        assert(row(h) == sum_upto(|l: int| f(h * cols + l), cols));
        lemma_sum_congruent(last, |l: int| f(h * cols + l), cols);
    } else {
        assert(rows * cols == 0) by (nonlinear_arith)
            requires
                rows == 0,
        ;
    }
}

// Equality weights.

/// The weight of a composed index is the product of the weights of its parts.
pub proof fn law_eq_weight_splits(point: Seq<F128>, k: int, hi: int, lo: int)
    requires
        0 <= k <= point.len(),
        0 <= lo < pow2(k as nat),
        0 <= hi,
    ensures
        eq_weight(point, hi * pow2(k as nat) + lo) == eq_weight(point.take(k), lo) * eq_weight(
            point.skip(k),
            hi,
        ),
    decreases k,
{
    if k == 0 {
        vstd::arithmetic::power2::lemma2_to64();
        assert(point.skip(0) =~= point);
        assert(hi * pow2(0) == hi) by (nonlinear_arith)
            requires
                pow2(0) == 1,
        ;
        crate::field::law_mul_units(eq_weight(point, hi));
    } else {
        lemma_pow2_unfold(k as nat);
        let p = pow2((k - 1) as nat) as int;
        let x = hi * pow2(k as nat) + lo;
        assert(hi * pow2(k as nat) == 2 * (hi * p)) by (nonlinear_arith)
            requires
                pow2(k as nat) == 2 * p,
        ;
        assert(x % 2 == lo % 2);
        assert(x / 2 == hi * p + lo / 2);
        let rest = point.skip(1);
        law_eq_weight_splits(rest, k - 1, hi, lo / 2);
        assert(rest.skip(k - 1) =~= point.skip(k));
        assert(rest.take(k - 1) =~= point.take(k).skip(1));
        assert(point.take(k)[0] == point[0]);
        let factor = if x % 2 == 1 { point[0] } else { F128::one() + point[0] };
        crate::field::law_mul_associates(
            factor,
            eq_weight(point.take(k).skip(1), lo / 2),
            eq_weight(point.skip(k), hi),
        );
    }
}

/// A power of two below the width of `usize` fits it.
pub proof fn lemma_power_fits(k: nat)
    requires
        k < usize::BITS,
    ensures
        pow2(k) <= usize::MAX,
{
    vstd::arithmetic::power2::lemma2_to64();
    vstd::arithmetic::power2::lemma2_to64_rest();
    if k < 31 {
        vstd::arithmetic::power2::lemma_pow2_strictly_increases(k, 31);
    }
    if 31 <= k < 63 {
        vstd::arithmetic::power2::lemma_pow2_strictly_increases(k, 63);
    }
}

/// `2^k`, for an exponent whose power fits.
pub fn power_of_two(k: usize) -> (n: usize)
    requires
        pow2(k as nat) <= usize::MAX,
    ensures
        n == pow2(k as nat),
        n >= 1,
{
    let mut n: usize = 1;
    let mut i: usize = 0;
    proof {
        vstd::arithmetic::power2::lemma2_to64();
    }
    while i < k
        invariant
            i <= k,
            n == pow2(i as nat),
            n >= 1,
            pow2(k as nat) <= usize::MAX,
        decreases k - i,
    {
        proof {
            lemma_pow2_unfold((i + 1) as nat);
            if i + 1 < k {
                vstd::arithmetic::power2::lemma_pow2_strictly_increases((i + 1) as nat, k as nat);
            }
        }
        n = 2 * n;
        i = i + 1;
    }
    n
}

/// The table of equality weights at `point`, one entry per index of the cube.
pub fn build_eq(point: &[F128]) -> (table: Vec<F128>)
    requires
        pow2(point@.len()) <= usize::MAX,
    ensures
        table@.len() == pow2(point@.len()),
        forall|x: int| 0 <= x < table@.len() ==> table@[x] == eq_weight(point@, x),
{
    let n = point.len();
    let mut table: Vec<F128> = Vec::new();
    table.push(F128::one());
    let mut j: usize = n;
    proof {
        vstd::arithmetic::power2::lemma2_to64();
        assert(point@.skip(n as int).len() == 0);
    }
    while j > 0
        invariant
            j <= n,
            n == point@.len(),
            pow2(n as nat) <= usize::MAX,
            table@.len() == pow2((n - j) as nat),
            forall|x: int|
                0 <= x < table@.len() ==> table@[x] == eq_weight(point@.skip(j as int), x),
        decreases j,
    {
        let p = point[j - 1];
        let q = F128::one() + p;
        let size = table.len();
        let ghost suffix = point@.skip(j - 1);
        proof {
            lemma_pow2_unfold((n - j + 1) as nat);
            if j > 1 {
                vstd::arithmetic::power2::lemma_pow2_strictly_increases(
                    (n - j + 1) as nat,
                    n as nat,
                );
            }
            assert(suffix.skip(1) =~= point@.skip(j as int));
            assert(suffix[0] == p);
        }
        let mut next: Vec<F128> = Vec::with_capacity(2 * size);
        let mut x: usize = 0;
        while x < size
            invariant
                x <= size,
                size == table@.len(),
                2 * size <= usize::MAX,
                next@.len() == 2 * x,
                suffix.len() >= 1,
                suffix[0] == p,
                q == F128::one() + p,
                forall|i: int| 0 <= i < size ==> table@[i] == eq_weight(suffix.skip(1), i),
                forall|i: int| 0 <= i < next@.len() ==> next@[i] == eq_weight(suffix, i),
            decreases size - x,
        {
            next.push(q * table[x]);
            next.push(p * table[x]);
            assert((2 * x) / 2 == x && (2 * x + 1) / 2 == x && (2 * x) % 2 == 0 && (2 * x + 1) % 2
                == 1);
            x = x + 1;
        }
        table = next;
        j = j - 1;
    }
    assert(point@.skip(0) =~= point@);
    table
}

/// Equality weights of a point kept as two factors: the low variables and the
/// high variables.
pub struct SplitEq {
    pub n_lo: usize,
    pub n_hi: usize,
    pub lo: Vec<F128>,
    pub hi: Vec<F128>,
}

impl SplitEq {
    /// The two tables factor the weights of `point`.
    pub open spec fn factors(&self, point: Seq<F128>) -> bool {
        &&& self.n_lo + self.n_hi == point.len()
        &&& self.lo@.len() == pow2(self.n_lo as nat)
        &&& self.hi@.len() == pow2(self.n_hi as nat)
        &&& forall|x: int|
            0 <= x < self.lo@.len() ==> self.lo@[x] == eq_weight(
                point.take(self.n_lo as int),
                x,
            )
        &&& forall|x: int|
            0 <= x < self.hi@.len() ==> self.hi@[x] == eq_weight(
                point.skip(self.n_lo as int),
                x,
            )
    }

    pub fn new(point: &[F128]) -> (eq: SplitEq)
        requires
            pow2(point@.len()) <= usize::MAX,
        ensures
            eq.factors(point@),
            eq.n_lo == point@.len() / 2,
    {
        let n = point.len();
        let n_lo = n / 2;
        let n_hi = n - n_lo;
        proof {
            lemma_pow2_adds(n_lo as nat, n_hi as nat);
            lemma_pow2_pos(n_lo as nat);
            lemma_pow2_pos(n_hi as nat);
            assert(pow2(n_lo as nat) <= pow2(n as nat) && pow2(n_hi as nat) <= pow2(n as nat))
                by (nonlinear_arith)
                requires
                    pow2(n as nat) == pow2(n_lo as nat) * pow2(n_hi as nat),
                    pow2(n_lo as nat) > 0,
                    pow2(n_hi as nat) > 0,
            ;
        }
        let low = vstd::slice::slice_subrange(point, 0, n_lo);
        let high = vstd::slice::slice_subrange(point, n_lo, n);
        assert(low@ =~= point@.take(n_lo as int));
        assert(high@ =~= point@.skip(n_lo as int));
        SplitEq { n_lo, n_hi, lo: build_eq(low), hi: build_eq(high) }
    }
}

/// A fold takes every pair to the point between its two elements that the challenge names: the
/// first at zero, the second at one.
pub proof fn law_fold_goes_between(plane: Seq<F128>, rho: F128, i: int)
    requires
        0 <= i < plane.len() / 2,
    ensures
        fold(plane, rho).len() == plane.len() / 2,
        fold(plane, rho)[i] == (F128::one() + rho) * plane[2 * i] + rho * plane[2 * i + 1],
        fold(plane, F128::zero())[i] == plane[2 * i],
        fold(plane, F128::one())[i] == plane[2 * i + 1],
{
    let (lo, hi) = (plane[2 * i], plane[2 * i + 1]);
    crate::field::law_mul_distributes(lo, F128::one(), rho);
    crate::field::law_mul_distributes(rho, lo, hi);
    crate::field::law_mul_units(lo);
    crate::field::law_add(lo, rho * lo, rho * hi);
    crate::field::law_mul_units(lo + hi);
    crate::field::law_add(lo, F128::zero(), F128::zero());
    crate::field::law_add(lo, lo, hi);
    crate::field::law_add(hi, F128::zero(), F128::zero());
    crate::field::law_add(F128::zero(), hi, hi);
}

/// The corner of the cube with number `y`: coordinate `i` is bit `i` of the number.
pub open spec fn corner(y: int, n: nat) -> Seq<F128>
    decreases n,
{
    if n == 0 {
        Seq::empty()
    } else {
        seq![
            if y % 2 == 1 {
                F128::one()
            } else {
                F128::zero()
            },
        ] + corner(y / 2, (n - 1) as nat)
    }
}

/// Equality weights tell corners apart: the weight of `x` at corner `y` is one if they are the
/// same, and zero otherwise.
pub proof fn law_eq_weight_at_corners(x: int, y: int, n: nat)
    requires
        0 <= x < pow2(n),
        0 <= y < pow2(n),
    ensures
        corner(y, n).len() == n,
        eq_weight(corner(y, n), x) == (if x == y {
            F128::one()
        } else {
            F128::zero()
        }),
    decreases n,
{
    vstd::arithmetic::power2::lemma2_to64();
    if n > 0 {
        vstd::arithmetic::power2::lemma_pow2_unfold(n);
        law_eq_weight_at_corners(x / 2, y / 2, (n - 1) as nat);
        let point = corner(y, n);
        let rest = corner(y / 2, (n - 1) as nat);
        assert(point.skip(1) =~= rest);
        let w = eq_weight(rest, x / 2);
        crate::field::law_mul_units(w);
        crate::field::law_mul_units(F128::one());
        crate::field::law_add(F128::one(), F128::one(), F128::zero());
        assert((x == y) == (x / 2 == y / 2 && x % 2 == y % 2));
    }
}

} // verus!
