//! The univariate-skip fold: every packed row of 64 bits becomes one element, and
//! the first multilinear round message comes with it.
use crate::field::F128;
use crate::multilinear::{
    build_eq, eq_weight, inf_terms, lemma_power_fits, one_terms, power_of_two, round_message,
    sum_upto, SplitEq,
};
use crate::padding::{bit_of, dense_spec, law_dense_skips_nothing, PaddingSpec, K_SKIP};
use crate::rounds::{lemma_split_sum, odd_products, row_terms, split_rows, sum_products};
use crate::unreduced::{law_reduction_is_additive, reduced, F256Unreduced};
use vstd::arithmetic::power2::{lemma_pow2_adds, lemma_pow2_pos, pow2};
use vstd::prelude::*;

verus! {

/// Byte-indexed lookup tables for folding a row: one table of 256 entries for
/// each of the eight bytes.
pub struct UniSkipFoldTable {
    pub n_chunks: usize,
    pub data: Vec<F128>,
}

/// The summands of a folded row.
pub open spec fn lookup_terms(data: Seq<F128>, plane: Seq<u8>, row: int) -> spec_fn(int) -> F128 {
    |c: int| data[256 * c + plane[8 * row + c]]
}

/// Row `row` of `plane` folded through the tables.
pub open spec fn row_fold(data: Seq<F128>, plane: Seq<u8>, row: int) -> F128 {
    sum_upto(lookup_terms(data, plane, row), 8)
}

/// The folded plane: one element per row, zero where the row pair is padding.
pub open spec fn folded_plane(
    data: Seq<F128>,
    plane: Seq<u8>,
    padding: PaddingSpec,
) -> Seq<F128> {
    Seq::new(
        (plane.len() / 8) as nat,
        |i: int|
            if padding.pair_is_useful(i / 2) {
                row_fold(data, plane, i)
            } else {
                F128::zero()
            },
    )
}

/// The summands of the entry for `byte` in the table of byte position `c`.
pub open spec fn weight_terms(weights: Seq<F128>, c: int, byte: u8) -> spec_fn(int) -> F128 {
    |b: int|
        if bit_of(byte, b) {
            weights[8 * c + b]
        } else {
            F128::zero()
        }
}

impl UniSkipFoldTable {
    pub open spec fn wf(&self) -> bool {
        &&& self.n_chunks == 8
        &&& self.data@.len() == 2048
    }

    /// The tables that fold a row to the sum of the weights of its set bits.
    pub open spec fn sums_weights(&self, weights: Seq<F128>) -> bool {
        &&& self.wf()
        &&& forall|c: int, v: int|
            #![trigger self.data@[256 * c + v]]
            0 <= c < 8 && 0 <= v < 256 ==> self.data@[256 * c + v] == sum_upto(
                weight_terms(weights, c, v as u8),
                8,
            )
    }

    /// Builds the tables for 64 bit weights.
    pub fn from_weights(weights: &[F128]) -> (table: UniSkipFoldTable)
        requires
            weights@.len() == 64,
        ensures
            table.sums_weights(weights@),
    {
        let mut data: Vec<F128> = Vec::with_capacity(2048);
        let mut c: usize = 0;
        while c < 8
            invariant
                c <= 8,
                weights@.len() == 64,
                data@.len() == 256 * c,
                forall|d: int, v: int|
                    #![trigger data@[256 * d + v]]
                    0 <= d < c && 0 <= v < 256 ==> data@[256 * d + v] == sum_upto(
                        weight_terms(weights@, d, v as u8),
                        8,
                    ),
            decreases 8 - c,
        {
            let mut v: usize = 0;
            while v < 256
                invariant
                    c < 8,
                    v <= 256,
                    weights@.len() == 64,
                    data@.len() == 256 * c + v,
                    forall|d: int, w: int|
                        #![trigger data@[256 * d + w]]
                        0 <= d <= c && 0 <= w < 256 && (d < c || w < v) ==> data@[256 * d + w]
                            == sum_upto(weight_terms(weights@, d, w as u8), 8),
                decreases 256 - v,
            {
                let byte = v as u8;
                let mut entry = F128::zero();
                let mut b: usize = 0;
                while b < 8
                    invariant
                        c < 8,
                        b <= 8,
                        weights@.len() == 64,
                        entry == sum_upto(weight_terms(weights@, c as int, byte), b as int),
                    decreases 8 - b,
                {
                    if (byte >> (b as u8)) & 1u8 == 1u8 {
                        entry = entry + weights[8 * c + b];
                    } else {
                        proof {
                            crate::field::law_add(entry, F128::zero(), F128::zero());
                        }
                    }
                    b = b + 1;
                }
                data.push(entry);
                v = v + 1;
            }
            c = c + 1;
        }
        UniSkipFoldTable { n_chunks: 8, data }
    }

    /// Folds one row of a packed plane.
    pub fn fold_one_row(&self, plane: &[u8], row: usize) -> (value: F128)
        requires
            self.wf(),
            8 * row + 8 <= plane@.len(),
        ensures
            value == row_fold(self.data@, plane@, row as int),
    {
        let len = plane.len();
        let mut value = F128::zero();
        let mut c: usize = 0;
        while c < 8
            invariant
                c <= 8,
                self.wf(),
                8 * row + 8 <= len,
                len == plane@.len(),
                value == sum_upto(lookup_terms(self.data@, plane@, row as int), c as int),
            decreases 8 - c,
        {
            let byte = plane[8 * row + c];
            value = value + self.data[256 * c + byte as usize];
            c = c + 1;
        }
        value
    }
}

/// The shapes that the fold accepts: two planes of `2^m` bits, tables for rows of
/// 64 bits, one challenge per remaining variable, and a fitting block geometry.
pub open spec fn fold_shape(
    a_packed: Seq<u8>,
    b_packed: Seq<u8>,
    m: usize,
    k_skip: usize,
    table: UniSkipFoldTable,
    challenges: Seq<F128>,
    padding: PaddingSpec,
) -> bool {
    &&& k_skip == K_SKIP
    &&& m >= 7
    &&& table.wf()
    &&& pow2(m as nat) <= usize::MAX
    &&& a_packed.len() == 8 * pow2((m - K_SKIP) as nat)
    &&& b_packed.len() == a_packed.len()
    &&& challenges.len() == m - K_SKIP
    &&& padding.valid(m as nat)
}

/// One chunk of the fold: the rows that share a high equality weight, and their
/// share of the message.
pub struct FoldedChunk {
    pub a: Vec<F128>,
    pub b: Vec<F128>,
    pub one: F128,
    pub inf: F128,
}

proof fn lemma_zero_pair(a: Seq<F128>, b: Seq<F128>, w: F128, p: int)
    requires
        a[2 * p] == F128::zero(),
        a[2 * p + 1] == F128::zero(),
        b[2 * p] == F128::zero(),
        b[2 * p + 1] == F128::zero(),
    ensures
        w * odd_products(a, b)(p) == F128::zero(),
        w * sum_products(a, b)(p) == F128::zero(),
{
    crate::field::law_add(F128::zero(), F128::zero(), F128::zero());
    crate::field::law_mul_units(F128::zero());
    crate::field::law_mul_units(w);
}

/// Chunk `x` of a fold: its rows of both folded planes, and its shares of the
/// message.
pub open spec fn is_chunk(
    chunk: FoldedChunk,
    a_packed: Seq<u8>,
    b_packed: Seq<u8>,
    table: UniSkipFoldTable,
    eq: SplitEq,
    padding: PaddingSpec,
    x: int,
) -> bool {
    let a_plane = folded_plane(table.data@, a_packed, padding);
    let b_plane = folded_plane(table.data@, b_packed, padding);
    let size = 2 * eq.lo@.len();
    &&& chunk.a@ == a_plane.subrange(x * size, x * size + size)
    &&& chunk.b@ == b_plane.subrange(x * size, x * size + size)
    &&& chunk.one == split_rows(eq.lo@, eq.hi@, odd_products(a_plane, b_plane))(x)
    &&& chunk.inf == split_rows(eq.lo@, eq.hi@, sum_products(a_plane, b_plane))(x)
}

/// Folds the rows of chunk `x_hi`. Chunks are independent of each other.
pub fn fold_chunk(
    a_packed: &[u8],
    b_packed: &[u8],
    table: &UniSkipFoldTable,
    eq: &SplitEq,
    padding: &PaddingSpec,
    x_hi: usize,
) -> (chunk: FoldedChunk)
    requires
        table.wf(),
        padding.k_log >= 7,
        pow2(padding.k_log as nat) <= usize::MAX,
        x_hi < eq.hi@.len(),
        a_packed@.len() == 16 * (eq.lo@.len() * eq.hi@.len()),
        b_packed@.len() == a_packed@.len(),
    ensures
        is_chunk(chunk, a_packed@, b_packed@, *table, *eq, *padding, x_hi as int),
{
    let ghost a_plane = folded_plane(table.data@, a_packed@, *padding);
    let ghost b_plane = folded_plane(table.data@, b_packed@, *padding);
    let ghost odd = odd_products(a_plane, b_plane);
    let ghost sums = sum_products(a_plane, b_plane);
    let len = a_packed.len();
    let cols = eq.lo.len();
    let (period, useful) = padding.round2_pair_skip();
    assert(x_hi * cols >= 0 && x_hi * cols + cols <= cols * eq.hi@.len()) by (nonlinear_arith)
        requires
            x_hi + 1 <= eq.hi@.len(),
            cols >= 0,
            x_hi >= 0,
    ;
    assert(x_hi * (2 * cols) == 2 * (x_hi * cols)) by (nonlinear_arith);
    let base = x_hi * cols;
    let mut a_out: Vec<F128> = Vec::with_capacity(2 * cols);
    let mut b_out: Vec<F128> = Vec::with_capacity(2 * cols);
    let mut one = F256Unreduced::zero();
    let mut inf = F256Unreduced::zero();
    let mut x_lo: usize = 0;
    while x_lo < cols
        invariant
            x_lo <= cols,
            cols == eq.lo@.len(),
            base == x_hi * cols,
            16 * (base + cols) <= len,
            len == a_packed@.len(),
            b_packed@.len() == len,
            table.wf(),
            period >= 1,
            forall|pair: int|
                0 <= pair ==> (pair % (period as int) < useful)
                    == #[trigger] padding.pair_is_useful(pair),
            a_plane == folded_plane(table.data@, a_packed@, *padding),
            b_plane == folded_plane(table.data@, b_packed@, *padding),
            odd == odd_products(a_plane, b_plane),
            sums == sum_products(a_plane, b_plane),
            a_out@.len() == 2 * x_lo,
            b_out@.len() == 2 * x_lo,
            forall|i: int| 0 <= i < 2 * x_lo ==> a_out@[i] == a_plane[2 * base + i],
            forall|i: int| 0 <= i < 2 * x_lo ==> b_out@[i] == b_plane[2 * base + i],
            reduced(one) == sum_upto(row_terms(eq.lo@, odd, x_hi as int, cols as int), x_lo as int),
            reduced(inf) == sum_upto(
                row_terms(eq.lo@, sums, x_hi as int, cols as int),
                x_lo as int,
            ),
        decreases cols - x_lo,
    {
        let pair = base + x_lo;
        let x0 = 2 * pair;
        let x1 = x0 + 1;
        assert(x0 as int / 2 == pair && x1 as int / 2 == pair);
        let ghost k = pair as int;
        assert(padding.pair_is_useful(k) == (k % (period as int) < useful));
        if pair % period >= useful {
            a_out.push(F128::zero());
            a_out.push(F128::zero());
            b_out.push(F128::zero());
            b_out.push(F128::zero());
            proof {
                lemma_zero_pair(a_plane, b_plane, eq.lo@[x_lo as int], k);
                crate::field::law_add(reduced(one), F128::zero(), F128::zero());
                crate::field::law_add(reduced(inf), F128::zero(), F128::zero());
            }
        } else {
            let a0 = table.fold_one_row(a_packed, x0);
            let b0 = table.fold_one_row(b_packed, x0);
            let a1 = table.fold_one_row(a_packed, x1);
            let b1 = table.fold_one_row(b_packed, x1);
            a_out.push(a0);
            a_out.push(a1);
            b_out.push(b0);
            b_out.push(b1);
            assert(a0 == a_plane[2 * k] && a1 == a_plane[2 * k + 1]);
            assert(b0 == b_plane[2 * k] && b1 == b_plane[2 * k + 1]);
            let weight = eq.lo[x_lo];
            let g_one = weight.mul_unreduced(a1 * b1);
            let g_inf = weight.mul_unreduced((a0 + a1) * (b0 + b1));
            proof {
                law_reduction_is_additive(one, g_one);
                law_reduction_is_additive(inf, g_inf);
            }
            one = one.plus(g_one);
            inf = inf.plus(g_inf);
        }
        x_lo = x_lo + 1;
    }
    let one = eq.hi[x_hi] * one.reduce();
    let inf = eq.hi[x_hi] * inf.reduce();
    assert(a_out@ =~= a_plane.subrange(2 * base, 2 * base + 2 * cols));
    assert(b_out@ =~= b_plane.subrange(2 * base, 2 * base + 2 * cols));
    FoldedChunk { a: a_out, b: b_out, one, inf }
}

/// The A rows of the first `k` chunks, one chunk after the other.
pub open spec fn joined_a(chunks: Seq<FoldedChunk>, k: int) -> Seq<F128>
    decreases k,
{
    if k <= 0 {
        Seq::empty()
    } else {
        joined_a(chunks, k - 1) + chunks[k - 1].a@
    }
}

/// The B rows of the first `k` chunks, one chunk after the other.
pub open spec fn joined_b(chunks: Seq<FoldedChunk>, k: int) -> Seq<F128>
    decreases k,
{
    if k <= 0 {
        Seq::empty()
    } else {
        joined_b(chunks, k - 1) + chunks[k - 1].b@
    }
}

/// The shares of the value at one.
pub open spec fn one_shares(chunks: Seq<FoldedChunk>) -> spec_fn(int) -> F128 {
    |i: int| chunks[i].one
}

/// The shares of the leading coefficient.
pub open spec fn inf_shares(chunks: Seq<FoldedChunk>) -> spec_fn(int) -> F128 {
    |i: int| chunks[i].inf
}

/// Puts the chunks together: both planes, and the message with the equality factor
/// of the first variable.
pub fn join_chunks(chunks: Vec<FoldedChunk>, first: F128) -> (r: (
    Vec<F128>,
    Vec<F128>,
    F128,
    F128,
))
    ensures
        r.0@ == joined_a(chunks@, chunks@.len() as int),
        r.1@ == joined_b(chunks@, chunks@.len() as int),
        r.2 == first * sum_upto(one_shares(chunks@), chunks@.len() as int),
        r.3 == sum_upto(inf_shares(chunks@), chunks@.len() as int),
{
    let mut a_folded: Vec<F128> = Vec::new();
    let mut b_folded: Vec<F128> = Vec::new();
    let mut sum1 = F128::zero();
    let mut sum_inf = F128::zero();
    let mut i: usize = 0;
    while i < chunks.len()
        invariant
            i <= chunks@.len(),
            a_folded@ == joined_a(chunks@, i as int),
            b_folded@ == joined_b(chunks@, i as int),
            sum1 == sum_upto(one_shares(chunks@), i as int),
            sum_inf == sum_upto(inf_shares(chunks@), i as int),
        decreases chunks@.len() - i,
    {
        a_folded.extend_from_slice(chunks[i].a.as_slice());
        b_folded.extend_from_slice(chunks[i].b.as_slice());
        sum1 = sum1 + chunks[i].one;
        sum_inf = sum_inf + chunks[i].inf;
        i = i + 1;
    }
    (a_folded, b_folded, first * sum1, sum_inf)
}

proof fn lemma_joined_planes(
    chunks: Seq<FoldedChunk>,
    a_plane: Seq<F128>,
    b_plane: Seq<F128>,
    size: int,
    k: int,
)
    requires
        0 <= size,
        0 <= k <= chunks.len(),
        k * size <= a_plane.len(),
        k * size <= b_plane.len(),
        forall|i: int|
            0 <= i < k ==> (#[trigger] chunks[i]).a@ == a_plane.subrange(
                i * size,
                i * size + size,
            ),
        forall|i: int|
            0 <= i < k ==> (#[trigger] chunks[i]).b@ == b_plane.subrange(
                i * size,
                i * size + size,
            ),
    ensures
        joined_a(chunks, k) == a_plane.subrange(0, k * size),
        joined_b(chunks, k) == b_plane.subrange(0, k * size),
    decreases k,
{
    if k == 0 {
        assert(0 * size == 0) by (nonlinear_arith);
        assert(a_plane.subrange(0, 0) =~= Seq::empty());
        assert(b_plane.subrange(0, 0) =~= Seq::empty());
    } else {
        let i = k - 1;
        assert(i * size + size == k * size && 0 <= i * size) by (nonlinear_arith)
            requires
                i == k - 1,
                0 <= i,
                0 <= size,
        ;
        lemma_joined_planes(chunks, a_plane, b_plane, size, i);
        assert(a_plane.subrange(0, i * size) + a_plane.subrange(i * size, i * size + size)
            =~= a_plane.subrange(0, k * size));
        assert(b_plane.subrange(0, i * size) + b_plane.subrange(i * size, i * size + size)
            =~= b_plane.subrange(0, k * size));
    }
}

/// The chunks of a fold put together are the folded planes and the round message, in
/// whatever order the chunks were computed.
pub proof fn law_chunks_make_the_fold(
    chunks: Seq<FoldedChunk>,
    a_packed: Seq<u8>,
    b_packed: Seq<u8>,
    m: usize,
    table: UniSkipFoldTable,
    challenges: Seq<F128>,
    padding: PaddingSpec,
    eq: SplitEq,
)
    requires
        fold_shape(a_packed, b_packed, m, K_SKIP, table, challenges, padding),
        eq.factors(challenges.skip(1)),
        chunks.len() == eq.hi@.len(),
        forall|x: int|
            0 <= x < chunks.len() ==> #[trigger] is_chunk(
                chunks[x],
                a_packed,
                b_packed,
                table,
                eq,
                padding,
                x,
            ),
    ensures
        ({
            let a_plane = folded_plane(table.data@, a_packed, padding);
            let b_plane = folded_plane(table.data@, b_packed, padding);
            let k = chunks.len() as int;
            &&& joined_a(chunks, k) == a_plane
            &&& joined_b(chunks, k) == b_plane
            &&& (
                challenges[0] * sum_upto(one_shares(chunks), k),
                sum_upto(inf_shares(chunks), k),
            ) == round_message(a_plane, b_plane, challenges)
        }),
{
    let rest = challenges.skip(1);
    let a_plane = folded_plane(table.data@, a_packed, padding);
    let b_plane = folded_plane(table.data@, b_packed, padding);
    let odd = odd_products(a_plane, b_plane);
    let sums = sum_products(a_plane, b_plane);
    let k = chunks.len() as int;
    let cols = eq.lo@.len() as int;
    let size = 2 * cols;
    vstd::arithmetic::power2::lemma_pow2_unfold((m - K_SKIP) as nat);
    lemma_pow2_adds(eq.n_lo as nat, eq.n_hi as nat);
    assert(k * size == 2 * (cols * k)) by (nonlinear_arith)
        requires
            size == 2 * cols,
    ;
    assert forall|i: int| 0 <= i < k implies (#[trigger] chunks[i]).a@ == a_plane.subrange(
        i * size,
        i * size + size,
    ) && chunks[i].b@ == b_plane.subrange(i * size, i * size + size) && chunks[i].one == split_rows(
        eq.lo@,
        eq.hi@,
        odd,
    )(i) && chunks[i].inf == split_rows(eq.lo@, eq.hi@, sums)(i) by {
        assert(is_chunk(chunks[i], a_packed, b_packed, table, eq, padding, i));
    }
    lemma_joined_planes(chunks, a_plane, b_plane, size, k);
    assert(a_plane.subrange(0, k * size) =~= a_plane);
    assert(b_plane.subrange(0, k * size) =~= b_plane);
    lemma_split_sum(eq, rest, odd, one_terms(a_plane, b_plane, rest));
    lemma_split_sum(eq, rest, sums, inf_terms(a_plane, b_plane, rest));
    crate::multilinear::lemma_sum_congruent(
        one_shares(chunks),
        split_rows(eq.lo@, eq.hi@, odd),
        k,
    );
    crate::multilinear::lemma_sum_congruent(
        inf_shares(chunks),
        split_rows(eq.lo@, eq.hi@, sums),
        k,
    );
}

/// The fold taken chunk by chunk: both folded planes and the message
/// `(challenges[0] * G(1), G(infinity))`.
pub fn univariate_fold_oracle(
    a_packed: &[u8],
    b_packed: &[u8],
    m: usize,
    k_skip: usize,
    table: &UniSkipFoldTable,
    mlv_challenges: &[F128],
    padding: &PaddingSpec,
) -> (r: (Vec<F128>, Vec<F128>, F128, F128))
    requires
        fold_shape(a_packed@, b_packed@, m, k_skip, *table, mlv_challenges@, *padding),
    ensures
        r.0@ == folded_plane(table.data@, a_packed@, *padding),
        r.1@ == folded_plane(table.data@, b_packed@, *padding),
        (r.2, r.3) == round_message(r.0@, r.1@, mlv_challenges@),
{
    let rest = vstd::slice::slice_subrange(mlv_challenges, 1, mlv_challenges.len());
    assert(rest@ =~= mlv_challenges@.skip(1));
    let len = a_packed.len();
    proof {
        vstd::arithmetic::power2::lemma_pow2_unfold((m - K_SKIP) as nat);
        lemma_padding_fits(*padding, m as nat);
    }
    let eq = SplitEq::new(rest);
    proof {
        lemma_pow2_adds(eq.n_lo as nat, eq.n_hi as nat);
    }
    let rows = eq.hi.len();
    let mut chunks: Vec<FoldedChunk> = Vec::new();
    let mut x_hi: usize = 0;
    while x_hi < rows
        invariant
            x_hi <= rows,
            rows == eq.hi@.len(),
            a_packed@.len() == 16 * (eq.lo@.len() * eq.hi@.len()),
            b_packed@.len() == a_packed@.len(),
            table.wf(),
            padding.k_log >= 7,
            pow2(padding.k_log as nat) <= usize::MAX,
            chunks@.len() == x_hi,
            forall|x: int|
                0 <= x < x_hi ==> #[trigger] is_chunk(
                    chunks@[x],
                    a_packed@,
                    b_packed@,
                    *table,
                    eq,
                    *padding,
                    x,
                ),
        decreases rows - x_hi,
    {
        let ghost before = chunks@;
        chunks.push(fold_chunk(a_packed, b_packed, table, &eq, padding, x_hi));
        assert forall|x: int| 0 <= x < x_hi + 1 implies #[trigger] is_chunk(
            chunks@[x],
            a_packed@,
            b_packed@,
            *table,
            eq,
            *padding,
            x,
        ) by {
            if x < x_hi {
                assert(is_chunk(before[x], a_packed@, b_packed@, *table, eq, *padding, x));
            }
        }
        x_hi = x_hi + 1;
    }
    proof {
        law_chunks_make_the_fold(
            chunks@,
            a_packed@,
            b_packed@,
            m,
            *table,
            mlv_challenges@,
            *padding,
            eq,
        );
    }
    join_chunks(chunks, mlv_challenges[0])
}

/// Decides `fold_shape`.
pub fn fold_shape_admitted(
    a_packed: &[u8],
    b_packed: &[u8],
    m: usize,
    k_skip: usize,
    table: &UniSkipFoldTable,
    mlv_challenges: &[F128],
    padding: &PaddingSpec,
) -> (yes: bool)
    ensures
        yes == fold_shape(
            a_packed@,
            b_packed@,
            m,
            k_skip,
            *table,
            mlv_challenges@,
            *padding,
        ),
{
    if k_skip != K_SKIP || m < 7 || m >= usize::BITS as usize {
        proof {
            if m >= usize::BITS {
                lemma_too_large(m as nat);
            }
        }
        return false;
    }
    proof {
        lemma_power_fits(m as nat);
    }
    if table.n_chunks != 8 || table.data.len() != 2048 {
        return false;
    }
    proof {
        lemma_pow2_adds((m - K_SKIP) as nat, 6);
        vstd::arithmetic::power2::lemma2_to64();
    }
    let bytes = power_of_two(m) / 8;
    if a_packed.len() != bytes || b_packed.len() != bytes || mlv_challenges.len() != m - K_SKIP {
        return false;
    }
    if padding.k_log < 7 || padding.k_log > m {
        return false;
    }
    proof {
        lemma_power_fits(padding.k_log as nat);
    }
    padding.useful_bits_per_block <= power_of_two(padding.k_log)
}

proof fn lemma_too_large(k: nat)
    requires
        k >= usize::BITS,
    ensures
        pow2(k) > usize::MAX,
{
    vstd::arithmetic::power2::lemma2_to64();
    vstd::arithmetic::power2::lemma2_to64_rest();
    if usize::BITS == 32 {
        if k > 32 {
            vstd::arithmetic::power2::lemma_pow2_strictly_increases(32, k);
        }
    } else {
        if k > 64 {
            vstd::arithmetic::power2::lemma_pow2_strictly_increases(64, k);
        }
    }
}

proof fn lemma_padding_fits(padding: PaddingSpec, m: nat)
    requires
        padding.valid(m),
        pow2(m) <= usize::MAX,
    ensures
        pow2(padding.k_log as nat) <= usize::MAX,
{
    if padding.k_log < m {
        vstd::arithmetic::power2::lemma_pow2_strictly_increases(padding.k_log as nat, m);
    }
}

/// The fold into buffers of the caller: every slot is written, whatever it held
/// before.
pub fn uni_skip_fold_and_round_pair_optimized_packed_padded_into(
    a_packed: &[u8],
    b_packed: &[u8],
    m: usize,
    k_skip: usize,
    table: &UniSkipFoldTable,
    mlv_challenges: &[F128],
    padding: &PaddingSpec,
    a_out: &mut Vec<F128>,
    b_out: &mut Vec<F128>,
) -> (message: (F128, F128))
    requires
        fold_shape(a_packed@, b_packed@, m, k_skip, *table, mlv_challenges@, *padding),
        old(a_out)@.len() == pow2((m - K_SKIP) as nat),
        old(b_out)@.len() == pow2((m - K_SKIP) as nat),
    ensures
        final(a_out)@ == folded_plane(table.data@, a_packed@, *padding),
        final(b_out)@ == folded_plane(table.data@, b_packed@, *padding),
        message == round_message(final(a_out)@, final(b_out)@, mlv_challenges@),
{
    let rest = vstd::slice::slice_subrange(mlv_challenges, 1, mlv_challenges.len());
    assert(rest@ =~= mlv_challenges@.skip(1));
    let len = a_packed.len();
    let ghost a_plane = folded_plane(table.data@, a_packed@, *padding);
    let ghost b_plane = folded_plane(table.data@, b_packed@, *padding);
    proof {
        vstd::arithmetic::power2::lemma_pow2_unfold((m - K_SKIP) as nat);
        lemma_padding_fits(*padding, m as nat);
    }
    let eq = build_eq(rest);
    let pairs = eq.len();
    let (period, useful) = padding.round2_pair_skip();
    let mut one = F128::zero();
    let mut inf = F128::zero();
    let mut pair: usize = 0;
    while pair < pairs
        invariant
            pair <= pairs,
            pairs == eq@.len(),
            16 * pairs == len,
            len == a_packed@.len(),
            b_packed@.len() == len,
            table.wf(),
            period >= 1,
            forall|p: int|
                0 <= p ==> (p % (period as int) < useful) == #[trigger] padding.pair_is_useful(p),
            a_plane == folded_plane(table.data@, a_packed@, *padding),
            b_plane == folded_plane(table.data@, b_packed@, *padding),
            forall|x: int| 0 <= x < pairs ==> eq@[x] == eq_weight(rest@, x),
            a_out@.len() == 2 * pairs,
            b_out@.len() == 2 * pairs,
            forall|i: int| 0 <= i < 2 * pair ==> a_out@[i] == a_plane[i],
            forall|i: int| 0 <= i < 2 * pair ==> b_out@[i] == b_plane[i],
            one == sum_upto(one_terms(a_plane, b_plane, rest@), pair as int),
            inf == sum_upto(inf_terms(a_plane, b_plane, rest@), pair as int),
        decreases pairs - pair,
    {
        let x0 = 2 * pair;
        let x1 = x0 + 1;
        assert(x0 as int / 2 == pair && x1 as int / 2 == pair);
        let ghost k = pair as int;
        assert(padding.pair_is_useful(k) == (k % (period as int) < useful));
        if pair % period >= useful {
            a_out.set(x0, F128::zero());
            a_out.set(x1, F128::zero());
            b_out.set(x0, F128::zero());
            b_out.set(x1, F128::zero());
            proof {
                lemma_zero_pair(a_plane, b_plane, eq@[k], k);
                crate::field::law_add(one, F128::zero(), F128::zero());
                crate::field::law_add(inf, F128::zero(), F128::zero());
            }
        } else {
            let a0 = table.fold_one_row(a_packed, x0);
            let b0 = table.fold_one_row(b_packed, x0);
            let a1 = table.fold_one_row(a_packed, x1);
            let b1 = table.fold_one_row(b_packed, x1);
            a_out.set(x0, a0);
            a_out.set(x1, a1);
            b_out.set(x0, b0);
            b_out.set(x1, b1);
            assert(a0 == a_plane[2 * k] && a1 == a_plane[2 * k + 1]);
            assert(b0 == b_plane[2 * k] && b1 == b_plane[2 * k + 1]);
            one = one + eq[pair] * (a1 * b1);
            inf = inf + eq[pair] * ((a0 + a1) * (b0 + b1));
        }
        pair = pair + 1;
    }
    assert(a_out@ =~= a_plane);
    assert(b_out@ =~= b_plane);
    (mlv_challenges[0] * one, inf)
}

/// The fold into fresh buffers.
pub fn uni_skip_fold_and_round_pair_optimized_packed_padded(
    a_packed: &[u8],
    b_packed: &[u8],
    m: usize,
    k_skip: usize,
    table: &UniSkipFoldTable,
    mlv_challenges: &[F128],
    padding: &PaddingSpec,
) -> (r: (Vec<F128>, Vec<F128>, F128, F128))
    requires
        fold_shape(a_packed@, b_packed@, m, k_skip, *table, mlv_challenges@, *padding),
    ensures
        r.0@ == folded_plane(table.data@, a_packed@, *padding),
        r.1@ == folded_plane(table.data@, b_packed@, *padding),
        (r.2, r.3) == round_message(r.0@, r.1@, mlv_challenges@),
{
    let len = a_packed.len();
    let rows = len / 8;
    let mut a: Vec<F128> = vec![F128::zero(); rows];
    let mut b: Vec<F128> = vec![F128::zero(); rows];
    let (one, inf) = uni_skip_fold_and_round_pair_optimized_packed_padded_into(
        a_packed,
        b_packed,
        m,
        k_skip,
        table,
        mlv_challenges,
        padding,
        &mut a,
        &mut b,
    );
    (a, b, one, inf)
}

/// The weight of bit `i` of a row if that bit is set, zero otherwise.
pub open spec fn bit_terms(weights: Seq<F128>, plane: Seq<u8>, row: int) -> spec_fn(int) -> F128 {
    |i: int|
        if bit_of(plane[8 * row + i / 8], i % 8) {
            weights[i]
        } else {
            F128::zero()
        }
}

/// Tables built from bit weights fold a row to the weighted sum of its bits.
pub proof fn law_row_fold_is_weighted_bit_sum(
    table: UniSkipFoldTable,
    weights: Seq<F128>,
    plane: Seq<u8>,
    row: int,
)
    requires
        table.sums_weights(weights),
        weights.len() == 64,
        0 <= row,
        8 * row + 8 <= plane.len(),
    ensures
        row_fold(table.data@, plane, row) == sum_upto(bit_terms(weights, plane, row), 64),
{
    let bytes = lookup_terms(table.data@, plane, row);
    let bits = bit_terms(weights, plane, row);
    assert forall|c: int| 0 <= c < 8 implies #[trigger] bytes(c) == sum_upto(
        |l: int| bits(c * 8 + l),
        8,
    ) by {
        let byte = plane[8 * row + c];
        assert(bytes(c) == table.data@[256 * c + byte as int]);
        let terms = weight_terms(weights, c, byte);
        let other = |l: int| bits(c * 8 + l);
        assert forall|b: int| 0 <= b < 8 implies #[trigger] terms(b) == other(b) by {
            assert((c * 8 + b) / 8 == c && (c * 8 + b) % 8 == b);
        }
        crate::multilinear::lemma_sum_congruent(terms, other, 8);
    }
    crate::multilinear::lemma_sum_rows(bits, bytes, 8, 8);
}

proof fn lemma_byte_without_bits(byte: u8)
    requires
        forall|i: int| 0 <= i < 8 ==> !#[trigger] bit_of(byte, i),
    ensures
        byte == 0,
{
    assert(!bit_of(byte, 0) && !bit_of(byte, 1) && !bit_of(byte, 2) && !bit_of(byte, 3) && !bit_of(
        byte,
        4,
    ) && !bit_of(byte, 5) && !bit_of(byte, 6) && !bit_of(byte, 7));
    assert((byte >> 0u8) & 1 == 1 || (byte >> 1u8) & 1 == 1 || (byte >> 2u8) & 1 == 1 || (byte
        >> 3u8) & 1 == 1 || (byte >> 4u8) & 1 == 1 || (byte >> 5u8) & 1 == 1 || (byte >> 6u8) & 1
        == 1 || (byte >> 7u8) & 1 == 1 || byte == 0) by (bit_vector);
}

/// Skipping padding is sound: on a plane whose padding bits are zero, and with
/// tables that send the zero byte to zero, a row in a skipped pair folds to zero
/// as well, so the skip pattern does not show in the result.
pub proof fn law_padding_skip_is_transparent(
    data: Seq<F128>,
    plane: Seq<u8>,
    padding: PaddingSpec,
    row: int,
)
    requires
        padding.k_log >= 7,
        padding.zero_padded(plane),
        forall|c: int| 0 <= c < 8 ==> #[trigger] data[256 * c] == F128::zero(),
        0 <= row < plane.len() / 8,
    ensures
        folded_plane(data, plane, padding)[row] == row_fold(data, plane, row),
{
    let pair = row / 2;
    if !padding.pair_is_useful(pair) {
        let period = padding.pairs_per_block();
        lemma_pow2_adds((padding.k_log - 7) as nat, 7);
        lemma_pow2_pos((padding.k_log - 7) as nat);
        vstd::arithmetic::power2::lemma2_to64();
        let block = pow2(padding.k_log as nat) as int;
        assert(block == 128 * period);
        let q = pair % period;
        let d = pair / period;
        vstd::arithmetic::div_mod::lemma_fundamental_div_mod(pair, period);
        assert forall|c: int| 0 <= c < 8 implies #[trigger] lookup_terms(data, plane, row)(c)
            == F128::zero() by {
            let byte = plane[8 * row + c];
            assert forall|i: int| 0 <= i < 8 implies !#[trigger] bit_of(byte, i) by {
                let x = 8 * (8 * row + c) + i;
                let t = x - 128 * pair;
                assert(0 <= t < 128);
                assert(x == block * d + (128 * q + t)) by (nonlinear_arith)
                    requires
                        x == 128 * pair + t,
                        pair == period * d + q,
                        block == 128 * period,
                ;
                assert(0 <= q < period) by (nonlinear_arith)
                    requires
                        q == pair % period,
                        period > 0,
                ;
                vstd::arithmetic::div_mod::lemma_mod_multiples_vanish(d, 128 * q + t, block);
                vstd::arithmetic::div_mod::lemma_small_mod((128 * q + t) as nat, block as nat);
                assert(x % block == 128 * q + t);
                assert(x / 8 == 8 * row + c && x % 8 == i);
                assert(!bit_of(plane[x / 8], x % 8));
            }
            lemma_byte_without_bits(byte);
            assert(data[256 * c + byte as int] == data[256 * c]);
        }
        crate::multilinear::lemma_sum_zero(lookup_terms(data, plane, row), 8);
    }
}

/// A plane whose padding bits are zero folds as it would without any padding.
pub proof fn law_padded_plane_folds_as_dense(
    data: Seq<F128>,
    plane: Seq<u8>,
    padding: PaddingSpec,
    m: nat,
)
    requires
        7 <= m <= usize::MAX,
        pow2(m) <= usize::MAX,
        padding.k_log >= 7,
        padding.zero_padded(plane),
        forall|c: int| 0 <= c < 8 ==> #[trigger] data[256 * c] == F128::zero(),
    ensures
        folded_plane(data, plane, padding) == folded_plane(data, plane, dense_spec(m)),
{
    let dense = folded_plane(data, plane, dense_spec(m));
    assert forall|row: int| 0 <= row < plane.len() / 8 implies folded_plane(
        data,
        plane,
        padding,
    )[row] == dense[row] by {
        law_padding_skip_is_transparent(data, plane, padding, row);
        law_dense_skips_nothing(m, row / 2);
    }
    assert(folded_plane(data, plane, padding) =~= dense);
}

/// Padding does not show in the fold: on planes whose padding bits are zero, and with
/// tables that send the zero byte to zero, both folded planes and the round message are
/// those of the same fold without padding.
pub proof fn law_padded_fold_is_the_dense_fold(
    table: UniSkipFoldTable,
    a: Seq<u8>,
    b: Seq<u8>,
    m: usize,
    k_skip: usize,
    challenges: Seq<F128>,
    padding: PaddingSpec,
)
    requires
        fold_shape(a, b, m, k_skip, table, challenges, padding),
        padding.zero_padded(a),
        padding.zero_padded(b),
        forall|c: int| 0 <= c < 8 ==> #[trigger] table.data@[256 * c] == F128::zero(),
    ensures
        fold_shape(a, b, m, k_skip, table, challenges, dense_spec(m as nat)),
        folded_plane(table.data@, a, padding) == folded_plane(
            table.data@,
            a,
            dense_spec(m as nat),
        ),
        folded_plane(table.data@, b, padding) == folded_plane(
            table.data@,
            b,
            dense_spec(m as nat),
        ),
        round_message(
            folded_plane(table.data@, a, padding),
            folded_plane(table.data@, b, padding),
            challenges,
        ) == round_message(
            folded_plane(table.data@, a, dense_spec(m as nat)),
            folded_plane(table.data@, b, dense_spec(m as nat)),
            challenges,
        ),
{
    law_padded_plane_folds_as_dense(table.data@, a, padding, m as nat);
    law_padded_plane_folds_as_dense(table.data@, b, padding, m as nat);
}

/// Tables built from bit weights send the zero byte to zero.
pub proof fn law_weight_tables_send_zero_to_zero(
    table: UniSkipFoldTable,
    weights: Seq<F128>,
    c: int,
)
    requires
        table.sums_weights(weights),
        0 <= c < 8,
    ensures
        table.data@[256 * c] == F128::zero(),
{
    let terms = weight_terms(weights, c, 0u8);
    assert(table.data@[256 * c + 0] == sum_upto(terms, 8));
    assert forall|b: int| 0 <= b < 8 implies #[trigger] terms(b) == F128::zero() by {
        let shift = b as u8;
        assert((0u8 >> shift) & 1u8 == 0u8) by (bit_vector)
            requires
                shift < 8,
        ;
    }
    crate::multilinear::lemma_sum_zero(terms, 8);
}

/// A folded row is the sum of eight table entries: for each of its bytes, the entry of that
/// byte in the table of its place.
pub proof fn law_row_fold_adds_eight_entries(data: Seq<F128>, plane: Seq<u8>, row: int)
    ensures
        row_fold(data, plane, row) == data[plane[8 * row] as int] + data[256 + plane[8 * row + 1]]
            + data[512 + plane[8 * row + 2]] + data[768 + plane[8 * row + 3]] + data[1024
            + plane[8 * row + 4]] + data[1280 + plane[8 * row + 5]] + data[1536 + plane[8 * row
            + 6]] + data[1792 + plane[8 * row + 7]],
{
    let terms = lookup_terms(data, plane, row);
    reveal_with_fuel(sum_upto, 9);
    crate::field::law_add(F128::zero(), terms(0), terms(0));
    crate::field::law_add(terms(0), F128::zero(), F128::zero());
}

/// Rows are folded exactly where their pair holds useful bits: a pair whose first bit stands
/// in the useful part of its block is folded row by row, and any other is zero.
pub proof fn law_folded_rows(
    data: Seq<F128>,
    plane: Seq<u8>,
    padding: PaddingSpec,
    row: int,
)
    requires
        padding.k_log >= 7,
        0 <= row < plane.len() / 8,
    ensures
        folded_plane(data, plane, padding).len() == plane.len() / 8,
        folded_plane(data, plane, padding)[row] == (if (128 * (row / 2)) % (pow2(
            padding.k_log as nat,
        ) as int) < padding.useful_bits_per_block {
            row_fold(data, plane, row)
        } else {
            F128::zero()
        }),
{
    let pair = row / 2;
    let period = padding.pairs_per_block();
    lemma_pow2_adds((padding.k_log - 7) as nat, 7);
    lemma_pow2_pos((padding.k_log - 7) as nat);
    vstd::arithmetic::power2::lemma2_to64();
    let block = pow2(padding.k_log as nat) as int;
    assert(block == 128 * period);
    vstd::arithmetic::div_mod::lemma_fundamental_div_mod(pair, period);
    vstd::arithmetic::div_mod::lemma_mod_bound(pair, period);
    let (q, d) = (pair % period, pair / period);
    assert(128 * pair == block * d + 128 * q) by (nonlinear_arith)
        requires
            pair == period * d + q,
            block == 128 * period,
    ;
    vstd::arithmetic::div_mod::lemma_mod_multiples_vanish(d, 128 * q, block);
    vstd::arithmetic::div_mod::lemma_small_mod((128 * q) as nat, block as nat);
}

} // verus!
