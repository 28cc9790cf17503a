//! Which inputs are let in, stated on the inputs themselves.
use crate::batch::refusal;
use crate::cpu_prefix::{CpuPrefix, StartedCpu, StartedFault};
use crate::field::F128;
use crate::ligerito::{is_power, law_log2_of_power, log2_of, ProverConfig};
use crate::opening::{geometry_fits, PcsParams};
use crate::padding::PaddingSpec;
use crate::resident_ab::admission_error;
use crate::resident_prefix::{prefix_shape, InitialFoldBackend};
use crate::started_prefix::StartedFoldBackend;
use crate::univariate::{fold_shape, UniSkipFoldTable};
use vstd::arithmetic::power2::{lemma2_to64, lemma_pow2_adds, lemma_pow2_pos, pow2};
use vstd::prelude::*;

verus! {

/// A zerocheck is let in exactly if it has between 19 and 33 variables, the planes have an
/// eighth as many bytes as there are bits, the provider has a row for every 64 bits, and the
/// blocks of the padding hold at least 128 bits, fit in the plane, and are useful in no more
/// than their length.
pub proof fn law_zerocheck_admission(
    a_len: nat,
    b_len: nat,
    c_len: nat,
    m: usize,
    padding: PaddingSpec,
    rows: usize,
)
    requires
        m < usize::BITS,
    ensures
        admission_error(a_len, b_len, c_len, m, padding, rows) is None <==> {
            &&& 19 <= m <= 33
            &&& 8 * a_len == pow2(m as nat)
            &&& b_len == a_len
            &&& c_len == a_len
            &&& 64 * rows == pow2(m as nat)
            &&& 7 <= padding.k_log <= m
            &&& padding.useful_bits_per_block <= pow2(padding.k_log as nat)
        },
        !(19 <= m <= 33) ==> admission_error(a_len, b_len, c_len, m, padding, rows) == Some(
            "resident m admission"@,
        ),
        19 <= m <= 33 ==> {
            let refused = admission_error(a_len, b_len, c_len, m, padding, rows);
            refused is None || refused == Some("resident shape/padding admission"@)
        },
{
    if 19 <= m <= 33 {
        lemma2_to64();
        lemma_pow2_adds((m - 6) as nat, 6);
        lemma_pow2_adds((m - 3) as nat, 3);
        let (big, row, byte) = (
            pow2(m as nat),
            pow2((m - 6) as nat),
            pow2((m - 3) as nat),
        );
        assert(big == row * 64 && big == byte * 8);
        assert(big / 8 == byte);
    }
}

/// A zerocheck of so many variables that their power of two does not fit is refused as well.
pub proof fn law_zerocheck_overflow(
    a_len: nat,
    b_len: nat,
    c_len: nat,
    m: usize,
    padding: PaddingSpec,
    rows: usize,
)
    requires
        m >= usize::BITS,
    ensures
        admission_error(a_len, b_len, c_len, m, padding, rows) == Some(
            if m <= 33 {
                "input overflow"@
            } else {
                "resident m admission"@
            },
        ),
{
}

/// Planes without padding are let in.
pub proof fn law_dense_zerocheck_is_admitted(m: usize, len: nat, rows: usize)
    requires
        19 <= m <= 33,
        m < usize::BITS,
        8 * len == pow2(m as nat),
        64 * rows == pow2(m as nat),
        pow2(m as nat) <= usize::MAX,
    ensures
        admission_error(
            len,
            len,
            len,
            m,
            (PaddingSpec { k_log: m, useful_bits_per_block: pow2(m as nat) as usize }),
            rows,
        ) is None,
{
    law_zerocheck_admission(
        len,
        len,
        len,
        m,
        PaddingSpec { k_log: m, useful_bits_per_block: pow2(m as nat) as usize },
        rows,
    );
}

/// An opening belongs to a commitment exactly if the witness has one element for every 128
/// committed bits, the codeword is longer by the inverse rate, the tree has one leaf for
/// every batch of the codeword, and the configuration starts with the batch, the columns and
/// the rate of the commitment.
pub proof fn law_opening_geometry(
    params: PcsParams,
    config: ProverConfig,
    witness_len: nat,
    codeword_len: nat,
    tree_len: nat,
)
    ensures
        geometry_fits(params, config, witness_len, codeword_len, tree_len) <==> {
            &&& params.m >= 7 + params.log_batch_size
            &&& 128 * witness_len == pow2(params.m as nat)
            &&& codeword_len == witness_len * pow2(params.log_inv_rate as nat)
            &&& (tree_len + 1) * pow2(params.log_batch_size as nat) == 2 * codeword_len
            &&& config.initial_k == params.log_batch_size
            &&& config.initial_log_num_interleaved == params.log_batch_size
            &&& config.initial_log_msg_cols + params.log_batch_size + 7 == params.m
            &&& config.log_inv_rates@.len() > 0
            &&& config.log_inv_rates@[0] == params.log_inv_rate
        },
{
    if params.m >= 7 + params.log_batch_size {
        let log_n = (params.m - 7) as nat;
        let batch = params.log_batch_size as nat;
        let rate = params.log_inv_rate as nat;
        let columns = (log_n - batch) as nat;
        lemma2_to64();
        lemma_pow2_adds(log_n, 7);
        lemma_pow2_adds(log_n, rate);
        lemma_pow2_adds(columns + rate, batch);
        lemma_pow2_pos(batch);
        let (leaves, width) = (pow2(columns + rate), pow2(batch));
        assert(columns + rate + batch == log_n + rate);
        if (tree_len + 1) * width == 2 * (leaves * width) {
            assert(tree_len + 1 == 2 * leaves) by (nonlinear_arith)
                requires
                    (tree_len + 1) * width == 2 * (leaves * width),
                    width > 0,
            ;
        }
        if tree_len + 1 == 2 * leaves {
            assert((tree_len + 1) * width == 2 * (leaves * width)) by (nonlinear_arith)
                requires
                    tree_len + 1 == 2 * leaves,
            ;
        }
    }
}

/// Planes can be folded `k` times by a provider exactly if both have the same power of two as
/// length, there is something to fold, and something is left.
pub proof fn law_prefix_shape(rows: nat, basis: nat, k: usize)
    ensures
        forall|n: nat|
            #[trigger] pow2(n) == rows ==> (prefix_shape(rows, basis, k) <==> basis == rows && 1
                <= k < n),
        prefix_shape(rows, basis, k) ==> exists|n: nat| rows == #[trigger] pow2(n),
{
    assert forall|n: nat| #[trigger] pow2(n) == rows implies (prefix_shape(rows, basis, k)
        <==> basis == rows && 1 <= k < n) by {
        law_log2_of_power(n);
        if n >= 2 {
            lemma2_to64();
            lemma_pow2_adds((n - 2) as nat, 2);
            lemma_pow2_pos((n - 2) as nat);
        }
    }
    if prefix_shape(rows, basis, k) {
        assert(rows == pow2(log2_of(rows)));
        assert(is_power(rows));
    }
}

/// The processor provider lets in as many folds as leave something of a power of two.
pub proof fn law_cpu_prefix_admission(prefix: CpuPrefix, rows: usize, rounds: usize)
    ensures
        forall|n: nat|
            #[trigger] pow2(n) == rows ==> (prefix.admission(rows, rounds) is None <==> 1 <= rounds
                < n),
        prefix.admission(rows, rounds) is None ==> exists|n: nat| rows == #[trigger] pow2(n),
{
    assert forall|n: nat| #[trigger] pow2(n) == rows implies (prefix.admission(rows, rounds) is None
        <==> 1 <= rounds < n) by {
        law_log2_of_power(n);
    }
    if prefix.admission(rows, rounds) is None {
        assert(rows as nat == pow2(log2_of(rows as nat)));
    }
}

/// A started provider that is told no fault lets in exactly the planes that it holds, before
/// any fold and any export, with at least one fold to come.
pub proof fn law_started_admission(provider: StartedCpu, rows: usize, rounds: usize)
    ensures
        provider.admission(rows, rounds) is None <==> {
            &&& provider.fault != StartedFault::Admission
            &&& provider.a@.len() == rows
            &&& provider.b@.len() == rows
            &&& provider.advances == 0
            &&& provider.finishes == 0
            &&& rounds >= 1
        },
        provider.admission(rows, rounds) is Some ==> provider.admission(rows, rounds) == Some(
            if provider.fault == StartedFault::Admission {
                "admission"@
            } else {
                "state"@
            },
        ),
{
}

/// The univariate fold takes exactly the planes of `2^m` bits, tables of 256 entries for each
/// of eight bytes, a coordinate for every variable that is left, and padding whose blocks
/// fit.
pub proof fn law_fold_shape(
    a: Seq<u8>,
    b: Seq<u8>,
    m: usize,
    k_skip: usize,
    table: UniSkipFoldTable,
    challenges: Seq<F128>,
    padding: PaddingSpec,
)
    ensures
        fold_shape(a, b, m, k_skip, table, challenges, padding) <==> {
            &&& k_skip == 6
            &&& 7 <= m
            &&& pow2(m as nat) <= usize::MAX
            &&& table.n_chunks == 8
            &&& table.data@.len() == 8 * 256
            &&& 8 * a.len() == pow2(m as nat)
            &&& b.len() == a.len()
            &&& challenges.len() + 6 == m
            &&& 7 <= padding.k_log <= m
            &&& padding.useful_bits_per_block <= pow2(padding.k_log as nat)
        },
{
    if m >= 7 {
        lemma2_to64();
        lemma_pow2_adds((m - 6) as nat, 6);
    }
}

/// An opening of a batch with a provider is let in exactly if it belongs to its commitment, the
/// prefix has a shape that can be folded and the provider takes it; and the first of these that
/// fails is what the caller hears.
pub proof fn law_batch_admission(
    params: PcsParams,
    config: ProverConfig,
    witness_len: nat,
    codeword_len: nat,
    tree_len: nat,
    admission: Option<Seq<char>>,
)
    ensures
        ({
            let heard = refusal(params, config, witness_len, codeword_len, tree_len, admission);
            let fits = geometry_fits(params, config, witness_len, codeword_len, tree_len);
            &&& heard is None <==> {
                &&& fits
                &&& prefix_shape(witness_len, witness_len, config.initial_k)
                &&& admission is None
            }
            &&& !fits ==> heard == Some("opening geometry"@)
            &&& fits && !(1 <= params.log_batch_size < params.m - 7) ==> heard == Some(
                "resident PCS prefix shape"@,
            )
            &&& fits && 1 <= params.log_batch_size < params.m - 7 ==> heard == admission
        }),
{
    law_opening_geometry(params, config, witness_len, codeword_len, tree_len);
    if geometry_fits(params, config, witness_len, codeword_len, tree_len) {
        let n = (params.m - 7) as nat;
        lemma_pow2_adds(n, 7);
        lemma2_to64();
        assert(witness_len == pow2(n));
        law_prefix_shape(witness_len, witness_len, config.initial_k);
    }
}

} // verus!
