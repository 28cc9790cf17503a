//! Opening proofs whose first folds a provider makes that holds the planes already.
use crate::field::F128;
use crate::host::first_oracle;
use crate::ligerito::{
    config_fits, exact_log2, kernels_ready, log2_of, Digest, LigeritoProof, LigeroWitness,
    PcsKernels, ProverConfig,
};
use crate::resident_prefix::{
    prefix_outcome, prefix_shape, prefix_start, prove_from_first_message, refusal_text,
    send_statement, FoldRounds, PrefixCall,
};
use crate::sumcheck::SumcheckMessage;
use crate::transcript::Challenger;
use crate::zerocheck::planes_reply;
use vstd::prelude::*;

verus! {

/// Synchronous trusted arithmetic provider that holds the planes before the proof
/// starts. After any error the attempt is over.
pub trait StartedFoldBackend {
    /// Every call that may change this provider, in order, with its reply.
    closed spec fn calls(&self) -> Seq<PrefixCall> {
        arbitrary()
    }

    /// Numbers for what this provider was made with. No call changes them.
    closed spec fn setup(&self) -> Seq<int> {
        arbitrary()
    }

    /// What this provider keeps true of itself and its log from call to call.
    closed spec fn consistent(&self) -> bool {
        arbitrary()
    }

    /// The error that `admit_initialized` answers with, if any.
    closed spec fn admission(&self, rows: usize, rounds: usize) -> Option<Seq<char>> {
        arbitrary()
    }

    /// Whether the planes held have `rows` entries and nothing was folded yet,
    /// asked before the transcript is touched.
    fn admit_initialized(&self, rows: usize, rounds: usize) -> (res: Result<(), String>)
        ensures
            refusal_text(res) == self.admission(rows, rounds),
    ;

    /// Folds once at the host challenge `rho`, and returns the unweighted message.
    fn advance(&mut self, rho: F128) -> (res: Result<SumcheckMessage, String>)
        ensures
            final(self).setup() == old(self).setup(),
            old(self).consistent() ==> final(self).consistent(),
            final(self).calls() == old(self).calls().push(PrefixCall::Advance { rho, reply: res }),
    ;

    /// Hands over both planes as folded; no further fold.
    fn finish(&mut self) -> (res: Result<(Vec<F128>, Vec<F128>), String>)
        ensures
            final(self).setup() == old(self).setup(),
            old(self).consistent() ==> final(self).consistent(),
            final(self).calls() == old(self).calls().push(
                PrefixCall::Finish { planes: planes_reply(res) },
            ),
    ;
}

/// The kind of providers that hold their planes from the start.
pub struct HeldPlanes;

impl<B: StartedFoldBackend + ?Sized> FoldRounds<HeldPlanes> for B {
    open spec fn log(&self) -> Seq<PrefixCall> {
        self.calls()
    }

    open spec fn made_with(&self) -> Seq<int> {
        self.setup()
    }

    open spec fn kept(&self) -> bool {
        self.consistent()
    }

    fn next_message(&mut self, rho: F128) -> (res: Result<SumcheckMessage, String>) {
        self.advance(rho)
    }

    fn hand_over(&mut self) -> (res: Result<(Vec<F128>, Vec<F128>), String>) {
        self.finish()
    }
}

/// Prove an opening whose first `initial_k` folds a provider makes that holds the
/// planes already.
///
/// A shape that cannot be folded, and a refusal of the provider, are reported
/// before the transcript is touched. Any later error ends the attempt.
#[allow(clippy::too_many_arguments)]
pub fn prove_with_started_backend<C, B, M, P, A, D>(
    config: &ProverConfig,
    rows: usize,
    target: F128,
    l0_codeword: &[F128],
    l0_tree: &[Digest],
    first_msg: SumcheckMessage,
    kernels: &PcsKernels<M, P, A, D>,
    challenger: &mut C,
    backend: &mut B,
) -> (res: Result<LigeritoProof, String>) where
    C: Challenger,
    B: StartedFoldBackend + ?Sized,
    M: Fn(&[F128], usize, usize, usize) -> LigeroWitness,
    P: Fn(&[Digest], usize, &[usize]) -> Vec<Digest>,
    A: Fn(usize, usize, &[Vec<F128>], &[F128], &[usize], &[F128]) -> (Vec<F128>, F128),
    D: Fn(usize, &[Vec<F128>], &[F128], &[usize], &[F128]) -> (Vec<F128>, F128),

    requires
        prefix_shape(rows as nat, rows as nat, config.initial_k) && old(backend).admission(
            rows,
            config.initial_k,
        ) is None ==> {
            &&& config_fits(
                *config,
                log2_of(rows as nat) as int,
                l0_codeword@.len(),
                l0_tree@.len(),
            )
            &&& kernels_ready(*kernels)
        },
    ensures
        old(challenger).consistent() ==> final(challenger).consistent(),
        final(backend).setup() == old(backend).setup(),
        old(backend).consistent() ==> final(backend).consistent(),
        if !prefix_shape(rows as nat, rows as nat, config.initial_k) {
            &&& res matches Err(e) && e@ == "resident PCS prefix shape"@
            &&& *final(challenger) == *old(challenger)
            &&& final(backend).calls() == old(backend).calls()
        } else {
            match old(backend).admission(rows, config.initial_k) {
                Some(text) => {
                    &&& res matches Err(e) && e@ == text
                    &&& *final(challenger) == *old(challenger)
                    &&& final(backend).calls() == old(backend).calls()
                },
                None => prefix_outcome(
                    *kernels,
                    *config,
                    log2_of(rows as nat) as int,
                    first_oracle(*config, log2_of(rows as nat) as int, l0_codeword@, l0_tree@),
                    prefix_start(old(challenger).history(), target, l0_tree@.last(), first_msg),
                    old(backend).calls(),
                    final(challenger).history(),
                    final(backend).calls(),
                    res,
                ),
            }
        },
{
    let log_n = match exact_log2(rows) {
        Some(log_n) => log_n,
        None => {
            return Err("resident PCS prefix shape".to_string());
        },
    };
    if rows < 4 || config.initial_k == 0 || config.initial_k >= log_n {
        return Err("resident PCS prefix shape".to_string());
    }
    match backend.admit_initialized(rows, config.initial_k) {
        Err(e) => {
            return Err(e);
        },
        Ok(_) => {},
    }
    let ghost h0 = challenger.history();
    proof {
        vstd::arithmetic::power2::lemma_pow2_pos(
            (log_n - config.initial_k + config.log_inv_rates@[0]) as nat,
        );
    }
    send_statement(challenger, target, l0_tree);
    prove_from_first_message::<C, HeldPlanes, B, M, P, A, D>(
        config,
        log_n,
        target,
        l0_codeword,
        l0_tree,
        first_msg,
        kernels,
        challenger,
        backend,
        Ghost(h0),
    )
}

} // verus!
