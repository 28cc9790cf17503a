//! A batch of openings as one operation: the geometry is tested, the claims are
//! combined on the transcript, and the combined claim is proved.
use crate::cpu_prefix::{prefix_log_fits, prefix_state, StartedFault};
use crate::field::F128;
use crate::ligerito::{
    config_fits, kernels_ready, log2_of, Digest, LigeritoProof, LigeroWitness, PcsKernels,
    ProverConfig, Session,
};
use crate::multilinear::sum_upto;
use crate::opening::{
    combine_direct_claims, combined_tables, geometry_admitted, geometry_fits, host_completed,
    host_start, law_combined_basis_is_a_sum, law_combined_target_is_a_sum, open_combined,
    opened_combination, value_terms, BatchOpeningProofLigerito, CombinedClaims, PackedDirectClaim,
    PcsParams, LOG_PACKING,
};
use crate::parity::{
    law_opening_holds_the_recursive_proof, law_processor_opening_is_a_host_proof,
};
use crate::resident_prefix::{
    begun_outcome, prefix_shape, prove_with_backend, InitialFoldBackend, PrefixCall,
};
use crate::sumcheck::{law_message_parts, message_of, SumcheckMessage};
use crate::transcript::{lemma_obeys_prefix, lemma_obeys_push, obeys, Challenger, Event, Rule};
use crate::unique::{kernels_functional, law_host_transcript_grows};
use vstd::prelude::*;

verus! {

/// Combines a batch of claims about a witness, on a transcript.
pub trait ClaimCombiner<S> {
    /// The claims are about witnesses like this one.
    closed spec fn accepts(&self, witness: Seq<F128>) -> bool {
        arbitrary()
    }

    /// What a combination makes of the witness and the transcript before it.
    closed spec fn combines(
        &self,
        witness: Seq<F128>,
        before: Seq<Event>,
        after: Seq<Event>,
        combined: CombinedClaims<S>,
    ) -> bool {
        arbitrary()
    }

    /// Combines the claims.
    fn combine<C: Challenger>(&self, witness: &[F128], challenger: &mut C) -> (combined:
        CombinedClaims<S>)
        requires
            self.accepts(witness@),
        ensures
            combined.b_combined@.len() == witness@.len(),
            old(challenger).history().is_prefix_of(final(challenger).history()),
            self.combines(
                witness@,
                old(challenger).history(),
                final(challenger).history(),
                combined,
            ),
            old(challenger).consistent() ==> final(challenger).consistent(),
    ;
}

/// Claims about the witness at points, which the transcript already holds: one factor
/// is drawn for each of them.
pub struct DirectClaims {
    pub claims: Vec<PackedDirectClaim>,
}

/// Direct claims combined with these factors.
pub open spec fn combined_with<S>(
    witness: Seq<F128>,
    claims: Seq<PackedDirectClaim>,
    gammas: Seq<F128>,
    combined: CombinedClaims<S>,
) -> bool {
    let basis = combined_tables(witness.len(), claims, gammas, claims.len() as int);
    let message = message_of(witness, basis);
    &&& combined.ring_switches@ == Seq::<S>::empty()
    &&& combined.b_combined@ == basis
    &&& combined.target_combined == sum_upto(value_terms(claims, gammas), claims.len() as int)
    &&& combined.round0_prime == (message.u_0, message.u_2)
}

/// The factors were drawn together, and the claims combined with them.
pub open spec fn drawn_and_combined<S>(
    witness: Seq<F128>,
    claims: Seq<PackedDirectClaim>,
    before: Seq<Event>,
    after: Seq<Event>,
    gammas: Seq<F128>,
    combined: CombinedClaims<S>,
) -> bool {
    &&& gammas.len() == claims.len()
    &&& after == before.push(Event::SampleVec(gammas))
    &&& combined_with(witness, claims, gammas, combined)
}

impl<S> ClaimCombiner<S> for DirectClaims {
    open spec fn accepts(&self, witness: Seq<F128>) -> bool {
        forall|i: int|
            0 <= i < self.claims@.len() ==> (#[trigger] self.claims@[i]).eq_ind@.len()
                == witness.len()
    }

    open spec fn combines(
        &self,
        witness: Seq<F128>,
        before: Seq<Event>,
        after: Seq<Event>,
        combined: CombinedClaims<S>,
    ) -> bool {
        exists|gammas: Seq<F128>| #[trigger]
            drawn_and_combined(witness, self.claims@, before, after, gammas, combined)
    }

    fn combine<C: Challenger>(&self, witness: &[F128], challenger: &mut C) -> (combined:
        CombinedClaims<S>) {
        let ghost before = challenger.history();
        let gammas = challenger.sample_f128_vec(self.claims.len());
        let combined = combine_direct_claims(
            witness,
            self.claims.as_slice(),
            gammas.as_slice(),
        );
        assert(drawn_and_combined(
            witness@,
            self.claims@,
            before,
            challenger.history(),
            gammas@,
            combined,
        ));
        assert(before =~= challenger.history().subrange(0, before.len() as int));
        combined
    }
}

/// The claims were combined on the transcript, and what came of them was proved on
/// the transcript that the combination left.
pub open spec fn opened<S, B, M, P, A, D>(
    combiner: &B,
    kernels: PcsKernels<M, P, A, D>,
    config: ProverConfig,
    log_n: int,
    witness: Seq<F128>,
    codeword: Seq<F128>,
    tree: Seq<Digest>,
    before: Seq<Event>,
    history: Seq<Event>,
    proof: BatchOpeningProofLigerito<S>,
) -> bool where
    B: ClaimCombiner<S>,
    M: Fn(&[F128], usize, usize, usize) -> LigeroWitness,
    P: Fn(&[Digest], usize, &[usize]) -> Vec<Digest>,
    A: Fn(usize, usize, &[Vec<F128>], &[F128], &[usize], &[F128]) -> (Vec<F128>, F128),
    D: Fn(usize, &[Vec<F128>], &[F128], &[usize], &[F128]) -> (Vec<F128>, F128),
 {
    exists|middle: Seq<Event>, combined: CombinedClaims<S>|
        {
            &&& before.is_prefix_of(middle)
            &&& #[trigger] combiner.combines(witness, before, middle, combined)
            &&& opened_combination(
                kernels,
                config,
                log_n,
                witness,
                codeword,
                tree,
                combined,
                middle,
                history,
                proof,
            )
        }
}

/// Open a batch of claims against a commitment whose codeword and tree are borrowed.
/// Whatever does not belong to the commitment is refused before the claims are
/// combined and before the transcript is touched.
#[allow(clippy::too_many_arguments)]
pub fn open_batch<C, S, B, M, P, A, D>(
    packed_witness: Vec<F128>,
    codeword: &[F128],
    tree: &[Digest],
    params: &PcsParams,
    combiner: &B,
    config: &ProverConfig,
    kernels: &PcsKernels<M, P, A, D>,
    challenger: &mut C,
) -> (res: Result<BatchOpeningProofLigerito<S>, String>) where
    C: Challenger,
    B: ClaimCombiner<S>,
    M: Fn(&[F128], usize, usize, usize) -> LigeroWitness,
    P: Fn(&[Digest], usize, &[usize]) -> Vec<Digest>,
    A: Fn(usize, usize, &[Vec<F128>], &[F128], &[usize], &[F128]) -> (Vec<F128>, F128),
    D: Fn(usize, &[Vec<F128>], &[F128], &[usize], &[F128]) -> (Vec<F128>, F128),

    requires
        geometry_fits(*params, *config, packed_witness@.len(), codeword@.len(), tree@.len()) ==> {
            &&& combiner.accepts(packed_witness@)
            &&& config_fits(*config, params.m - LOG_PACKING, codeword@.len(), tree@.len())
            &&& kernels_ready(*kernels)
        },
    ensures
        old(challenger).consistent() ==> final(challenger).consistent(),
        if geometry_fits(*params, *config, packed_witness@.len(), codeword@.len(), tree@.len()) {
            res matches Ok(proof) && opened(
                combiner,
                *kernels,
                *config,
                params.m - LOG_PACKING,
                packed_witness@,
                codeword@,
                tree@,
                old(challenger).history(),
                final(challenger).history(),
                proof,
            )
        } else {
            &&& res matches Err(e) && e@ == "opening geometry"@
            &&& *final(challenger) == *old(challenger)
        },
{
    if !geometry_admitted(params, config, packed_witness.len(), codeword.len(), tree.len()) {
        return Err("opening geometry".to_string());
    }
    let ghost w = packed_witness@;
    let ghost before = challenger.history();
    let combined = combiner.combine(packed_witness.as_slice(), challenger);
    let ghost middle = challenger.history();
    let ghost whole = combined;
    let res = open_combined(
        packed_witness,
        codeword,
        tree,
        params,
        combined,
        config,
        kernels,
        challenger,
    );
    assert(combiner.combines(w, before, middle, whole));
    res
}

/// The recursive part of an opening.
pub open spec fn recursive_part<S>(
    res: Result<BatchOpeningProofLigerito<S>, String>,
) -> Result<LigeritoProof, String> {
    match res {
        Ok(proof) => Ok(proof.ligerito),
        Err(e) => Err(e),
    }
}

/// The claims were combined on the transcript, and what came of them was proved with
/// the provider on the transcript that the combination left, or brought down by it.
pub open spec fn resident_opened<S, B, M, P, A, D>(
    combiner: &B,
    kernels: PcsKernels<M, P, A, D>,
    config: ProverConfig,
    witness: Seq<F128>,
    codeword: Seq<F128>,
    tree: Seq<Digest>,
    before: Seq<Event>,
    calls_before: Seq<PrefixCall>,
    history: Seq<Event>,
    calls: Seq<PrefixCall>,
    res: Result<BatchOpeningProofLigerito<S>, String>,
) -> bool where
    B: ClaimCombiner<S>,
    M: Fn(&[F128], usize, usize, usize) -> LigeroWitness,
    P: Fn(&[Digest], usize, &[usize]) -> Vec<Digest>,
    A: Fn(usize, usize, &[Vec<F128>], &[F128], &[usize], &[F128]) -> (Vec<F128>, F128),
    D: Fn(usize, &[Vec<F128>], &[F128], &[usize], &[F128]) -> (Vec<F128>, F128),
 {
    exists|middle: Seq<Event>, combined: CombinedClaims<S>|
        {
            &&& before.is_prefix_of(middle)
            &&& combined.b_combined@.len() == witness.len()
            &&& #[trigger] combiner.combines(witness, before, middle, combined)
            &&& res matches Ok(proof) ==> proof.ring_switches == combined.ring_switches
            &&& begun_outcome(
                kernels,
                config,
                witness,
                combined.b_combined@,
                combined.target_combined,
                codeword,
                tree,
                Some(
                    SumcheckMessage {
                        u_0: combined.round0_prime.0,
                        u_2: combined.round0_prime.1,
                    },
                ),
                middle,
                calls_before,
                history,
                calls,
                recursive_part(res),
            )
        }
}

/// Why an opening with a provider is refused, if it is: the commitment's geometry comes
/// first, then the shape of the prefix, then the provider's own admission.
pub open spec fn refusal(
    params: PcsParams,
    config: ProverConfig,
    witness_len: nat,
    codeword_len: nat,
    tree_len: nat,
    admission: Option<Seq<char>>,
) -> Option<Seq<char>> {
    if !geometry_fits(params, config, witness_len, codeword_len, tree_len) {
        Some("opening geometry"@)
    } else if !prefix_shape(witness_len, witness_len, config.initial_k) {
        Some("resident PCS prefix shape"@)
    } else {
        admission
    }
}

/// Open a batch of claims with a provider for the first folds. What is refused is
/// refused before the claims are combined, before the transcript is touched and before
/// the provider computes anything; a later failure of the provider is final.
#[allow(clippy::too_many_arguments)]
pub fn open_batch_with_resident_prefix<C, S, B, F, M, P, A, D>(
    packed_witness: Vec<F128>,
    codeword: &[F128],
    tree: &[Digest],
    params: &PcsParams,
    combiner: &B,
    config: &ProverConfig,
    kernels: &PcsKernels<M, P, A, D>,
    challenger: &mut C,
    backend: &mut F,
) -> (res: Result<BatchOpeningProofLigerito<S>, String>) where
    C: Challenger,
    B: ClaimCombiner<S>,
    F: InitialFoldBackend + ?Sized,
    M: Fn(&[F128], usize, usize, usize) -> LigeroWitness,
    P: Fn(&[Digest], usize, &[usize]) -> Vec<Digest>,
    A: Fn(usize, usize, &[Vec<F128>], &[F128], &[usize], &[F128]) -> (Vec<F128>, F128),
    D: Fn(usize, &[Vec<F128>], &[F128], &[usize], &[F128]) -> (Vec<F128>, F128),

    requires
        refusal(
            *params,
            *config,
            packed_witness@.len(),
            codeword@.len(),
            tree@.len(),
            old(backend).admission(packed_witness@.len() as usize, config.initial_k),
        ) is None ==> {
            &&& combiner.accepts(packed_witness@)
            &&& config_fits(*config, params.m - LOG_PACKING, codeword@.len(), tree@.len())
            &&& kernels_ready(*kernels)
        },
    ensures
        old(challenger).consistent() ==> final(challenger).consistent(),
        final(backend).setup() == old(backend).setup(),
        old(backend).consistent() ==> final(backend).consistent(),
        match refusal(
            *params,
            *config,
            packed_witness@.len(),
            codeword@.len(),
            tree@.len(),
            old(backend).admission(packed_witness@.len() as usize, config.initial_k),
        ) {
            Some(text) => {
                &&& res matches Err(e) && e@ == text
                &&& *final(challenger) == *old(challenger)
                &&& final(backend).calls() == old(backend).calls()
            },
            None => resident_opened(
                combiner,
                *kernels,
                *config,
                packed_witness@,
                codeword@,
                tree@,
                old(challenger).history(),
                old(backend).calls(),
                final(challenger).history(),
                final(backend).calls(),
                res,
            ),
        },
{
    let rows = packed_witness.len();
    if !geometry_admitted(params, config, rows, codeword.len(), tree.len()) {
        return Err("opening geometry".to_string());
    }
    proof {
        crate::ligerito::law_log2_of_power((params.m - LOG_PACKING) as nat);
    }
    if rows < 4 || config.initial_k == 0 || config.initial_k >= params.m - LOG_PACKING {
        return Err("resident PCS prefix shape".to_string());
    }
    match backend.admit_prefix(rows, config.initial_k) {
        Err(e) => {
            return Err(e);
        },
        Ok(()) => {},
    }
    let ghost w = packed_witness@;
    let ghost before = challenger.history();
    let combined = combiner.combine(packed_witness.as_slice(), challenger);
    let ghost middle = challenger.history();
    let ghost whole = combined;
    let first = SumcheckMessage { u_0: combined.round0_prime.0, u_2: combined.round0_prime.1 };
    assert(rows == w.len() as usize);
    let res = prove_with_backend(
        config,
        packed_witness,
        combined.b_combined,
        combined.target_combined,
        codeword,
        tree,
        Some(first),
        kernels,
        challenger,
        backend,
    );
    assert(combiner.combines(w, before, middle, whole));
    match res {
        Ok(ligerito) => Ok(
            BatchOpeningProofLigerito { ring_switches: combined.ring_switches, ligerito },
        ),
        Err(e) => Err(e),
    }
}

/// Combinations of equal witnesses on equal transcripts are equal, where the
/// transcript answers by a rule.
pub open spec fn combiner_functional<S, B: ClaimCombiner<S>>(combiner: &B, rule: Rule) -> bool {
    forall|
        w: Seq<F128>,
        before: Seq<Event>,
        x_after: Seq<Event>,
        x: CombinedClaims<S>,
        y_after: Seq<Event>,
        y: CombinedClaims<S>,
    |
        #[trigger] combiner.combines(w, before, x_after, x) && #[trigger] combiner.combines(
            w,
            before,
            y_after,
            y,
        ) && obeys(x_after, before.len(), rule) && obeys(y_after, before.len(), rule) ==> {
            &&& x_after == y_after
            &&& x.ring_switches@ == y.ring_switches@
            &&& x.b_combined@ == y.b_combined@
            &&& x.target_combined == y.target_combined
            &&& x.round0_prime == y.round0_prime
        }
}

/// Direct claims are combined in one way only.
pub proof fn law_direct_claims_are_functional<S>(claims: DirectClaims, rule: Rule)
    ensures
        combiner_functional::<S, DirectClaims>(&claims, rule),
{
    assert forall|
        w: Seq<F128>,
        before: Seq<Event>,
        x_after: Seq<Event>,
        x: CombinedClaims<S>,
        y_after: Seq<Event>,
        y: CombinedClaims<S>,
    |
        #[trigger] claims.combines(w, before, x_after, x) && #[trigger] claims.combines(
            w,
            before,
            y_after,
            y,
        ) && obeys(x_after, before.len(), rule) && obeys(y_after, before.len(), rule) implies {
        &&& x_after == y_after
        &&& x.ring_switches@ == y.ring_switches@
        &&& x.b_combined@ == y.b_combined@
        &&& x.target_combined == y.target_combined
        &&& x.round0_prime == y.round0_prime
    } by {
        let gx = choose|gammas: Seq<F128>| #[trigger]
            drawn_and_combined(w, claims.claims@, before, x_after, gammas, x);
        let gy = choose|gammas: Seq<F128>| #[trigger]
            drawn_and_combined(w, claims.claims@, before, y_after, gammas, y);
        lemma_obeys_push(before, Event::SampleVec(gx), before.len(), rule);
        lemma_obeys_push(before, Event::SampleVec(gy), before.len(), rule);
    }
}

proof fn lemma_start_extends(before: Seq<Event>, start: Session, history: Seq<Event>)
    requires
        before.len() <= start.events.len(),
        forall|i: int| 0 <= i < before.len() ==> before[i] == start.events[i],
        start.events.is_prefix_of(history),
    ensures
        before.is_prefix_of(history),
{
    assert forall|i: int| 0 <= i < before.len() implies before[i] == history[i] by {
        assert(start.events[i] == history.subrange(0, start.events.len() as int)[i]);
    }
    assert(before =~= history.subrange(0, before.len() as int));
}

/// An opening of a batch is its combination followed by the recursive prover: it hands
/// the combination's own part on, holds the recursive proof, and leaves the transcript
/// where the recursive prover leaves it.
pub proof fn law_batch_is_combination_and_proof<S, B, M, P, A, D>(
    combiner: &B,
    kernels: PcsKernels<M, P, A, D>,
    config: ProverConfig,
    params: PcsParams,
    w: Seq<F128>,
    codeword: Seq<F128>,
    tree: Seq<Digest>,
    before: Seq<Event>,
    history: Seq<Event>,
    proof: BatchOpeningProofLigerito<S>,
    middle: Seq<Event>,
    combined: CombinedClaims<S>,
    host_history: Seq<Event>,
    host_proof: LigeritoProof,
    rule: Rule,
) where
    B: ClaimCombiner<S>,
    M: Fn(&[F128], usize, usize, usize) -> LigeroWitness,
    P: Fn(&[Digest], usize, &[usize]) -> Vec<Digest>,
    A: Fn(usize, usize, &[Vec<F128>], &[F128], &[usize], &[F128]) -> (Vec<F128>, F128),
    D: Fn(usize, &[Vec<F128>], &[F128], &[usize], &[F128]) -> (Vec<F128>, F128),

    requires
        kernels_functional(kernels),
        combiner_functional(combiner, rule),
        config.recursive_steps >= 1,
        geometry_fits(params, config, w.len(), codeword.len(), tree.len()),
        opened(
            combiner,
            kernels,
            config,
            params.m - LOG_PACKING,
            w,
            codeword,
            tree,
            before,
            history,
            proof,
        ),
        before.is_prefix_of(middle),
        combiner.combines(w, before, middle, combined),
        host_completed(
            kernels,
            config,
            log2_of(w.len()) as int,
            host_start(
                middle,
                w,
                combined.b_combined@,
                combined.target_combined,
                tree.last(),
                (SumcheckMessage { u_0: combined.round0_prime.0, u_2: combined.round0_prime.1 }),
            ),
            codeword,
            tree,
            host_history,
            host_proof,
        ),
        obeys(history, before.len(), rule),
        obeys(host_history, before.len(), rule),
    ensures
        proof.ring_switches@ == combined.ring_switches@,
        proof.ligerito@ == host_proof@,
        history == host_history,
{
    let log_n = params.m - LOG_PACKING;
    let (own, claims) = choose|own: Seq<Event>, claims: CombinedClaims<S>|
        {
            &&& before.is_prefix_of(own)
            &&& #[trigger] combiner.combines(w, before, own, claims)
            &&& opened_combination(
                kernels,
                config,
                log_n,
                w,
                codeword,
                tree,
                claims,
                own,
                history,
                proof,
            )
        };
    let start = host_start(
        own,
        w,
        claims.b_combined@,
        claims.target_combined,
        tree.last(),
        SumcheckMessage { u_0: claims.round0_prime.0, u_2: claims.round0_prime.1 },
    );
    let host = host_start(
        middle,
        w,
        combined.b_combined@,
        combined.target_combined,
        tree.last(),
        SumcheckMessage { u_0: combined.round0_prime.0, u_2: combined.round0_prime.1 },
    );
    crate::ligerito::law_log2_of_power(log_n as nat);
    law_host_transcript_grows(
        kernels,
        config,
        log_n,
        start,
        codeword,
        tree,
        history,
        proof.ligerito,
    );
    law_host_transcript_grows(
        kernels,
        config,
        log_n,
        host,
        codeword,
        tree,
        host_history,
        host_proof,
    );
    lemma_start_extends(own, start, history);
    lemma_start_extends(middle, host, host_history);
    lemma_obeys_prefix(own, history, before.len(), rule);
    lemma_obeys_prefix(middle, host_history, before.len(), rule);
    law_opening_holds_the_recursive_proof(
        kernels,
        config,
        params,
        w,
        codeword,
        tree,
        start,
        history,
        proof.ligerito,
        host_history,
        host_proof,
        before.len(),
        rule,
    );
}

/// The opening of a batch is determined by its inputs and by the answers of the
/// transcript, the combination and the kernels: two openings with equal ones hold equal
/// proofs and leave equal transcripts.
pub proof fn law_batch_opening_is_unique<S, B, M, P, A, D>(
    combiner: &B,
    kernels: PcsKernels<M, P, A, D>,
    config: ProverConfig,
    params: PcsParams,
    w: Seq<F128>,
    codeword: Seq<F128>,
    tree: Seq<Digest>,
    before: Seq<Event>,
    x_history: Seq<Event>,
    x: BatchOpeningProofLigerito<S>,
    y_history: Seq<Event>,
    y: BatchOpeningProofLigerito<S>,
    rule: Rule,
) where
    B: ClaimCombiner<S>,
    M: Fn(&[F128], usize, usize, usize) -> LigeroWitness,
    P: Fn(&[Digest], usize, &[usize]) -> Vec<Digest>,
    A: Fn(usize, usize, &[Vec<F128>], &[F128], &[usize], &[F128]) -> (Vec<F128>, F128),
    D: Fn(usize, &[Vec<F128>], &[F128], &[usize], &[F128]) -> (Vec<F128>, F128),

    requires
        kernels_functional(kernels),
        combiner_functional(combiner, rule),
        config.recursive_steps >= 1,
        geometry_fits(params, config, w.len(), codeword.len(), tree.len()),
        opened(
            combiner,
            kernels,
            config,
            params.m - LOG_PACKING,
            w,
            codeword,
            tree,
            before,
            x_history,
            x,
        ),
        opened(
            combiner,
            kernels,
            config,
            params.m - LOG_PACKING,
            w,
            codeword,
            tree,
            before,
            y_history,
            y,
        ),
        obeys(x_history, before.len(), rule),
        obeys(y_history, before.len(), rule),
    ensures
        x.ring_switches@ == y.ring_switches@,
        x.ligerito@ == y.ligerito@,
        x_history == y_history,
{
    let log_n = params.m - LOG_PACKING;
    let (middle, combined) = choose|middle: Seq<Event>, combined: CombinedClaims<S>|
        {
            &&& before.is_prefix_of(middle)
            &&& #[trigger] combiner.combines(w, before, middle, combined)
            &&& opened_combination(
                kernels,
                config,
                log_n,
                w,
                codeword,
                tree,
                combined,
                middle,
                y_history,
                y,
            )
        };
    crate::ligerito::law_log2_of_power(log_n as nat);
    law_batch_is_combination_and_proof(
        combiner,
        kernels,
        config,
        params,
        w,
        codeword,
        tree,
        before,
        x_history,
        x,
        middle,
        combined,
        y_history,
        y.ligerito,
        rule,
    );
}

/// With a processor provider the opening of a batch is the host's: it succeeds, the
/// provider has folded `initial_k` times, and with equal answers of the transcript, the
/// combination and the kernels the proof and the transcript are those of the host.
pub proof fn law_resident_batch_is_the_hosts<S, B, M, P, A, D>(
    combiner: &B,
    kernels: PcsKernels<M, P, A, D>,
    config: ProverConfig,
    params: PcsParams,
    w: Seq<F128>,
    codeword: Seq<F128>,
    tree: Seq<Digest>,
    before: Seq<Event>,
    calls_before: Seq<PrefixCall>,
    history: Seq<Event>,
    calls: Seq<PrefixCall>,
    res: Result<BatchOpeningProofLigerito<S>, String>,
    host_history: Seq<Event>,
    host_proof: BatchOpeningProofLigerito<S>,
    rule: Rule,
) where
    B: ClaimCombiner<S>,
    M: Fn(&[F128], usize, usize, usize) -> LigeroWitness,
    P: Fn(&[Digest], usize, &[usize]) -> Vec<Digest>,
    A: Fn(usize, usize, &[Vec<F128>], &[F128], &[usize], &[F128]) -> (Vec<F128>, F128),
    D: Fn(usize, &[Vec<F128>], &[F128], &[usize], &[F128]) -> (Vec<F128>, F128),

    requires
        kernels_functional(kernels),
        combiner_functional(combiner, rule),
        config.recursive_steps >= 1,
        geometry_fits(params, config, w.len(), codeword.len(), tree.len()),
        resident_opened(
            combiner,
            kernels,
            config,
            w,
            codeword,
            tree,
            before,
            calls_before,
            history,
            calls,
            res,
        ),
        prefix_log_fits(calls, StartedFault::Absent),
        prefix_state(calls_before).advances + config.initial_k <= usize::MAX,
        prefix_state(calls_before).finishes < usize::MAX,
        opened(
            combiner,
            kernels,
            config,
            params.m - LOG_PACKING,
            w,
            codeword,
            tree,
            before,
            host_history,
            host_proof,
        ),
        obeys(history, before.len(), rule),
        obeys(host_history, before.len(), rule),
    ensures
        res matches Ok(proof) && proof.ring_switches@ == host_proof.ring_switches@
            && proof.ligerito@ == host_proof.ligerito@,
        history == host_history,
        prefix_state(calls).advances == prefix_state(calls_before).advances + config.initial_k,
        prefix_state(calls).finishes == prefix_state(calls_before).finishes + 1,
        prefix_state(calls).a == Seq::<F128>::empty(),
        prefix_state(calls).b == Seq::<F128>::empty(),
{
    let log_n = params.m - LOG_PACKING;
    let (middle, combined) = choose|middle: Seq<Event>, combined: CombinedClaims<S>|
        {
            &&& before.is_prefix_of(middle)
            &&& combined.b_combined@.len() == w.len()
            &&& #[trigger] combiner.combines(w, before, middle, combined)
            &&& res matches Ok(proof) ==> proof.ring_switches == combined.ring_switches
            &&& begun_outcome(
                kernels,
                config,
                w,
                combined.b_combined@,
                combined.target_combined,
                codeword,
                tree,
                Some(
                    SumcheckMessage {
                        u_0: combined.round0_prime.0,
                        u_2: combined.round0_prime.1,
                    },
                ),
                middle,
                calls_before,
                history,
                calls,
                recursive_part(res),
            )
        };
    let first = SumcheckMessage { u_0: combined.round0_prime.0, u_2: combined.round0_prime.1 };
    crate::ligerito::law_log2_of_power(log_n as nat);
    law_processor_opening_is_a_host_proof(
        kernels,
        config,
        w,
        combined.b_combined@,
        combined.target_combined,
        codeword,
        tree,
        Some(first),
        middle,
        calls_before,
        history,
        calls,
        recursive_part(res),
    );
    if let Ok(proof) = res {
        assert(opened_combination(
            kernels,
            config,
            log_n,
            w,
            codeword,
            tree,
            combined,
            middle,
            history,
            proof,
        ));
        law_batch_opening_is_unique(
            combiner,
            kernels,
            config,
            params,
            w,
            codeword,
            tree,
            before,
            history,
            proof,
            host_history,
            host_proof,
            rule,
        );
    }
}

/// Combining direct claims draws one factor for every claim and does nothing else to the
/// transcript; the basis, the target and the first message are plain sums over all claims.
pub proof fn law_direct_claims_are_drawn_and_summed<S>(
    witness: Seq<F128>,
    claims: DirectClaims,
    before: Seq<Event>,
    after: Seq<Event>,
    combined: CombinedClaims<S>,
)
    requires
        ClaimCombiner::<S>::accepts(&claims, witness),
        ClaimCombiner::<S>::combines(&claims, witness, before, after, combined),
    ensures
        after.len() == before.len() + 1,
        before.is_prefix_of(after),
        combined.ring_switches@.len() == 0,
        combined.b_combined@.len() == witness.len(),
        after.last() matches Event::SampleVec(gammas) && {
            &&& gammas.len() == claims.claims@.len()
            &&& combined.target_combined == sum_upto(
                |i: int| gammas[i] * claims.claims@[i].value,
                gammas.len() as int,
            )
            &&& forall|x: int|
                0 <= x < witness.len() ==> #[trigger] combined.b_combined@[x] == sum_upto(
                    |i: int| gammas[i] * claims.claims@[i].eq_ind@[x],
                    gammas.len() as int,
                )
        },
        witness.len() % 2 == 0 ==> {
            let basis = combined.b_combined@;
            combined.round0_prime == (
                sum_upto(|p: int| witness[2 * p] * basis[2 * p], (witness.len() / 2) as int),
                sum_upto(
                    |p: int|
                        (witness[2 * p] + witness[2 * p + 1]) * (basis[2 * p] + basis[2 * p + 1]),
                    (witness.len() / 2) as int,
                ),
            )
        },
{
    let list = claims.claims@;
    let gammas = choose|gammas: Seq<F128>| #[trigger]
        drawn_and_combined(witness, list, before, after, gammas, combined);
    let n = list.len() as int;
    let basis = combined.b_combined@;
    law_combined_target_is_a_sum(list, gammas, n);
    assert forall|x: int| 0 <= x < witness.len() implies #[trigger] basis[x] == sum_upto(
        |i: int| gammas[i] * list[i].eq_ind@[x],
        n,
    ) by {
        law_combined_basis_is_a_sum(witness.len(), list, gammas, n, x);
    }
    law_combined_basis_is_a_sum(witness.len(), list, gammas, n, 0);
    if witness.len() % 2 == 0 {
        law_message_parts(witness, basis);
    }
}

} // verus!
