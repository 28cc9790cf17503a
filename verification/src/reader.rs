//! What a reader of an opening proof follows: the claim about the planes, from the
//! statement to the plane that the proof holds in the clear.
//!
//! A reader takes the messages and the values from the proof, the challenges from the
//! transcript and the induced bases with their sums from the opened rows. It never sees
//! the witness plane.
use crate::batch::{drawn_and_combined, opened, ClaimCombiner, DirectClaims};
use crate::faithful::folded_through;
use crate::field::F128;
use crate::host::first_oracle;
use crate::ligerito::{
    after_folds, after_phase, after_phases, after_samples, challenges, commit_answered,
    config_fits, entry, eq_table, kernels_ready, opened_oracle, phase_answered, phases_answered,
    plane_log, rows_view, Digest, FoldStep, LastRun, LigeritoProof, LigeroWitness, OodStep, Oracle,
    PcsKernels, PhaseRun, ProverConfig, Session,
};
use crate::multilinear::{fold, sum_upto};
use crate::opening::{
    combined_tables, host_proved, host_start, law_combined_claims_are_true, opened_combination,
    value_terms, BatchOpeningProofLigerito, CombinedClaims, PackedDirectClaim,
};
use crate::running::{
    law_folds_keep_claim, law_proof_keeps_claim, running_folds, running_phase,
    running_phases, running_samples, sums_true, Running,
};
use crate::sumcheck::{combine, inner, message_of, SumcheckMessage};
use crate::transcript::Event;
use vstd::arithmetic::power2::pow2;
use vstd::prelude::*;

verus! {

/// Where a reader stands in a proof.
pub struct Reader {
    /// The claim and the message that belongs to it.
    pub known: Running,
    /// The basis that the claim is about.
    pub basis: Seq<F128>,
    /// How many messages it has read.
    pub messages: nat,
    /// How many out-of-domain values it has read.
    pub values: nat,
}

/// The lists of a proof that a reader goes through.
pub struct Pages {
    pub messages: Seq<SumcheckMessage>,
    pub values: Seq<F128>,
}

/// The lists of this proof.
pub open spec fn pages(proof: LigeritoProof) -> Pages {
    Pages { messages: proof.sumcheck_transcript@, values: proof.ood_values@ }
}

impl Reader {
    /// Before the first fold: the claim of the statement, and the first message.
    pub open spec fn start(pages: Pages, basis: Seq<F128>, target: F128) -> Reader {
        Reader {
            known: Running { claim: target, message: pages.messages[0] },
            basis,
            messages: 1,
            values: 0,
        }
    }

    /// After one fold.
    pub open spec fn folded(self, pages: Pages, r: F128) -> Reader {
        Reader {
            known: self.known.folded(r, pages.messages[self.messages as int]),
            basis: fold(self.basis, r),
            messages: self.messages + 1,
            ..self
        }
    }

    /// After one out-of-domain sample.
    pub open spec fn sampled(self, pages: Pages, step: OodStep) -> Reader {
        Reader {
            known: self.known.glued(
                pages.values[self.values as int],
                pages.messages[self.messages as int],
                step.beta,
            ),
            basis: combine(self.basis, eq_table(step.z), step.beta),
            messages: self.messages + 1,
            values: self.values + 1,
        }
    }

    /// After an induced basis.
    pub open spec fn bound(
        self,
        pages: Pages,
        basis: Seq<F128>,
        sum: F128,
        beta: F128,
    ) -> Reader {
        Reader {
            known: self.known.glued(sum, pages.messages[self.messages as int], beta),
            basis: combine(self.basis, basis, beta),
            messages: self.messages + 1,
            ..self
        }
    }
}

/// A reader after some folds.
pub open spec fn read_folds(at: Reader, pages: Pages, steps: Seq<FoldStep>) -> Reader
    decreases steps.len(),
{
    if steps.len() == 0 {
        at
    } else {
        read_folds(at, pages, steps.drop_last()).folded(pages, steps.last().r)
    }
}

/// A reader after some out-of-domain samples.
pub open spec fn read_samples(at: Reader, pages: Pages, steps: Seq<OodStep>) -> Reader
    decreases steps.len(),
{
    if steps.len() == 0 {
        at
    } else {
        read_samples(at, pages, steps.drop_last()).sampled(pages, steps.last())
    }
}

/// A reader after some phases and the folds after each of them.
pub open spec fn read_phases(at: Reader, pages: Pages, phases: Seq<PhaseRun>) -> Reader
    decreases phases.len(),
{
    if phases.len() == 0 {
        at
    } else {
        let run = phases.last();
        read_folds(
            read_samples(read_phases(at, pages, phases.drop_last()), pages, run.samples).bound(
                pages,
                run.basis,
                run.sum,
                run.beta,
            ),
            pages,
            run.folds,
        )
    }
}

/// A reader at the end of a proof.
pub open spec fn read_proof(
    proof: LigeritoProof,
    basis: Seq<F128>,
    target: F128,
    steps: Seq<FoldStep>,
    phases: Seq<PhaseRun>,
) -> Reader {
    read_phases(
        read_folds(Reader::start(pages(proof), basis, target), pages(proof), steps),
        pages(proof),
        phases,
    )
}

/// A reader accepts: it has read every message and every value, and the plane in the clear
/// has with the final basis the inner product that is claimed.
pub open spec fn accepted(
    proof: LigeritoProof,
    basis: Seq<F128>,
    target: F128,
    steps: Seq<FoldStep>,
    phases: Seq<PhaseRun>,
) -> bool {
    let end = read_proof(proof, basis, target, steps, phases);
    &&& end.messages == proof.sumcheck_transcript@.len()
    &&& end.values == proof.ood_values@.len()
    &&& end.basis.len() == proof.final_proof.yr@.len()
    &&& end.known.claim == inner(proof.final_proof.yr@, end.basis)
}

/// Where a reader stands that has followed a session.
spec fn beside(s: Session, known: Running) -> Reader {
    Reader {
        known,
        basis: s.sumcheck.basis,
        messages: s.sumcheck.messages.len(),
        values: s.ood_values.len(),
    }
}

/// A session has collected a first part of the lists.
spec fn so_far(s: Session, pages: Pages) -> bool {
    &&& s.sumcheck.messages.len() <= pages.messages.len()
    &&& s.ood_values.len() <= pages.values.len()
    &&& forall|i: int|
        0 <= i < s.sumcheck.messages.len() ==> s.sumcheck.messages[i] == pages.messages[i]
    &&& forall|i: int| 0 <= i < s.ood_values.len() ==> s.ood_values[i] == pages.values[i]
}

proof fn lemma_folds_read(
    known: Running,
    s: Session,
    bits: u32,
    steps: Seq<FoldStep>,
    pages: Pages,
)
    requires
        so_far(after_folds(s, bits, steps), pages),
    ensures
        so_far(s, pages),
        read_folds(beside(s, known), pages, steps) == beside(
            after_folds(s, bits, steps),
            running_folds(known, s, bits, steps),
        ),
    decreases steps.len(),
{
    if steps.len() > 0 {
        let before = after_folds(s, bits, steps.drop_last());
        let after = after_folds(s, bits, steps);
        let n = before.sumcheck.messages.len();
        assert forall|i: int| 0 <= i < n implies before.sumcheck.messages[i]
            == pages.messages[i] by {
            assert(before.sumcheck.messages[i] == after.sumcheck.messages[i]);
        }
        lemma_folds_read(known, s, bits, steps.drop_last(), pages);
        assert(after.sumcheck.messages.last() == pages.messages[n as int]);
    }
}

proof fn lemma_samples_read(known: Running, s: Session, steps: Seq<OodStep>, pages: Pages)
    requires
        so_far(after_samples(s, steps), pages),
    ensures
        so_far(s, pages),
        read_samples(beside(s, known), pages, steps) == beside(
            after_samples(s, steps),
            running_samples(known, s, steps),
        ),
    decreases steps.len(),
{
    if steps.len() > 0 {
        let before = after_samples(s, steps.drop_last());
        let after = after_samples(s, steps);
        let n = before.sumcheck.messages.len();
        let v = before.ood_values.len();
        assert forall|i: int| 0 <= i < n implies before.sumcheck.messages[i]
            == pages.messages[i] by {
            assert(before.sumcheck.messages[i] == after.sumcheck.messages[i]);
        }
        assert forall|i: int| 0 <= i < v implies before.ood_values[i] == pages.values[i] by {
            assert(before.ood_values[i] == after.ood_values[i]);
        }
        lemma_samples_read(known, s, steps.drop_last(), pages);
        assert(after.sumcheck.messages.last() == pages.messages[n as int]);
        assert(after.ood_values.last() == pages.values[v as int]);
    }
}

proof fn lemma_phases_read(
    known: Running,
    s: Session,
    config: ProverConfig,
    first: Oracle,
    phases: Seq<PhaseRun>,
    pages: Pages,
)
    requires
        so_far(after_phases(s, config, first, phases), pages),
    ensures
        so_far(s, pages),
        read_phases(beside(s, known), pages, phases) == beside(
            after_phases(s, config, first, phases),
            running_phases(known, s, config, first, phases),
        ),
    decreases phases.len(),
{
    if phases.len() > 0 {
        let p = phases.len() - 1;
        let run = phases.last();
        let earlier = phases.drop_last();
        let reached = after_phases(s, config, first, earlier);
        let previous = opened_oracle(first, phases, p);
        let known_there = running_phases(known, s, config, first, earlier);
        let opened_phase = after_phase(reached, config, p, previous, run);
        let known_here = running_phase(known_there, reached, config, p, previous, run);
        lemma_folds_read(
            known_here,
            opened_phase,
            entry(config.fold_grinding_bits@, p + 1) as u32,
            run.folds,
            pages,
        );
        let sent = reached.committed(run.oracle.root());
        let sampled = after_samples(sent, run.samples);
        let n = sampled.sumcheck.messages.len();
        assert forall|i: int| 0 <= i < n implies sampled.sumcheck.messages[i]
            == pages.messages[i] by {
            assert(sampled.sumcheck.messages[i] == opened_phase.sumcheck.messages[i]);
        }
        assert(opened_phase.sumcheck.messages.last() == pages.messages[n as int]);
        lemma_samples_read(known_there, sent, run.samples, pages);
        lemma_phases_read(known, s, config, first, earlier, pages);
        assert(beside(sent, known_there) == beside(reached, known_there));
    }
}

/// The inducing kernels tell the truth of commitments that the commitment kernel made: for
/// rows opened in the commitment of a plane, the basis has with the plane, folded at the
/// lane challenges, the inner product that they answer.
pub open spec fn inducing_true<M, P, A, D>(kernels: PcsKernels<M, P, A, D>) -> bool where
    M: Fn(&[F128], usize, usize, usize) -> LigeroWitness,
    P: Fn(&[Digest], usize, &[usize]) -> Vec<Digest>,
    A: Fn(usize, usize, &[Vec<F128>], &[F128], &[usize], &[F128]) -> (Vec<F128>, F128),
    D: Fn(usize, &[Vec<F128>], &[F128], &[usize], &[F128]) -> (Vec<F128>, F128),
 {
    &&& forall|
        plane: &[F128],
        columns: usize,
        interleaved: usize,
        rate: usize,
        w: LigeroWitness,
        rows: &[Vec<F128>],
        lanes: &[F128],
        picks: &[usize],
        alpha: &[F128],
        out: (Vec<F128>, F128),
    |
        #[trigger] call_ensures(kernels.commit, (plane, columns, interleaved, rate), w)
            && #[trigger] call_ensures(
            kernels.induce_initial,
            (columns, rate, rows, lanes, picks, alpha),
            out,
        ) && rows_view(rows@) == w@.rows(picks@) && lanes@.len() == interleaved ==> inner(
            folded_through(plane@, lanes@),
            out.0@,
        ) == out.1
    &&& forall|
        plane: &[F128],
        columns: usize,
        interleaved: usize,
        rate: usize,
        w: LigeroWitness,
        rows: &[Vec<F128>],
        lanes: &[F128],
        picks: &[usize],
        alpha: &[F128],
        out: (Vec<F128>, F128),
    |
        #[trigger] call_ensures(kernels.commit, (plane, columns, interleaved, rate), w)
            && #[trigger] call_ensures(
            kernels.induce,
            (columns, rows, lanes, picks, alpha),
            out,
        ) && rows_view(rows@) == w@.rows(picks@) && lanes@.len() == interleaved ==> inner(
            folded_through(plane@, lanes@),
            out.0@,
        ) == out.1
}

pub(crate) proof fn lemma_folds_fold_the_plane(s: Session, bits: u32, steps: Seq<FoldStep>)
    ensures
        after_folds(s, bits, steps).sumcheck.f == folded_through(
            s.sumcheck.f,
            challenges(steps),
        ),
    decreases steps.len(),
{
    if steps.len() > 0 {
        lemma_folds_fold_the_plane(s, bits, steps.drop_last());
        assert(challenges(steps).drop_last() =~= challenges(steps.drop_last()));
    } else {
        assert(challenges(steps) =~= Seq::empty());
    }
}

pub(crate) proof fn lemma_samples_keep_the_plane(s: Session, steps: Seq<OodStep>)
    ensures
        after_samples(s, steps).sumcheck.f == s.sumcheck.f,
    decreases steps.len(),
{
    if steps.len() > 0 {
        lemma_samples_keep_the_plane(s, steps.drop_last());
    }
}

/// The plane before a phase is the plane of the commitment that the phase opens, folded at
/// the challenges since.
spec fn plane_follows<M>(
    commit: M,
    f: Seq<F128>,
    plane: Seq<F128>,
    columns: usize,
    interleaved: usize,
    rate: usize,
    oracle: Oracle,
    lanes: Seq<F128>,
) -> bool where M: Fn(&[F128], usize, usize, usize) -> LigeroWitness {
    &&& commit_answered(commit, plane, columns, interleaved, rate, oracle)
    &&& lanes.len() == interleaved
    &&& f == folded_through(plane, lanes)
}

proof fn lemma_phase_sum_true<M, P, A, D>(
    kernels: PcsKernels<M, P, A, D>,
    config: ProverConfig,
    p: int,
    n: int,
    f: Seq<F128>,
    previous: Oracle,
    lanes: Seq<F128>,
    run: PhaseRun,
    plane: Seq<F128>,
    interleaved: usize,
    rate: usize,
) where
    M: Fn(&[F128], usize, usize, usize) -> LigeroWitness,
    P: Fn(&[Digest], usize, &[usize]) -> Vec<Digest>,
    A: Fn(usize, usize, &[Vec<F128>], &[F128], &[usize], &[F128]) -> (Vec<F128>, F128),
    D: Fn(usize, &[Vec<F128>], &[F128], &[usize], &[F128]) -> (Vec<F128>, F128),

    requires
        inducing_true(kernels),
        phase_answered(kernels, config, p, n, f, previous, lanes, run),
        plane_follows(
            kernels.commit,
            f,
            plane,
            n as usize,
            interleaved,
            rate,
            previous,
            lanes,
        ),
        p == 0 ==> rate == config.log_inv_rates@[0],
    ensures
        inner(f, run.basis) == run.sum,
{
    let columns = n as usize;
    let (g, w) = choose|g: &[F128], w: LigeroWitness| #[trigger]
        call_ensures(kernels.commit, (g, columns, interleaved, rate), w) && g@ == plane && w@
            == previous;
    if p == 0 {
        let (r, l, q, a, out) = choose|
            r: &[Vec<F128>],
            l: &[F128],
            q: &[usize],
            a: &[F128],
            out: (Vec<F128>, F128),
        | #[trigger]
            call_ensures(kernels.induce_initial, (columns, rate, r, l, q, a), out) && rows_view(r@)
                == previous.rows(run.picks) && l@ == lanes && q@ == run.picks && a@ == run.alpha
                && out.0@ == run.basis && out.1 == run.sum;
        assert(call_ensures(kernels.commit, (g, columns, interleaved, rate), w));
        assert(call_ensures(kernels.induce_initial, (columns, rate, r, l, q, a), out));
    } else {
        let (r, l, q, a, out) = choose|
            r: &[Vec<F128>],
            l: &[F128],
            q: &[usize],
            a: &[F128],
            out: (Vec<F128>, F128),
        | #[trigger]
            call_ensures(kernels.induce, (columns, r, l, q, a), out) && rows_view(r@)
                == previous.rows(run.picks) && l@ == lanes && q@ == run.picks && a@ == run.alpha
                && out.0@ == run.basis && out.1 == run.sum;
        assert(call_ensures(kernels.commit, (g, columns, interleaved, rate), w));
        assert(call_ensures(kernels.induce, (columns, r, l, q, a), out));
    }
}

/// Kernels that tell the truth make every sum of a proof true, where the first commitment
/// is one that the commitment kernel made of the witness.
pub proof fn law_true_kernels_give_true_sums<M, P, A, D>(
    kernels: PcsKernels<M, P, A, D>,
    config: ProverConfig,
    log_n: int,
    s: Session,
    w: Seq<F128>,
    first: Oracle,
    prefix: Seq<F128>,
    phases: Seq<PhaseRun>,
) where
    M: Fn(&[F128], usize, usize, usize) -> LigeroWitness,
    P: Fn(&[Digest], usize, &[usize]) -> Vec<Digest>,
    A: Fn(usize, usize, &[Vec<F128>], &[F128], &[usize], &[F128]) -> (Vec<F128>, F128),
    D: Fn(usize, &[Vec<F128>], &[F128], &[usize], &[F128]) -> (Vec<F128>, F128),

    requires
        inducing_true(kernels),
        phases_answered(kernels, config, log_n, s, first, prefix, phases),
        commit_answered(
            kernels.commit,
            w,
            (log_n - config.initial_k) as usize,
            config.initial_k,
            config.log_inv_rates@[0],
            first,
        ),
        prefix.len() == config.initial_k,
        s.sumcheck.f == folded_through(w, prefix),
    ensures
        sums_true(s, config, first, phases),
    decreases phases.len(),
{
    if phases.len() > 0 {
        let p = phases.len() - 1;
        let before = phases.drop_last();
        law_true_kernels_give_true_sums(kernels, config, log_n, s, w, first, prefix, before);
        let reached = after_phases(s, config, first, before);
        let n = plane_log(config, log_n, p);
        if p == 0 {
            lemma_phase_sum_true(
                kernels,
                config,
                p,
                n,
                reached.sumcheck.f,
                first,
                prefix,
                phases.last(),
                w,
                config.initial_k,
                config.log_inv_rates@[0],
            );
        } else {
            let run = before.last();
            let earlier = after_phases(s, config, first, before.drop_last());
            let opened = opened_oracle(first, before, p - 1);
            let sent = earlier.committed(run.oracle.root());
            let phase = after_phase(earlier, config, p - 1, opened, run);
            lemma_samples_keep_the_plane(sent, run.samples);
            lemma_folds_fold_the_plane(
                phase,
                entry(config.fold_grinding_bits@, p) as u32,
                run.folds,
            );
            assert(phase.sumcheck.f == earlier.sumcheck.f);
            assert(phases[p - 1] == run);
            assert(phases_answered(kernels, config, log_n, s, first, prefix, before));
            assert(n == plane_log(config, log_n, p - 1) - config.recursive_ks@[p - 1]);
            assert(commit_answered(
                kernels.commit,
                earlier.sumcheck.f,
                n as usize,
                config.recursive_ks@[p - 1],
                config.log_inv_rates@[p],
                run.oracle,
            ));
            assert(reached.sumcheck.f == folded_through(
                earlier.sumcheck.f,
                challenges(run.folds),
            ));
            lemma_phase_sum_true(
                kernels,
                config,
                p,
                n,
                reached.sumcheck.f,
                run.oracle,
                challenges(run.folds),
                phases.last(),
                earlier.sumcheck.f,
                config.recursive_ks@[p - 1],
                config.log_inv_rates@[p],
            );
        }
    }
}

/// The kernels tell the truth, and the codeword and the tree are what the commitment kernel
/// made of the witness.
pub open spec fn honest<M, P, A, D>(
    kernels: PcsKernels<M, P, A, D>,
    config: ProverConfig,
    log_n: int,
    w: Seq<F128>,
    codeword: Seq<F128>,
    tree: Seq<Digest>,
) -> bool where
    M: Fn(&[F128], usize, usize, usize) -> LigeroWitness,
    P: Fn(&[Digest], usize, &[usize]) -> Vec<Digest>,
    A: Fn(usize, usize, &[Vec<F128>], &[F128], &[usize], &[F128]) -> (Vec<F128>, F128),
    D: Fn(usize, &[Vec<F128>], &[F128], &[usize], &[F128]) -> (Vec<F128>, F128),
 {
    &&& kernels_ready(kernels)
    &&& inducing_true(kernels)
    &&& config.initial_k <= log_n
    &&& config_fits(config, log_n, codeword.len(), tree.len())
    &&& w.len() == pow2(log_n as nat)
    &&& commit_answered(
        kernels.commit,
        w,
        (log_n - config.initial_k) as usize,
        config.initial_k,
        config.log_inv_rates@[0],
        first_oracle(config, log_n, codeword, tree),
    )
}

/// An opening of a true claim is accepted: a reader who follows the proof that the host
/// made for a target which is the inner product of witness and basis, with the true first
/// message, ends with the inner product of the plane in the clear and the final basis.
pub proof fn law_true_opening_is_accepted<M, P, A, D>(
    kernels: PcsKernels<M, P, A, D>,
    config: ProverConfig,
    log_n: int,
    history_before: Seq<Event>,
    f: Seq<F128>,
    basis: Seq<F128>,
    target: F128,
    first: SumcheckMessage,
    codeword: Seq<F128>,
    tree: Seq<Digest>,
    steps: Seq<FoldStep>,
    phases: Seq<PhaseRun>,
    last: LastRun,
    history: Seq<Event>,
    proof: LigeritoProof,
) where
    M: Fn(&[F128], usize, usize, usize) -> LigeroWitness,
    P: Fn(&[Digest], usize, &[usize]) -> Vec<Digest>,
    A: Fn(usize, usize, &[Vec<F128>], &[F128], &[usize], &[F128]) -> (Vec<F128>, F128),
    D: Fn(usize, &[Vec<F128>], &[F128], &[usize], &[F128]) -> (Vec<F128>, F128),

    requires
        honest(kernels, config, log_n, f, codeword, tree),
        basis.len() == f.len(),
        target == inner(f, basis),
        first == message_of(f, basis),
        host_proved(
            kernels,
            config,
            log_n,
            host_start(history_before, f, basis, target, tree.last(), first),
            codeword,
            tree,
            steps,
            phases,
            last,
            history,
            proof,
        ),
    ensures
        accepted(proof, basis, target, steps, phases),
        proof.final_proof.yr@.len() == pow2(
            plane_log(config, log_n, config.recursive_steps as int) as nat,
        ),
{
    let start = host_start(history_before, f, basis, target, tree.last(), first);
    let bits = entry(config.fold_grinding_bits@, 0) as u32;
    let s = after_folds(start, bits, steps);
    let oracle = first_oracle(config, log_n, codeword, tree);
    let known = Running { claim: target, message: first };
    let known_folded = running_folds(known, start, bits, steps);
    let end = after_phases(s, config, oracle, phases);
    lemma_folds_fold_the_plane(start, bits, steps);
    law_true_kernels_give_true_sums(
        kernels,
        config,
        log_n,
        s,
        f,
        oracle,
        challenges(steps),
        phases,
    );
    law_folds_keep_claim(known, start, bits, steps, log_n as nat);
    law_proof_keeps_claim(
        kernels,
        config,
        log_n,
        s,
        oracle,
        challenges(steps),
        phases,
        last,
        history,
        proof,
        codeword.len(),
        tree.len(),
        known_folded,
    );
    assert(so_far(end, pages(proof)));
    lemma_phases_read(known_folded, s, config, oracle, phases, pages(proof));
    lemma_folds_read(known, start, bits, steps, pages(proof));
    assert(start.sumcheck.messages[0] == first);
    assert(Reader::start(pages(proof), basis, target) == beside(start, known));
}

/// A proof, with what the transcript and the kernels gave out for it, that a reader accepts.
pub open spec fn proved_and_accepted<M, P, A, D>(
    kernels: PcsKernels<M, P, A, D>,
    config: ProverConfig,
    log_n: int,
    start: Session,
    basis: Seq<F128>,
    target: F128,
    codeword: Seq<F128>,
    tree: Seq<Digest>,
    steps: Seq<FoldStep>,
    phases: Seq<PhaseRun>,
    last: LastRun,
    history: Seq<Event>,
    proof: LigeritoProof,
) -> bool where
    M: Fn(&[F128], usize, usize, usize) -> LigeroWitness,
    P: Fn(&[Digest], usize, &[usize]) -> Vec<Digest>,
    A: Fn(usize, usize, &[Vec<F128>], &[F128], &[usize], &[F128]) -> (Vec<F128>, F128),
    D: Fn(usize, &[Vec<F128>], &[F128], &[usize], &[F128]) -> (Vec<F128>, F128),
 {
    &&& host_proved(
        kernels,
        config,
        log_n,
        start,
        codeword,
        tree,
        steps,
        phases,
        last,
        history,
        proof,
    )
    &&& accepted(proof, basis, target, steps, phases)
}

/// What a batch of direct claims is to its reader: the factors drawn, the tables and the
/// values of the claims combined with them, and a proof of that target for that basis which
/// a reader accepts.
pub open spec fn batch_accepted<M, P, A, D>(
    kernels: PcsKernels<M, P, A, D>,
    config: ProverConfig,
    log_n: int,
    w: Seq<F128>,
    claims: Seq<PackedDirectClaim>,
    codeword: Seq<F128>,
    tree: Seq<Digest>,
    before: Seq<Event>,
    gammas: Seq<F128>,
    steps: Seq<FoldStep>,
    phases: Seq<PhaseRun>,
    last: LastRun,
    history: Seq<Event>,
    proof: LigeritoProof,
) -> bool where
    M: Fn(&[F128], usize, usize, usize) -> LigeroWitness,
    P: Fn(&[Digest], usize, &[usize]) -> Vec<Digest>,
    A: Fn(usize, usize, &[Vec<F128>], &[F128], &[usize], &[F128]) -> (Vec<F128>, F128),
    D: Fn(usize, &[Vec<F128>], &[F128], &[usize], &[F128]) -> (Vec<F128>, F128),
 {
    let basis = combined_tables(w.len(), claims, gammas, claims.len() as int);
    let target = sum_upto(value_terms(claims, gammas), claims.len() as int);
    &&& gammas.len() == claims.len()
    &&& proved_and_accepted(
        kernels,
        config,
        log_n,
        host_start(
            before.push(Event::SampleVec(gammas)),
            w,
            basis,
            target,
            tree.last(),
            message_of(w, basis),
        ),
        basis,
        target,
        codeword,
        tree,
        steps,
        phases,
        last,
        history,
        proof,
    )
}

/// A batch of true direct claims is accepted.
pub proof fn law_true_batch_is_accepted<S, M, P, A, D>(
    claims: DirectClaims,
    kernels: PcsKernels<M, P, A, D>,
    config: ProverConfig,
    log_n: int,
    w: Seq<F128>,
    codeword: Seq<F128>,
    tree: Seq<Digest>,
    before: Seq<Event>,
    history: Seq<Event>,
    proof: BatchOpeningProofLigerito<S>,
) where
    M: Fn(&[F128], usize, usize, usize) -> LigeroWitness,
    P: Fn(&[Digest], usize, &[usize]) -> Vec<Digest>,
    A: Fn(usize, usize, &[Vec<F128>], &[F128], &[usize], &[F128]) -> (Vec<F128>, F128),
    D: Fn(usize, &[Vec<F128>], &[F128], &[usize], &[F128]) -> (Vec<F128>, F128),

    requires
        honest(kernels, config, log_n, w, codeword, tree),
        forall|i: int|
            0 <= i < claims.claims@.len() ==> (#[trigger] claims.claims@[i]).eq_ind@.len()
                == w.len() && claims.claims@[i].value == inner(w, claims.claims@[i].eq_ind@),
        opened(&claims, kernels, config, log_n, w, codeword, tree, before, history, proof),
    ensures
        exists|
            gammas: Seq<F128>,
            steps: Seq<FoldStep>,
            phases: Seq<PhaseRun>,
            last: LastRun,
        | #[trigger]
            batch_accepted(
                kernels,
                config,
                log_n,
                w,
                claims.claims@,
                codeword,
                tree,
                before,
                gammas,
                steps,
                phases,
                last,
                history,
                proof.ligerito,
            ),
{
    let list = claims.claims@;
    let count = list.len() as int;
    let (middle, combined) = choose|middle: Seq<Event>, combined: CombinedClaims<S>|
        {
            &&& before.is_prefix_of(middle)
            &&& #[trigger] claims.combines(w, before, middle, combined)
            &&& opened_combination(
                kernels,
                config,
                log_n,
                w,
                codeword,
                tree,
                combined,
                middle,
                history,
                proof,
            )
        };
    let gammas = choose|gammas: Seq<F128>| #[trigger]
        drawn_and_combined(w, list, before, middle, gammas, combined);
    law_combined_claims_are_true(w, list, gammas, count);
    let basis = combined_tables(w.len(), list, gammas, count);
    let target = sum_upto(value_terms(list, gammas), count);
    let first = message_of(w, basis);
    let start = host_start(middle, w, basis, target, tree.last(), first);
    let (steps, phases, last) = choose|
        steps: Seq<FoldStep>,
        phases: Seq<PhaseRun>,
        last: LastRun,
    | #[trigger]
        host_proved(
            kernels,
            config,
            log_n,
            start,
            codeword,
            tree,
            steps,
            phases,
            last,
            history,
            proof.ligerito,
        );
    law_true_opening_is_accepted(
        kernels,
        config,
        log_n,
        middle,
        w,
        basis,
        target,
        first,
        codeword,
        tree,
        steps,
        phases,
        last,
        history,
        proof.ligerito,
    );
    assert(batch_accepted(
        kernels,
        config,
        log_n,
        w,
        list,
        codeword,
        tree,
        before,
        gammas,
        steps,
        phases,
        last,
        history,
        proof.ligerito,
    ));
}

} // verus!
