//! Opening proofs whose first folds an external arithmetic provider makes.
//!
//! The host owns every transcript operation. A provider folds the two planes while
//! they are large, and hands them over before the first phase of the proof.
use crate::field::F128;
use crate::host::{complete, entry_or_zero, first_oracle, tapered, Host};
use crate::ligerito::{
    completed, config_fits, entry, exact_log2, is_power, kernels_ready, log2_of, statement, taper,
    Digest, FoldStep, LastRun, LigeritoProof, LigeroWitness, Oracle, PcsKernels, PhaseRun,
    ProverConfig, Session,
};
use crate::multilinear::{power_of_two, sum_upto};
use crate::sumcheck::{compute_message, message_of, SumcheckMessage, SumcheckProver, SumcheckState};
use crate::transcript::{Challenger, Event};
use crate::zerocheck::planes_reply;
use vstd::arithmetic::power2::pow2;
use vstd::prelude::*;

verus! {

/// One call of a provider, with its reply.
pub enum PrefixCall {
    Begin { f: Seq<F128>, basis: Seq<F128>, refusal: Option<String> },
    Advance { rho: F128, reply: Result<SumcheckMessage, String> },
    Finish { planes: Result<(Seq<F128>, Seq<F128>), String> },
}

/// The error of a reply without a value.
pub open spec fn refusal(res: Result<(), String>) -> Option<String> {
    match res {
        Ok(_) => None,
        Err(e) => Some(e),
    }
}

/// The text of the error of a reply without a value.
pub open spec fn refusal_text(res: Result<(), String>) -> Option<Seq<char>> {
    match res {
        Ok(_) => None,
        Err(e) => Some(e@),
    }
}

/// Synchronous trusted arithmetic provider for the first folds.
///
/// An error after admission may follow transcript mutation: abandon that attempt,
/// never replay it on the same challenger. Implementations must release what they
/// own when they fail.
pub trait InitialFoldBackend {
    /// Every call that may change this provider, in order, with its reply.
    closed spec fn calls(&self) -> Seq<PrefixCall> {
        arbitrary()
    }

    /// Numbers for what this provider was made with. No call changes them.
    closed spec fn setup(&self) -> Seq<int> {
        arbitrary()
    }

    /// What this provider keeps true of itself and its log from call to call.
    closed spec fn consistent(&self) -> bool {
        arbitrary()
    }

    /// The error that `admit_prefix` answers with, if any.
    closed spec fn admission(&self, rows: usize, rounds: usize) -> Option<Seq<char>> {
        arbitrary()
    }

    /// Pure shape admission, called before the transcript is touched.
    fn admit_prefix(&self, rows: usize, rounds: usize) -> (res: Result<(), String>)
        ensures
            refusal_text(res) == self.admission(rows, rounds),
    ;

    /// Takes over the exact planes.
    fn begin(&mut self, f: Vec<F128>, basis: Vec<F128>) -> (res: Result<(), String>)
        ensures
            final(self).setup() == old(self).setup(),
            old(self).consistent() ==> final(self).consistent(),
            final(self).calls() == old(self).calls().push(
                PrefixCall::Begin { f: f@, basis: basis@, refusal: refusal(res) },
            ),
    ;

    /// Folds once at the host challenge `rho`, and returns the unweighted message.
    fn advance(&mut self, rho: F128) -> (res: Result<SumcheckMessage, String>)
        ensures
            final(self).setup() == old(self).setup(),
            old(self).consistent() ==> final(self).consistent(),
            final(self).calls() == old(self).calls().push(PrefixCall::Advance { rho, reply: res }),
    ;

    /// Hands over both planes as folded; no further fold.
    fn finish(&mut self) -> (res: Result<(Vec<F128>, Vec<F128>), String>)
        ensures
            final(self).setup() == old(self).setup(),
            old(self).consistent() ==> final(self).consistent(),
            final(self).calls() == old(self).calls().push(
                PrefixCall::Finish { planes: planes_reply(res) },
            ),
    ;
}

/// What one fold by a provider got from outside.
pub struct ProviderStep {
    pub nonce: u64,
    pub r: F128,
    pub message: SumcheckMessage,
}

/// A session after one fold by a provider: the challenge drawn, and the provider's
/// message recorded and sent.
pub open spec fn provided(s: Session, bits: u32, step: ProviderStep) -> Session {
    let drawn = s.challenged(bits, FoldStep { nonce: step.nonce, r: step.r });
    let sumcheck = SumcheckState {
        messages: drawn.sumcheck.messages.push(step.message),
        ..drawn.sumcheck
    };
    Session { sumcheck, ..drawn }.sent(step.message)
}

/// A session after some folds by a provider.
pub open spec fn after_provided(s: Session, bits: u32, steps: Seq<ProviderStep>) -> Session
    decreases steps.len(),
{
    if steps.len() == 0 {
        s
    } else {
        provided(
            after_provided(s, bits, steps.drop_last()),
            taper(bits, steps.len() - 1),
            steps.last(),
        )
    }
}

/// The folding calls of a provider, all answered.
pub open spec fn fold_calls(steps: Seq<ProviderStep>) -> Seq<PrefixCall> {
    Seq::new(
        steps.len(),
        |i: int| PrefixCall::Advance { rho: steps[i].r, reply: Ok(steps[i].message) },
    )
}

/// The challenges of some folds.
pub open spec fn provider_challenges(steps: Seq<ProviderStep>) -> Seq<F128> {
    Seq::new(steps.len(), |i: int| steps[i].r)
}

/// The session with the planes that a provider handed over.
pub open spec fn with_planes(s: Session, f: Seq<F128>, basis: Seq<F128>) -> Session {
    Session { sumcheck: SumcheckState { f, basis, ..s.sumcheck }, ..s }
}

/// The session in which a provider starts to fold. It holds the planes.
pub open spec fn prefix_start(
    history: Seq<Event>,
    target: F128,
    root: Digest,
    first: SumcheckMessage,
) -> Session {
    Session::start(
        history,
        target,
        root,
        SumcheckState::start(Seq::empty(), Seq::empty(), target, first),
    )
}

/// A provider brought the attempt down after the folds `steps`: the transcript and
/// the calls stop at the failing call. If a fold failed, its challenge `pending`
/// had been drawn and nothing was sent. The error is the provider's own, or names
/// a tail of the wrong length.
pub open spec fn prefix_stopped(
    s: Session,
    bits: u32,
    k: usize,
    tail: nat,
    calls_before: Seq<PrefixCall>,
    steps: Seq<ProviderStep>,
    pending: FoldStep,
    history: Seq<Event>,
    calls: Seq<PrefixCall>,
    e: String,
) -> bool {
    let reached = after_provided(s, bits, steps);
    let answered = calls_before + fold_calls(steps);
    ||| {
        &&& steps.len() < k
        &&& history == reached.challenged(taper(bits, steps.len() as int), pending).events
        &&& calls == answered.push(PrefixCall::Advance { rho: pending.r, reply: Err(e) })
    }
    ||| {
        &&& steps.len() == k
        &&& history == reached.events
        &&& calls == answered.push(PrefixCall::Finish { planes: Err(e) })
    }
    ||| {
        &&& steps.len() == k
        &&& history == reached.events
        &&& calls == answered.push(calls.last())
        &&& calls.last() matches PrefixCall::Finish { planes: Ok(planes) } && (planes.0.len()
            != tail || planes.1.len() != tail)
        &&& e@ == "resident PCS tail shape"@
    }
}

/// Some folds went well before the provider brought the attempt down.
pub open spec fn prefix_failed(
    s: Session,
    bits: u32,
    k: usize,
    tail: nat,
    calls_before: Seq<PrefixCall>,
    history: Seq<Event>,
    calls: Seq<PrefixCall>,
    e: String,
) -> bool {
    exists|steps: Seq<ProviderStep>, pending: FoldStep| #[trigger]
        prefix_stopped(s, bits, k, tail, calls_before, steps, pending, history, calls, e)
}

/// The two operations that folding needs of a provider of kind `K`.
pub trait FoldRounds<K> {
    /// Every call that may change the provider, in order, with its reply.
    spec fn log(&self) -> Seq<PrefixCall>;

    /// Numbers for what the provider was made with.
    spec fn made_with(&self) -> Seq<int>;

    /// What the provider keeps true of itself and its log.
    spec fn kept(&self) -> bool;

    /// Folds once, and returns the message.
    fn next_message(&mut self, rho: F128) -> (res: Result<SumcheckMessage, String>)
        ensures
            final(self).made_with() == old(self).made_with(),
            old(self).kept() ==> final(self).kept(),
            final(self).log() == old(self).log().push(PrefixCall::Advance { rho, reply: res }),
    ;

    /// Hands over both planes.
    fn hand_over(&mut self) -> (res: Result<(Vec<F128>, Vec<F128>), String>)
        ensures
            final(self).made_with() == old(self).made_with(),
            old(self).kept() ==> final(self).kept(),
            final(self).log() == old(self).log().push(
                PrefixCall::Finish { planes: planes_reply(res) },
            ),
    ;
}

/// The kind of providers that the host hands its planes to.
pub struct HandedPlanes;

impl<B: InitialFoldBackend + ?Sized> FoldRounds<HandedPlanes> for B {
    open spec fn log(&self) -> Seq<PrefixCall> {
        self.calls()
    }

    open spec fn made_with(&self) -> Seq<int> {
        self.setup()
    }

    open spec fn kept(&self) -> bool {
        self.consistent()
    }

    fn next_message(&mut self, rho: F128) -> (res: Result<SumcheckMessage, String>) {
        self.advance(rho)
    }

    fn hand_over(&mut self) -> (res: Result<(Vec<F128>, Vec<F128>), String>) {
        self.finish()
    }
}

/// The folds of a provider. Returns the planes that it handed over and the
/// challenges.
fn fold_resident<C: Challenger, K, B: FoldRounds<K> + ?Sized>(
    host: &mut Host,
    challenger: &mut C,
    backend: &mut B,
    bits: u32,
    k: usize,
    tail: usize,
) -> (res: Result<(Vec<F128>, Vec<F128>, Vec<F128>, Ghost<Seq<ProviderStep>>), String>)
    ensures
        old(challenger).consistent() ==> final(challenger).consistent(),
        final(backend).made_with() == old(backend).made_with(),
        old(backend).kept() ==> final(backend).kept(),
        match res {
            Ok((f, basis, rs, steps)) => {
                &&& steps@.len() == k
                &&& rs@ == provider_challenges(steps@)
                &&& f@.len() == tail
                &&& basis@.len() == tail
                &&& final(host).session(final(challenger).history()) == after_provided(
                    old(host).session(old(challenger).history()),
                    bits,
                    steps@,
                )
                &&& final(host).openings == old(host).openings
                &&& final(backend).log() == (old(backend).log() + fold_calls(steps@)).push(
                    PrefixCall::Finish { planes: Ok((f@, basis@)) },
                )
            },
            Err(e) => prefix_failed(
                old(host).session(old(challenger).history()),
                bits,
                k,
                tail as nat,
                old(backend).log(),
                final(challenger).history(),
                final(backend).log(),
                e,
            ),
        },
{
    let ghost start = host.session(challenger.history());
    let ghost c0 = backend.log();
    let ghost mut steps: Seq<ProviderStep> = Seq::empty();
    let mut rs: Vec<F128> = Vec::new();
    let mut j: usize = 0;
    assert(rs@ =~= provider_challenges(steps));
    assert(backend.log() =~= c0 + fold_calls(steps));
    while j < k
        invariant
            old(challenger).consistent() ==> challenger.consistent(),
            backend.made_with() == old(backend).made_with(),
            old(backend).kept() ==> backend.kept(),
            j <= k,
            start == old(host).session(old(challenger).history()),
            c0 == old(backend).log(),
            steps.len() == j,
            rs@ == provider_challenges(steps),
            host.openings == old(host).openings,
            host.session(challenger.history()) == after_provided(start, bits, steps),
            backend.log() == c0 + fold_calls(steps),
        decreases k - j,
    {
        let ghost before = host.session(challenger.history());
        let t = tapered(bits, j);
        let (nonce, r) = host.draw_fold_challenge(challenger, t);
        let message = match backend.next_message(r) {
            Err(e) => {
                proof {
                    let pending = FoldStep { nonce, r };
                    assert(challenger.history() == before.challenged(t, pending).events);
                    assert(prefix_stopped(
                        start,
                        bits,
                        k,
                        tail as nat,
                        c0,
                        steps,
                        pending,
                        challenger.history(),
                        backend.log(),
                        e,
                    ));
                }
                return Err(e);
            },
            Ok(message) => message,
        };
        host.prover.transcript.push(message);
        Host::send(challenger, message);
        rs.push(r);
        proof {
            let step = ProviderStep { nonce, r, message };
            assert(host.session(challenger.history()) =~= provided(before, t, step));
            assert(steps.push(step).drop_last() =~= steps);
            assert(backend.log() =~= c0 + fold_calls(steps.push(step)));
            steps = steps.push(step);
            assert(rs@ =~= provider_challenges(steps));
        }
        j = j + 1;
    }
    let ghost pending = arbitrary::<FoldStep>();
    let (f, basis) = match backend.hand_over() {
        Err(e) => {
            assert(prefix_stopped(
                start,
                bits,
                k,
                tail as nat,
                c0,
                steps,
                pending,
                challenger.history(),
                backend.log(),
                e,
            ));
            return Err(e);
        },
        Ok(planes) => planes,
    };
    if f.len() != tail || basis.len() != tail {
        let e = "resident PCS tail shape".to_string();
        assert(prefix_stopped(
            start,
            bits,
            k,
            tail as nat,
            c0,
            steps,
            pending,
            challenger.history(),
            backend.log(),
            e,
        ));
        return Err(e);
    }
    Ok((f, basis, rs, Ghost(steps)))
}

/// A proof whose first folds a provider made: it folded `initial_k` times, handed
/// over planes of the right length, and the host went on from there.
pub open spec fn prefix_proved<M, P, A, D>(
    kernels: PcsKernels<M, P, A, D>,
    config: ProverConfig,
    log_n: int,
    first: Oracle,
    s: Session,
    calls_before: Seq<PrefixCall>,
    steps: Seq<ProviderStep>,
    planes: (Seq<F128>, Seq<F128>),
    phases: Seq<PhaseRun>,
    last: LastRun,
    history: Seq<Event>,
    calls: Seq<PrefixCall>,
    proof: LigeritoProof,
) -> bool where
    M: Fn(&[F128], usize, usize, usize) -> LigeroWitness,
    P: Fn(&[Digest], usize, &[usize]) -> Vec<Digest>,
    A: Fn(usize, usize, &[Vec<F128>], &[F128], &[usize], &[F128]) -> (Vec<F128>, F128),
    D: Fn(usize, &[Vec<F128>], &[F128], &[usize], &[F128]) -> (Vec<F128>, F128),
 {
    let bits = entry(config.fold_grinding_bits@, 0) as u32;
    &&& steps.len() == config.initial_k
    &&& planes.0.len() == pow2((log_n - config.initial_k) as nat)
    &&& planes.1.len() == pow2((log_n - config.initial_k) as nat)
    &&& calls == (calls_before + fold_calls(steps)).push(
        PrefixCall::Finish { planes: Ok(planes) },
    )
    &&& completed(
        kernels,
        config,
        log_n,
        with_planes(after_provided(s, bits, steps), planes.0, planes.1),
        first,
        provider_challenges(steps),
        phases,
        last,
        history,
        proof,
    )
}

/// Some folds by a provider and some phases gave the proof.
pub open spec fn prefix_completed<M, P, A, D>(
    kernels: PcsKernels<M, P, A, D>,
    config: ProverConfig,
    log_n: int,
    first: Oracle,
    s: Session,
    calls_before: Seq<PrefixCall>,
    history: Seq<Event>,
    calls: Seq<PrefixCall>,
    proof: LigeritoProof,
) -> bool where
    M: Fn(&[F128], usize, usize, usize) -> LigeroWitness,
    P: Fn(&[Digest], usize, &[usize]) -> Vec<Digest>,
    A: Fn(usize, usize, &[Vec<F128>], &[F128], &[usize], &[F128]) -> (Vec<F128>, F128),
    D: Fn(usize, &[Vec<F128>], &[F128], &[usize], &[F128]) -> (Vec<F128>, F128),
 {
    exists|
        steps: Seq<ProviderStep>,
        planes: (Seq<F128>, Seq<F128>),
        phases: Seq<PhaseRun>,
        last: LastRun,
    | #[trigger]
        prefix_proved(
            kernels,
            config,
            log_n,
            first,
            s,
            calls_before,
            steps,
            planes,
            phases,
            last,
            history,
            calls,
            proof,
        )
}

/// What an attempt did and returned from the provider's first fold on.
pub open spec fn prefix_outcome<M, P, A, D>(
    kernels: PcsKernels<M, P, A, D>,
    config: ProverConfig,
    log_n: int,
    first: Oracle,
    s: Session,
    calls_before: Seq<PrefixCall>,
    history: Seq<Event>,
    calls: Seq<PrefixCall>,
    res: Result<LigeritoProof, String>,
) -> bool where
    M: Fn(&[F128], usize, usize, usize) -> LigeroWitness,
    P: Fn(&[Digest], usize, &[usize]) -> Vec<Digest>,
    A: Fn(usize, usize, &[Vec<F128>], &[F128], &[usize], &[F128]) -> (Vec<F128>, F128),
    D: Fn(usize, &[Vec<F128>], &[F128], &[usize], &[F128]) -> (Vec<F128>, F128),
 {
    match res {
        Ok(proof) => prefix_completed(
            kernels,
            config,
            log_n,
            first,
            s,
            calls_before,
            history,
            calls,
            proof,
        ),
        Err(e) => prefix_failed(
            s,
            entry(config.fold_grinding_bits@, 0) as u32,
            config.initial_k,
            pow2((log_n - config.initial_k) as nat),
            calls_before,
            history,
            calls,
            e,
        ),
    }
}

/// Planes that a provider can fold `k` times.
pub open spec fn prefix_shape(rows: nat, basis: nat, k: usize) -> bool {
    &&& rows >= 4
    &&& is_power(rows)
    &&& basis == rows
    &&& 0 < k < log2_of(rows)
}

/// The message that opens the sumcheck: the given one, or that of the planes.
pub open spec fn first_message(
    f: Seq<F128>,
    basis: Seq<F128>,
    given: Option<SumcheckMessage>,
) -> SumcheckMessage {
    match given {
        Some(message) => message,
        None => message_of(f, basis),
    }
}

/// What an admitted attempt did and returned: if the provider did not take the
/// planes, only the statement was sent.
pub open spec fn begun_outcome<M, P, A, D>(
    kernels: PcsKernels<M, P, A, D>,
    config: ProverConfig,
    f: Seq<F128>,
    basis: Seq<F128>,
    target: F128,
    codeword: Seq<F128>,
    tree: Seq<Digest>,
    given: Option<SumcheckMessage>,
    history_before: Seq<Event>,
    calls_before: Seq<PrefixCall>,
    history: Seq<Event>,
    calls: Seq<PrefixCall>,
    res: Result<LigeritoProof, String>,
) -> bool where
    M: Fn(&[F128], usize, usize, usize) -> LigeroWitness,
    P: Fn(&[Digest], usize, &[usize]) -> Vec<Digest>,
    A: Fn(usize, usize, &[Vec<F128>], &[F128], &[usize], &[F128]) -> (Vec<F128>, F128),
    D: Fn(usize, &[Vec<F128>], &[F128], &[usize], &[F128]) -> (Vec<F128>, F128),
 {
    let log_n = log2_of(f.len()) as int;
    let first = first_oracle(config, log_n, codeword, tree);
    ||| {
        &&& res matches Err(e) && calls == calls_before.push(
            PrefixCall::Begin { f, basis, refusal: Some(e) },
        )
        &&& history == statement(history_before, target, first.root())
    }
    ||| prefix_outcome(
        kernels,
        config,
        log_n,
        first,
        prefix_start(history_before, target, first.root(), first_message(f, basis, given)),
        calls_before.push(PrefixCall::Begin { f, basis, refusal: None }),
        history,
        calls,
        res,
    )
}

/// Sends the statement of a proof, and returns the root that it holds.
pub(crate) fn send_statement<C: Challenger>(
    challenger: &mut C,
    target: F128,
    l0_tree: &[Digest],
) -> (root: Digest)
    requires
        l0_tree@.len() > 0,
    ensures
        old(challenger).consistent() ==> final(challenger).consistent(),
        root == l0_tree@.last(),
        final(challenger).history() == statement(
            old(challenger).history(),
            target,
            l0_tree@.last(),
        ),
{
    let root = l0_tree[l0_tree.len() - 1];
    challenger.observe_label("flock-ligerito-basis-v0");
    challenger.observe_f128(target);
    challenger.observe_bytes(root.as_slice());
    root
}

/// Everything after the statement, with a provider that holds the planes.
pub(crate) fn prove_from_first_message<C, K, B, M, P, A, D>(
    config: &ProverConfig,
    log_n: usize,
    target: F128,
    l0_codeword: &[F128],
    l0_tree: &[Digest],
    first_msg: SumcheckMessage,
    kernels: &PcsKernels<M, P, A, D>,
    challenger: &mut C,
    backend: &mut B,
    Ghost(h0): Ghost<Seq<Event>>,
) -> (res: Result<LigeritoProof, String>) where
    C: Challenger,
    B: FoldRounds<K> + ?Sized,
    M: Fn(&[F128], usize, usize, usize) -> LigeroWitness,
    P: Fn(&[Digest], usize, &[usize]) -> Vec<Digest>,
    A: Fn(usize, usize, &[Vec<F128>], &[F128], &[usize], &[F128]) -> (Vec<F128>, F128),
    D: Fn(usize, &[Vec<F128>], &[F128], &[usize], &[F128]) -> (Vec<F128>, F128),

    requires
        pow2(log_n as nat) <= usize::MAX,
        config.initial_k < log_n,
        config_fits(*config, log_n as int, l0_codeword@.len(), l0_tree@.len()),
        kernels_ready(*kernels),
        old(challenger).history() == statement(h0, target, l0_tree@.last()),
    ensures
        old(challenger).consistent() ==> final(challenger).consistent(),
        final(backend).made_with() == old(backend).made_with(),
        old(backend).kept() ==> final(backend).kept(),
        prefix_outcome(
            *kernels,
            *config,
            log_n as int,
            first_oracle(*config, log_n as int, l0_codeword@, l0_tree@),
            prefix_start(h0, target, l0_tree@.last(), first_msg),
            old(backend).log(),
            final(challenger).history(),
            final(backend).log(),
            res,
        ),
{
    let k = config.initial_k;
    let ghost c0 = backend.log();
    let ghost first = first_oracle(*config, log_n as int, l0_codeword@, l0_tree@);
    let (prover, _) = SumcheckProver::new_with_first_msg(
        Vec::new(),
        Vec::new(),
        target,
        first_msg,
    );
    let mut host = Host::new(prover);
    Host::send(challenger, first_msg);
    let ghost start = prefix_start(h0, target, l0_tree@.last(), first_msg);
    assert(host.session(challenger.history()) =~= start);
    proof {
        lemma_tail_fits(log_n as nat, k as nat);
    }
    let tail = power_of_two(log_n - k);
    let bits = entry_or_zero(&config.fold_grinding_bits, 0) as u32;
    let (f, basis, rs, steps) = match fold_resident(
        &mut host,
        challenger,
        backend,
        bits,
        k,
        tail,
    ) {
        Err(e) => {
            return Err(e);
        },
        Ok(out) => out,
    };
    let ghost planes = (f@, basis@);
    let ghost folded = after_provided(start, bits, steps@);
    proof {
        lemma_provided_keeps(start, bits, steps@);
    }
    host.prover.f = f;
    host.prover.combined_basis = basis;
    assert(host.session(challenger.history()) =~= with_planes(folded, planes.0, planes.1));
    let (proof, phases, last) = complete(
        host,
        challenger,
        config,
        kernels,
        log_n,
        l0_codeword,
        l0_tree,
        rs,
    );
    assert(prefix_proved(
        *kernels,
        *config,
        log_n as int,
        first,
        start,
        c0,
        steps@,
        planes,
        phases@,
        last@,
        challenger.history(),
        backend.log(),
        proof,
    ));
    Ok(proof)
}

/// An admitted attempt.
fn prove_admitted<C, B, M, P, A, D>(
    config: &ProverConfig,
    packed_witness: Vec<F128>,
    b_initial: Vec<F128>,
    target: F128,
    l0_codeword: &[F128],
    l0_tree: &[Digest],
    first_msg: Option<SumcheckMessage>,
    kernels: &PcsKernels<M, P, A, D>,
    challenger: &mut C,
    backend: &mut B,
    log_n: usize,
) -> (res: Result<LigeritoProof, String>) where
    C: Challenger,
    B: InitialFoldBackend + ?Sized,
    M: Fn(&[F128], usize, usize, usize) -> LigeroWitness,
    P: Fn(&[Digest], usize, &[usize]) -> Vec<Digest>,
    A: Fn(usize, usize, &[Vec<F128>], &[F128], &[usize], &[F128]) -> (Vec<F128>, F128),
    D: Fn(usize, &[Vec<F128>], &[F128], &[usize], &[F128]) -> (Vec<F128>, F128),

    requires
        packed_witness@.len() == pow2(log_n as nat),
        log_n == log2_of(packed_witness@.len()),
        b_initial@.len() == packed_witness@.len(),
        config.initial_k < log_n,
        config_fits(*config, log_n as int, l0_codeword@.len(), l0_tree@.len()),
        kernels_ready(*kernels),
    ensures
        old(challenger).consistent() ==> final(challenger).consistent(),
        final(backend).setup() == old(backend).setup(),
        old(backend).consistent() ==> final(backend).consistent(),
        begun_outcome(
            *kernels,
            *config,
            packed_witness@,
            b_initial@,
            target,
            l0_codeword@,
            l0_tree@,
            first_msg,
            old(challenger).history(),
            old(backend).calls(),
            final(challenger).history(),
            final(backend).calls(),
            res,
        ),
{
    let ghost f0 = packed_witness@;
    let ghost b0 = b_initial@;
    let ghost h0 = challenger.history();
    let rows = packed_witness.len();
    assert(rows == pow2(log_n as nat));
    proof {
        vstd::arithmetic::power2::lemma_pow2_pos(
            (log_n - config.initial_k + config.log_inv_rates@[0]) as nat,
        );
    }
    send_statement(challenger, target, l0_tree);
    let start_msg = match first_msg {
        Some(message) => message,
        None => compute_message(packed_witness.as_slice(), b_initial.as_slice()),
    };
    match backend.begin(packed_witness, b_initial) {
        Err(e) => {
            return Err(e);
        },
        Ok(_) => {},
    }
    assert(start_msg == first_message(f0, b0, first_msg));
    prove_from_first_message::<C, HandedPlanes, B, M, P, A, D>(
        config,
        log_n,
        target,
        l0_codeword,
        l0_tree,
        start_msg,
        kernels,
        challenger,
        backend,
        Ghost(h0),
    )
}

proof fn lemma_tail_fits(log_n: nat, k: nat)
    requires
        k <= log_n,
        pow2(log_n) <= usize::MAX,
    ensures
        pow2((log_n - k) as nat) <= usize::MAX,
{
    if k > 0 {
        vstd::arithmetic::power2::lemma_pow2_strictly_increases((log_n - k) as nat, log_n);
    }
}

/// Folds by a provider leave no basis pending and no planes at the host.
proof fn lemma_provided_keeps(s: Session, bits: u32, steps: Seq<ProviderStep>)
    ensures
        after_provided(s, bits, steps).sumcheck.pending == s.sumcheck.pending,
        after_provided(s, bits, steps).sumcheck.total == s.sumcheck.total,
    decreases steps.len(),
{
    if steps.len() > 0 {
        lemma_provided_keeps(s, bits, steps.drop_last());
    }
}

/// Prove an opening whose first `initial_k` folds the provider makes.
///
/// A shape that the provider cannot fold, and a refusal of the provider to take
/// it, are reported before the transcript is touched. Any later error comes from
/// the provider or from the length of the planes that it handed over: the attempt
/// is over, and its challenger must not be used again.
#[allow(clippy::too_many_arguments)]
pub fn prove_with_backend<C, B, M, P, A, D>(
    config: &ProverConfig,
    packed_witness: Vec<F128>,
    b_initial: Vec<F128>,
    target: F128,
    l0_codeword: &[F128],
    l0_tree: &[Digest],
    first_msg: Option<SumcheckMessage>,
    kernels: &PcsKernels<M, P, A, D>,
    challenger: &mut C,
    backend: &mut B,
) -> (res: Result<LigeritoProof, String>) where
    C: Challenger,
    B: InitialFoldBackend + ?Sized,
    M: Fn(&[F128], usize, usize, usize) -> LigeroWitness,
    P: Fn(&[Digest], usize, &[usize]) -> Vec<Digest>,
    A: Fn(usize, usize, &[Vec<F128>], &[F128], &[usize], &[F128]) -> (Vec<F128>, F128),
    D: Fn(usize, &[Vec<F128>], &[F128], &[usize], &[F128]) -> (Vec<F128>, F128),

    requires
        prefix_shape(packed_witness@.len(), b_initial@.len(), config.initial_k) && old(
            backend,
        ).admission(packed_witness@.len() as usize, config.initial_k) is None ==> {
            &&& config_fits(
                *config,
                log2_of(packed_witness@.len()) as int,
                l0_codeword@.len(),
                l0_tree@.len(),
            )
            &&& kernels_ready(*kernels)
        },
    ensures
        old(challenger).consistent() ==> final(challenger).consistent(),
        final(backend).setup() == old(backend).setup(),
        old(backend).consistent() ==> final(backend).consistent(),
        if !prefix_shape(packed_witness@.len(), b_initial@.len(), config.initial_k) {
            &&& res matches Err(e) && e@ == "resident PCS prefix shape"@
            &&& *final(challenger) == *old(challenger)
            &&& final(backend).calls() == old(backend).calls()
        } else {
            match old(backend).admission(packed_witness@.len() as usize, config.initial_k) {
                Some(text) => {
                    &&& res matches Err(e) && e@ == text
                    &&& *final(challenger) == *old(challenger)
                    &&& final(backend).calls() == old(backend).calls()
                },
                None => begun_outcome(
                    *kernels,
                    *config,
                    packed_witness@,
                    b_initial@,
                    target,
                    l0_codeword@,
                    l0_tree@,
                    first_msg,
                    old(challenger).history(),
                    old(backend).calls(),
                    final(challenger).history(),
                    final(backend).calls(),
                    res,
                ),
            }
        },
{
    let rows = packed_witness.len();
    let log_n = match exact_log2(rows) {
        Some(log_n) => log_n,
        None => {
            return Err("resident PCS prefix shape".to_string());
        },
    };
    if rows < 4 || b_initial.len() != rows || config.initial_k == 0 || config.initial_k >= log_n {
        return Err("resident PCS prefix shape".to_string());
    }
    match backend.admit_prefix(rows, config.initial_k) {
        Err(e) => {
            return Err(e);
        },
        Ok(_) => {},
    }
    prove_admitted(
        config,
        packed_witness,
        b_initial,
        target,
        l0_codeword,
        l0_tree,
        first_msg,
        kernels,
        challenger,
        backend,
        log_n,
    )
}

/// A first message that was computed before is used as it is, and any other one is computed from
/// the planes.
pub proof fn law_first_message(
    f: Seq<F128>,
    basis: Seq<F128>,
    given: Option<SumcheckMessage>,
)
    ensures
        given matches Some(message) ==> first_message(f, basis, given) == message,
        given is None && f.len() == basis.len() && f.len() % 2 == 0 ==> {
            let message = first_message(f, basis, given);
            &&& message.u_0 == sum_upto(
                |p: int| f[2 * p] * basis[2 * p],
                (f.len() / 2) as int,
            )
            &&& message.u_2 == sum_upto(
                |p: int| (f[2 * p] + f[2 * p + 1]) * (basis[2 * p] + basis[2 * p + 1]),
                (f.len() / 2) as int,
            )
        },
{
    if f.len() == basis.len() && f.len() % 2 == 0 {
        crate::sumcheck::law_message_parts(f, basis);
    }
}

} // verus!
