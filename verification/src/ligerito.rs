//! The recursive opening proof: its data, and its protocol as a function of what
//! the transcript and the kernels gave out.
//!
//! A proof goes through phases. A phase commits to the witness plane as folded so
//! far, binds it by out-of-domain samples, opens the previous commitment at
//! sampled positions and glues the basis that those openings induce into the
//! running sumcheck. Between phases the planes are folded. The last phase sends
//! the plane itself.
use crate::field::F128;
use crate::multilinear::eq_weight;
use crate::sumcheck::{inner, message_of, SumcheckMessage, SumcheckState};
use crate::transcript::Event;
use vstd::arithmetic::power2::pow2;
use vstd::prelude::*;

verus! {

/// A node of a Merkle tree.
pub type Digest = [u8; 32];

/// The shape of a proof. Entry `p` of a list belongs to commitment `p`, where
/// commitment zero is the one made before the proof.
#[derive(Clone, Debug)]
pub struct ProverConfig {
    /// Variables folded before the first phase.
    pub initial_k: usize,
    /// The number of phases with a commitment.
    pub recursive_steps: usize,
    /// Variables folded after each phase.
    pub recursive_ks: Vec<usize>,
    /// Logarithms of the inverse code rates.
    pub log_inv_rates: Vec<usize>,
    /// Numbers of opened positions.
    pub queries: Vec<usize>,
    /// Proof-of-work bits before the positions are drawn.
    pub grinding_bits: Vec<usize>,
    /// Proof-of-work bits before the first challenge that folds a commitment.
    pub fold_grinding_bits: Vec<usize>,
    /// Numbers of out-of-domain samples.
    pub ood_samples: Vec<usize>,
    /// Logarithm of the message length of the first commitment.
    pub initial_log_msg_cols: usize,
    /// Logarithm of the number of rows interleaved in the first commitment.
    pub initial_log_num_interleaved: usize,
}

/// A committed codeword with its Merkle tree; the root is the last node.
#[derive(Clone, Debug)]
pub struct LigeroWitness {
    pub codeword: Vec<F128>,
    pub tree: Vec<Digest>,
    pub block_len: usize,
    pub num_interleaved: usize,
}

/// Opened positions of a commitment.
#[derive(Clone, Debug, PartialEq, Eq)]
pub struct RecursiveProof {
    pub opened_rows: Vec<Vec<F128>>,
    pub merkle_proof: Vec<Digest>,
}

/// The plane in the clear, and the positions of the last commitment.
#[derive(Clone, Debug, PartialEq, Eq)]
pub struct FinalProof {
    pub yr: Vec<F128>,
    pub opened_rows: Vec<Vec<F128>>,
    pub merkle_proof: Vec<Digest>,
}

/// A complete opening proof.
#[derive(Clone, Debug, PartialEq, Eq)]
pub struct LigeritoProof {
    pub initial_root: Digest,
    pub initial_proof: RecursiveProof,
    pub recursive_roots: Vec<Digest>,
    pub recursive_proofs: Vec<RecursiveProof>,
    pub final_proof: FinalProof,
    pub sumcheck_transcript: Vec<SumcheckMessage>,
    pub grinding_nonces: Vec<u64>,
    pub ood_values: Vec<F128>,
    pub fold_grinding_nonces: Vec<u64>,
}

/// The kernels of the proof system: the commitment of a plane (message columns,
/// interleaved rows and inverse rate by their logarithms), the Merkle
/// multi-proof of a set of leaves, and the basis induced by opened rows, for the
/// first commitment and for the later ones.
pub struct PcsKernels<M, P, A, D> {
    pub commit: M,
    pub multi_proof: P,
    pub induce_initial: A,
    pub induce: D,
}

// Numbers.

/// The logarithm of a power of two, rounded down elsewhere.
pub open spec fn log2_of(n: nat) -> nat
    decreases n,
{
    if n <= 1 {
        0
    } else {
        1 + log2_of(n / 2)
    }
}

/// Whether `n` is a power of two.
pub open spec fn is_power(n: nat) -> bool {
    n == pow2(log2_of(n))
}

/// The least logarithm of a power of two not below `n`.
pub open spec fn log2_ceiling(n: nat) -> nat
    decreases n,
{
    if n <= 1 {
        0
    } else {
        1 + log2_ceiling(((n + 1) / 2) as nat)
    }
}

/// `log2_ceiling` is the least exponent whose power of two reaches `n`.
pub proof fn law_log2_ceiling(n: nat)
    ensures
        n <= pow2(log2_ceiling(n)),
        n > 1 ==> pow2((log2_ceiling(n) - 1) as nat) < n,
    decreases n,
{
    vstd::arithmetic::power2::lemma2_to64();
    if n > 1 {
        let h = ((n + 1) / 2) as nat;
        law_log2_ceiling(h);
        vstd::arithmetic::power2::lemma_pow2_unfold(log2_ceiling(n));
        if h > 1 {
            vstd::arithmetic::power2::lemma_pow2_unfold(log2_ceiling(h));
        }
    }
}

/// The powers of two are exactly the numbers that `is_power` accepts.
pub proof fn law_log2_of_power(k: nat)
    ensures
        log2_of(pow2(k)) == k,
        is_power(pow2(k)),
    decreases k,
{
    vstd::arithmetic::power2::lemma2_to64();
    if k > 0 {
        law_log2_of_power((k - 1) as nat);
        vstd::arithmetic::power2::lemma_pow2_unfold(k);
        vstd::arithmetic::power2::lemma_pow2_pos((k - 1) as nat);
        assert(pow2(k) / 2 == pow2((k - 1) as nat));
    }
}

/// Computes `log2_ceiling`.
pub fn ceil_log2(n: usize) -> (k: usize)
    ensures
        k == log2_ceiling(n as nat),
{
    let mut rest: usize = n;
    let mut k: usize = 0;
    while rest > 1
        invariant
            k + log2_ceiling(rest as nat) == log2_ceiling(n as nat),
            k + rest <= n + 1,
            k == 0 || rest >= 1,
            n <= usize::MAX,
            k <= n,
        decreases rest,
    {
        rest = rest / 2 + rest % 2;
        k = k + 1;
    }
    k
}

/// The logarithm of `n`, if it is a power of two.
pub fn exact_log2(n: usize) -> (k: Option<usize>)
    ensures
        k is Some <==> is_power(n as nat),
        k matches Some(v) ==> v == log2_of(n as nat),
{
    if n == 0 {
        proof {
            vstd::arithmetic::power2::lemma2_to64();
        }
        return None;
    }
    let mut rest: usize = n;
    let mut k: usize = 0;
    proof {
        vstd::arithmetic::power2::lemma2_to64();
    }
    while rest > 1 && rest % 2 == 0
        invariant
            1 <= rest,
            n == rest * pow2(k as nat),
            k + log2_of(rest as nat) == log2_of(n as nat),
            k + rest <= n,
            k == 0 ==> rest == n,
        decreases rest,
    {
        proof {
            vstd::arithmetic::power2::lemma_pow2_unfold((k + 1) as nat);
            let half = rest / 2;
            let p = pow2(k as nat);
            assert(rest == 2 * half);
            assert((2 * half) * p == half * (2 * p)) by (nonlinear_arith);
        }
        rest = rest / 2;
        k = k + 1;
    }
    if rest == 1 {
        Some(k)
    } else {
        proof {
            let l = log2_of(rest as nat);
            let p = pow2(k as nat);
            vstd::arithmetic::power2::lemma_pow2_adds(k as nat, l);
            vstd::arithmetic::power2::lemma_pow2_pos(k as nat);
            vstd::arithmetic::power2::lemma_pow2_unfold(l);
            if is_power(n as nat) {
                assert(rest == pow2(l)) by (nonlinear_arith)
                    requires
                        rest * p == p * pow2(l),
                        p > 0,
                ;
            }
        }
        None
    }
}

// The protocol.

/// A commitment by value.
pub struct Oracle {
    pub codeword: Seq<F128>,
    pub tree: Seq<Digest>,
    pub block_len: nat,
    pub width: nat,
}

impl Oracle {
    /// The root of its tree.
    pub open spec fn root(self) -> Digest {
        self.tree.last()
    }

    /// The row opened at position `q`.
    pub open spec fn row(self, q: int) -> Seq<F128> {
        self.codeword.subrange(q * (self.width as int), q * (self.width as int) + (
        self.width as int))
    }

    /// The rows opened at some positions.
    pub open spec fn rows(self, picks: Seq<usize>) -> Seq<Seq<F128>> {
        Seq::new(picks.len(), |i: int| self.row(picks[i] as int))
    }

    /// A commitment to `2^columns` columns of `2^interleaved` rows at inverse rate
    /// `2^rate`.
    pub open spec fn shaped(self, columns: nat, interleaved: nat, rate: nat) -> bool {
        &&& self.block_len == pow2(columns + rate)
        &&& self.width == pow2(interleaved)
        &&& self.codeword.len() == self.block_len * self.width
        &&& self.tree.len() == 2 * self.block_len - 1
    }
}

impl View for LigeroWitness {
    type V = Oracle;

    open spec fn view(&self) -> Oracle {
        Oracle {
            codeword: self.codeword@,
            tree: self.tree@,
            block_len: self.block_len as nat,
            width: self.num_interleaved as nat,
        }
    }
}

/// Opened rows by value.
pub open spec fn rows_view(rows: Seq<Vec<F128>>) -> Seq<Seq<F128>> {
    Seq::new(rows.len(), |i: int| rows[i]@)
}

/// Opened positions by value.
pub struct Opening {
    pub rows: Seq<Seq<F128>>,
    pub path: Seq<Digest>,
}

impl View for RecursiveProof {
    type V = Opening;

    open spec fn view(&self) -> Opening {
        Opening { rows: rows_view(self.opened_rows@), path: self.merkle_proof@ }
    }
}

/// Several openings by value.
pub open spec fn openings_view(proofs: Seq<RecursiveProof>) -> Seq<Opening> {
    Seq::new(proofs.len(), |i: int| proofs[i]@)
}

/// The table of equality weights at `z`.
pub open spec fn eq_table(z: Seq<F128>) -> Seq<F128> {
    Seq::new(pow2(z.len()), |x: int| eq_weight(z, x))
}

/// What the transcript gave out in one fold: the nonce of the proof of work, if
/// there was one, and the challenge.
pub struct FoldStep {
    pub nonce: u64,
    pub r: F128,
}

/// What the transcript gave out for one out-of-domain sample.
pub struct OodStep {
    pub z: Seq<F128>,
    pub beta: F128,
}

/// The challenges of some folds.
pub open spec fn challenges(steps: Seq<FoldStep>) -> Seq<F128> {
    Seq::new(steps.len(), |i: int| steps[i].r)
}

/// The proof-of-work bits of fold `j`: one bit fewer with every fold.
pub open spec fn taper(bits: u32, j: int) -> u32 {
    if bits > j {
        (bits - j) as u32
    } else {
        0
    }
}

/// A list entry, or zero past the end.
pub open spec fn entry(list: Seq<usize>, p: int) -> usize {
    if 0 <= p < list.len() {
        list[p]
    } else {
        0
    }
}

/// Everything that the host of a proof keeps, with the transcript.
pub struct Session {
    pub events: Seq<Event>,
    pub sumcheck: SumcheckState,
    pub fold_nonces: Seq<u64>,
    pub nonces: Seq<u64>,
    pub ood_values: Seq<F128>,
    pub roots: Seq<Digest>,
    pub openings: Seq<Opening>,
}

impl Session {
    /// A session that has sent nothing but its statement and its first message.
    pub open spec fn start(
        history: Seq<Event>,
        target: F128,
        root: Digest,
        sumcheck: SumcheckState,
    ) -> Session {
        Session {
            events: statement(history, target, root),
            sumcheck,
            fold_nonces: Seq::empty(),
            nonces: Seq::empty(),
            ood_values: Seq::empty(),
            roots: Seq::empty(),
            openings: Seq::empty(),
        }.sent(sumcheck.messages.last())
    }

    /// A round message sent.
    pub open spec fn sent(self, message: SumcheckMessage) -> Session {
        Session {
            events: self.events.push(Event::Observe(message.u_0)).push(
                Event::Observe(message.u_2),
            ),
            ..self
        }
    }

    /// A fold challenge drawn, after `bits` bits of work if there are any.
    pub open spec fn challenged(self, bits: u32, step: FoldStep) -> Session {
        if bits > 0 {
            Session {
                events: self.events.push(Event::Grind(bits, step.nonce)).push(
                    Event::Sample(step.r),
                ),
                fold_nonces: self.fold_nonces.push(step.nonce),
                ..self
            }
        } else {
            Session { events: self.events.push(Event::Sample(step.r)), ..self }
        }
    }

    /// One fold of both planes.
    pub open spec fn folded(self, bits: u32, step: FoldStep) -> Session {
        let drawn = self.challenged(bits, step);
        let sumcheck = drawn.sumcheck.folded(step.r);
        Session { sumcheck, ..drawn }.sent(sumcheck.messages.last())
    }

    /// A commitment sent.
    pub open spec fn committed(self, root: Digest) -> Session {
        Session {
            events: self.events.push(Event::Bytes(root@)),
            roots: self.roots.push(root),
            ..self
        }
    }

    /// One out-of-domain sample: the value of the plane at `z` sent, and the claim
    /// glued into the sumcheck.
    pub open spec fn sampled(self, step: OodStep) -> Session {
        let table = eq_table(step.z);
        let value = inner(self.sumcheck.f, table);
        let message = message_of(self.sumcheck.f, table);
        Session {
            events: self.events.push(Event::SampleVec(step.z)).push(Event::Observe(value)).push(
                Event::Observe(message.u_0),
            ).push(Event::Observe(message.u_2)).push(Event::Sample(step.beta)),
            sumcheck: self.sumcheck.introduced(table, value).glued(step.beta),
            ood_values: self.ood_values.push(value),
            ..self
        }
    }

    /// Positions drawn after `bits` bits of work, and the challenges that combine
    /// them.
    pub open spec fn queried(
        self,
        bits: u32,
        nonce: u64,
        range: usize,
        picks: Seq<usize>,
        alpha: Seq<F128>,
    ) -> Session {
        Session {
            events: self.events.push(Event::Grind(bits, nonce)).push(
                Event::Queries(range, picks),
            ).push(Event::SampleVec(alpha)),
            nonces: self.nonces.push(nonce),
            ..self
        }
    }

    /// An opening recorded.
    pub open spec fn opened(self, opening: Opening) -> Session {
        Session { openings: self.openings.push(opening), ..self }
    }

    /// A basis with its claimed sum glued into the sumcheck.
    pub open spec fn bound(self, basis: Seq<F128>, sum: F128, beta: F128) -> Session {
        let message = message_of(self.sumcheck.f, basis);
        let next = self.sent(message);
        Session {
            events: next.events.push(Event::Sample(beta)),
            sumcheck: self.sumcheck.introduced(basis, sum).glued(beta),
            ..next
        }
    }
}

/// The transcript after the statement of a proof.
pub open spec fn statement(history: Seq<Event>, target: F128, root: Digest) -> Seq<Event> {
    history.push(Event::Label("flock-ligerito-basis-v0"@)).push(Event::Observe(target)).push(
        Event::Bytes(root@),
    )
}

/// A session after some folds, with tapering work before each.
pub open spec fn after_folds(s: Session, bits: u32, steps: Seq<FoldStep>) -> Session
    decreases steps.len(),
{
    if steps.len() == 0 {
        s
    } else {
        after_folds(s, bits, steps.drop_last()).folded(
            taper(bits, steps.len() - 1),
            steps.last(),
        )
    }
}

/// A session after some out-of-domain samples.
pub open spec fn after_samples(s: Session, steps: Seq<OodStep>) -> Session
    decreases steps.len(),
{
    if steps.len() == 0 {
        s
    } else {
        after_samples(s, steps.drop_last()).sampled(steps.last())
    }
}

/// What one phase got from outside, up to the folds that follow it.
pub struct PhaseRun {
    /// The new commitment.
    pub oracle: Oracle,
    pub samples: Seq<OodStep>,
    pub nonce: u64,
    pub picks: Seq<usize>,
    pub alpha: Seq<F128>,
    /// The Merkle multi-proof of the opened positions.
    pub path: Seq<Digest>,
    /// The induced basis with its sum, and its gluing challenge.
    pub basis: Seq<F128>,
    pub sum: F128,
    pub beta: F128,
    pub folds: Seq<FoldStep>,
}

/// A session after the phase that opens commitment `p`, before its folds.
pub open spec fn after_phase(
    s: Session,
    config: ProverConfig,
    p: int,
    previous: Oracle,
    run: PhaseRun,
) -> Session {
    after_samples(s.committed(run.oracle.root()), run.samples).queried(
        config.grinding_bits@[p] as u32,
        run.nonce,
        previous.block_len as usize,
        run.picks,
        run.alpha,
    ).opened(Opening { rows: previous.rows(run.picks), path: run.path }).bound(
        run.basis,
        run.sum,
        run.beta,
    )
}

/// The commitment that phase `p` opens.
pub open spec fn opened_oracle(first: Oracle, phases: Seq<PhaseRun>, p: int) -> Oracle {
    if p <= 0 {
        first
    } else {
        phases[p - 1].oracle
    }
}

/// The challenges that folded the commitment that phase `p` opens.
pub open spec fn lane_challenges(
    prefix: Seq<F128>,
    phases: Seq<PhaseRun>,
    p: int,
) -> Seq<F128> {
    if p <= 0 {
        prefix
    } else {
        challenges(phases[p - 1].folds)
    }
}

/// A session after some phases and the folds after each of them.
pub open spec fn after_phases(
    s: Session,
    config: ProverConfig,
    first: Oracle,
    phases: Seq<PhaseRun>,
) -> Session
    decreases phases.len(),
{
    if phases.len() == 0 {
        s
    } else {
        let p = phases.len() - 1;
        after_folds(
            after_phase(
                after_phases(s, config, first, phases.drop_last()),
                config,
                p,
                opened_oracle(first, phases, p),
                phases.last(),
            ),
            entry(config.fold_grinding_bits@, p + 1) as u32,
            phases.last().folds,
        )
    }
}

/// The logarithm of the plane length in phase `p`.
pub open spec fn plane_log(config: ProverConfig, log_n: int, p: int) -> int
    decreases p,
{
    if p <= 0 {
        log_n - config.initial_k
    } else {
        plane_log(config, log_n, p - 1) - config.recursive_ks@[p - 1]
    }
}

// The kernels.

/// Rows that were opened at `picks`, with the challenges that go with them.
pub open spec fn opened_shape(
    rows: Seq<Vec<F128>>,
    lanes: Seq<F128>,
    picks: Seq<usize>,
    alpha: Seq<F128>,
) -> bool {
    &&& rows.len() == picks.len()
    &&& picks.no_duplicates()
    &&& forall|i: int| 0 <= i < rows.len() ==> (#[trigger] rows[i])@.len() == pow2(lanes.len())
    &&& alpha.len() == log2_ceiling(picks.len())
}

/// Positions of a commitment to `2^n` columns at inverse rate `2^rate`, whose length
/// fits.
pub open spec fn in_block(picks: Seq<usize>, n: usize, rate: usize) -> bool {
    &&& pow2((n + rate) as nat) <= usize::MAX
    &&& forall|i: int| 0 <= i < picks.len() ==> picks[i] < pow2((n + rate) as nat)
}

/// Positions of a commitment to `2^n` columns at some rate.
pub open spec fn in_some_block(picks: Seq<usize>, n: usize) -> bool {
    exists|rate: usize| #[trigger] in_block(picks, n, rate)
}

/// The kernels can be called as the protocol calls them, and answer in the right
/// shape.
pub open spec fn kernels_ready<M, P, A, D>(kernels: PcsKernels<M, P, A, D>) -> bool where
    M: Fn(&[F128], usize, usize, usize) -> LigeroWitness,
    P: Fn(&[Digest], usize, &[usize]) -> Vec<Digest>,
    A: Fn(usize, usize, &[Vec<F128>], &[F128], &[usize], &[F128]) -> (Vec<F128>, F128),
    D: Fn(usize, &[Vec<F128>], &[F128], &[usize], &[F128]) -> (Vec<F128>, F128),
 {
    &&& forall|f: &[F128], columns: usize, interleaved: usize, rate: usize|
        f@.len() == pow2((columns + interleaved) as nat) && pow2(
            (columns + interleaved + rate) as nat,
        ) <= usize::MAX ==> #[trigger] call_requires(
            kernels.commit,
            (f, columns, interleaved, rate),
        )
    &&& forall|f: &[F128], columns: usize, interleaved: usize, rate: usize, w: LigeroWitness|
        #[trigger] call_ensures(kernels.commit, (f, columns, interleaved, rate), w) ==> w@.shaped(
            columns as nat,
            interleaved as nat,
            rate as nat,
        )
    &&& forall|tree: &[Digest], leaves: usize, picks: &[usize]|
        tree@.len() == 2 * leaves - 1 && (forall|i: int|
            0 <= i < picks@.len() ==> picks@[i] < leaves) ==> #[trigger] call_requires(
            kernels.multi_proof,
            (tree, leaves, picks),
        )
    &&& forall|
        n: usize,
        rate: usize,
        rows: &[Vec<F128>],
        lanes: &[F128],
        picks: &[usize],
        alpha: &[F128],
    |
        in_block(picks@, n, rate) && opened_shape(rows@, lanes@, picks@, alpha@)
            ==> #[trigger] call_requires(
            kernels.induce_initial,
            (n, rate, rows, lanes, picks, alpha),
        )
    &&& forall|
        n: usize,
        rate: usize,
        rows: &[Vec<F128>],
        lanes: &[F128],
        picks: &[usize],
        alpha: &[F128],
        out: (Vec<F128>, F128),
    | #[trigger]
        call_ensures(kernels.induce_initial, (n, rate, rows, lanes, picks, alpha), out)
            ==> out.0@.len() == pow2(n as nat)
    &&& forall|
        n: usize,
        rows: &[Vec<F128>],
        lanes: &[F128],
        picks: &[usize],
        alpha: &[F128],
    |
        in_some_block(picks@, n) && opened_shape(rows@, lanes@, picks@, alpha@)
            ==> #[trigger] call_requires(
            kernels.induce,
            (n, rows, lanes, picks, alpha),
        )
    &&& forall|
        n: usize,
        rows: &[Vec<F128>],
        lanes: &[F128],
        picks: &[usize],
        alpha: &[F128],
        out: (Vec<F128>, F128),
    | #[trigger]
        call_ensures(kernels.induce, (n, rows, lanes, picks, alpha), out) ==> out.0@.len() == pow2(
            n as nat,
        )
}

/// The commitment kernel answered `oracle` for the plane `f`.
pub open spec fn commit_answered<M>(
    commit: M,
    f: Seq<F128>,
    columns: usize,
    interleaved: usize,
    rate: usize,
    oracle: Oracle,
) -> bool where M: Fn(&[F128], usize, usize, usize) -> LigeroWitness {
    exists|plane: &[F128], w: LigeroWitness| #[trigger]
        call_ensures(commit, (plane, columns, interleaved, rate), w) && plane@ == f && w@ == oracle
}

/// The multi-proof kernel answered `path`.
pub open spec fn path_answered<P>(
    multi_proof: P,
    tree: Seq<Digest>,
    leaves: usize,
    picks: Seq<usize>,
    path: Seq<Digest>,
) -> bool where P: Fn(&[Digest], usize, &[usize]) -> Vec<Digest> {
    exists|nodes: &[Digest], list: &[usize], out: Vec<Digest>| #[trigger]
        call_ensures(multi_proof, (nodes, leaves, list), out) && nodes@ == tree && list@ == picks
            && out@ == path
}

/// The kernel for the first commitment answered this basis and sum.
pub open spec fn initial_basis_answered<A>(
    induce: A,
    n: usize,
    rate: usize,
    rows: Seq<Seq<F128>>,
    lanes: Seq<F128>,
    picks: Seq<usize>,
    alpha: Seq<F128>,
    basis: Seq<F128>,
    sum: F128,
) -> bool where
    A: Fn(usize, usize, &[Vec<F128>], &[F128], &[usize], &[F128]) -> (Vec<F128>, F128),
 {
    exists|
        r: &[Vec<F128>],
        l: &[F128],
        q: &[usize],
        a: &[F128],
        out: (Vec<F128>, F128),
    | #[trigger]
        call_ensures(induce, (n, rate, r, l, q, a), out) && rows_view(r@) == rows && l@ == lanes
            && q@ == picks && a@ == alpha && out.0@ == basis && out.1 == sum
}

/// The kernel for later commitments answered this basis and sum.
pub open spec fn basis_answered<D>(
    induce: D,
    n: usize,
    rows: Seq<Seq<F128>>,
    lanes: Seq<F128>,
    picks: Seq<usize>,
    alpha: Seq<F128>,
    basis: Seq<F128>,
    sum: F128,
) -> bool where D: Fn(usize, &[Vec<F128>], &[F128], &[usize], &[F128]) -> (Vec<F128>, F128) {
    exists|
        r: &[Vec<F128>],
        l: &[F128],
        q: &[usize],
        a: &[F128],
        out: (Vec<F128>, F128),
    | #[trigger]
        call_ensures(induce, (n, r, l, q, a), out) && rows_view(r@) == rows && l@ == lanes && q@
            == picks && a@ == alpha && out.0@ == basis && out.1 == sum
}

/// Positions as the transcript draws them.
pub open spec fn drawn(picks: Seq<usize>, count: usize, range: nat) -> bool {
    &&& picks.len() == count
    &&& picks.no_duplicates()
    &&& forall|i: int| 0 <= i < picks.len() ==> picks[i] < range
}

/// What phase `p` got from outside, on a plane `f` of logarithm `n`, is what the
/// configuration asks of the transcript and what the kernels answered.
pub open spec fn phase_answered<M, P, A, D>(
    kernels: PcsKernels<M, P, A, D>,
    config: ProverConfig,
    p: int,
    n: int,
    f: Seq<F128>,
    previous: Oracle,
    lanes: Seq<F128>,
    run: PhaseRun,
) -> bool where
    M: Fn(&[F128], usize, usize, usize) -> LigeroWitness,
    P: Fn(&[Digest], usize, &[usize]) -> Vec<Digest>,
    A: Fn(usize, usize, &[Vec<F128>], &[F128], &[usize], &[F128]) -> (Vec<F128>, F128),
    D: Fn(usize, &[Vec<F128>], &[F128], &[usize], &[F128]) -> (Vec<F128>, F128),
 {
    &&& commit_answered(
        kernels.commit,
        f,
        (n - config.recursive_ks@[p]) as usize,
        config.recursive_ks@[p],
        config.log_inv_rates@[p + 1],
        run.oracle,
    )
    &&& run.samples.len() == entry(config.ood_samples@, p + 1)
    &&& forall|i: int| 0 <= i < run.samples.len() ==> (#[trigger] run.samples[i]).z.len() == n
    &&& drawn(run.picks, config.queries@[p], previous.block_len)
    &&& run.alpha.len() == log2_ceiling(config.queries@[p] as nat)
    &&& path_answered(
        kernels.multi_proof,
        previous.tree,
        previous.block_len as usize,
        run.picks,
        run.path,
    )
    &&& if p == 0 {
        initial_basis_answered(
            kernels.induce_initial,
            n as usize,
            config.log_inv_rates@[0],
            previous.rows(run.picks),
            lanes,
            run.picks,
            run.alpha,
            run.basis,
            run.sum,
        )
    } else {
        basis_answered(
            kernels.induce,
            n as usize,
            previous.rows(run.picks),
            lanes,
            run.picks,
            run.alpha,
            run.basis,
            run.sum,
        )
    }
    &&& run.folds.len() == config.recursive_ks@[p]
}

/// Every phase got from outside what it should.
pub open spec fn phases_answered<M, P, A, D>(
    kernels: PcsKernels<M, P, A, D>,
    config: ProverConfig,
    log_n: int,
    s: Session,
    first: Oracle,
    prefix: Seq<F128>,
    phases: Seq<PhaseRun>,
) -> bool where
    M: Fn(&[F128], usize, usize, usize) -> LigeroWitness,
    P: Fn(&[Digest], usize, &[usize]) -> Vec<Digest>,
    A: Fn(usize, usize, &[Vec<F128>], &[F128], &[usize], &[F128]) -> (Vec<F128>, F128),
    D: Fn(usize, &[Vec<F128>], &[F128], &[usize], &[F128]) -> (Vec<F128>, F128),

    decreases phases.len(),
{
    if phases.len() == 0 {
        true
    } else {
        let p = phases.len() - 1;
        let before = phases.drop_last();
        &&& phases_answered(kernels, config, log_n, s, first, prefix, before)
        &&& phase_answered(
            kernels,
            config,
            p,
            plane_log(config, log_n, p),
            after_phases(s, config, first, before).sumcheck.f,
            opened_oracle(first, phases, p),
            lane_challenges(prefix, phases, p),
            phases.last(),
        )
    }
}

/// The values that end a proof.
pub struct LastRun {
    pub nonce: u64,
    pub picks: Seq<usize>,
    pub alpha: Seq<F128>,
    pub beta: F128,
    pub path: Seq<Digest>,
}

/// Elements sent one by one.
pub open spec fn observed(events: Seq<Event>, values: Seq<F128>) -> Seq<Event>
    decreases values.len(),
{
    if values.len() == 0 {
        events
    } else {
        observed(events, values.drop_last()).push(Event::Observe(values.last()))
    }
}

/// The session at the end of a proof: the plane sent, the last positions drawn, and
/// the challenges drawn that a verifier draws to bind the plane.
pub open spec fn ended(
    s: Session,
    config: ProverConfig,
    range: usize,
    run: LastRun,
) -> Session {
    let sent = Session { events: observed(s.events, s.sumcheck.f), ..s };
    let drawn = sent.queried(
        config.grinding_bits@[config.recursive_steps as int] as u32,
        run.nonce,
        range,
        run.picks,
        run.alpha,
    );
    Session { events: drawn.events.push(Event::Sample(run.beta)), ..drawn }
}

/// A finished proof: from the session `s` after the folds of the first commitment,
/// through every phase, to the final transcript and the proof.
pub open spec fn completed<M, P, A, D>(
    kernels: PcsKernels<M, P, A, D>,
    config: ProverConfig,
    log_n: int,
    s: Session,
    first: Oracle,
    prefix: Seq<F128>,
    phases: Seq<PhaseRun>,
    last: LastRun,
    history: Seq<Event>,
    proof: LigeritoProof,
) -> bool where
    M: Fn(&[F128], usize, usize, usize) -> LigeroWitness,
    P: Fn(&[Digest], usize, &[usize]) -> Vec<Digest>,
    A: Fn(usize, usize, &[Vec<F128>], &[F128], &[usize], &[F128]) -> (Vec<F128>, F128),
    D: Fn(usize, &[Vec<F128>], &[F128], &[usize], &[F128]) -> (Vec<F128>, F128),
 {
    let r = config.recursive_steps as int;
    let reached = after_phases(s, config, first, phases);
    let oracle = opened_oracle(first, phases, r);
    let end = ended(reached, config, oracle.block_len as usize, last);
    &&& phases.len() == r
    &&& phases_answered(kernels, config, log_n, s, first, prefix, phases)
    &&& drawn(last.picks, config.queries@[r], oracle.block_len)
    &&& last.alpha.len() == log2_ceiling(config.queries@[r] as nat)
    &&& path_answered(
        kernels.multi_proof,
        oracle.tree,
        oracle.block_len as usize,
        last.picks,
        last.path,
    )
    &&& history == end.events
    &&& proof.initial_root == first.root()
    &&& proof.initial_proof@ == end.openings[0]
    &&& proof.recursive_roots@ == end.roots
    &&& openings_view(proof.recursive_proofs@) == end.openings.skip(1)
    &&& proof.final_proof.yr@ == end.sumcheck.f
    &&& rows_view(proof.final_proof.opened_rows@) == oracle.rows(last.picks)
    &&& proof.final_proof.merkle_proof@ == last.path
    &&& proof.sumcheck_transcript@ == end.sumcheck.messages
    &&& proof.grinding_nonces@ == end.nonces
    &&& proof.ood_values@ == end.ood_values
    &&& proof.fold_grinding_nonces@ == end.fold_nonces
}

/// What a configuration has to satisfy for a plane of logarithm `log_n` and a first
/// commitment of these sizes.
pub open spec fn config_fits(
    config: ProverConfig,
    log_n: int,
    codeword_len: nat,
    tree_len: nat,
) -> bool {
    let r = config.recursive_steps as int;
    let columns = log_n - config.initial_k;
    &&& r >= 1
    &&& config.recursive_ks@.len() == r
    &&& config.log_inv_rates@.len() == r + 1
    &&& config.queries@.len() > r
    &&& config.grinding_bits@.len() > r
    &&& entry(config.ood_samples@, 0) == 0
    &&& pow2((log_n + config.log_inv_rates@[0]) as nat) <= usize::MAX
    &&& codeword_len == pow2((columns + config.log_inv_rates@[0]) as nat) * pow2(
        config.initial_k as nat,
    )
    &&& tree_len == 2 * pow2((columns + config.log_inv_rates@[0]) as nat) - 1
    &&& config.queries@[0] <= pow2((columns + config.log_inv_rates@[0]) as nat)
    &&& forall|p: int| 0 <= p < r ==> phase_fits(config, log_n, p)
}

/// Phase `p` can fold as many variables as it is asked to, and its commitment fits
/// and has as many positions as will be opened.
pub open spec fn phase_fits(config: ProverConfig, log_n: int, p: int) -> bool {
    let n = plane_log(config, log_n, p);
    let rate = config.log_inv_rates@[p + 1];
    &&& config.recursive_ks@[p] <= n
    &&& pow2((n + rate) as nat) <= usize::MAX
    &&& config.queries@[p + 1] <= pow2((n - config.recursive_ks@[p] + rate) as nat)
}

} // verus!
