//! The host side of a recursive opening proof: every transcript operation, and all
//! arithmetic after the first folds.
use crate::field::F128;
use crate::ligerito::{
    after_folds, after_phase, after_phases, after_samples, basis_answered, ceil_log2, challenges,
    commit_answered, completed, config_fits, drawn, ended, entry, eq_table, in_block,
    in_some_block, initial_basis_answered, kernels_ready, log2_ceiling, observed, opened_shape,
    openings_view, path_answered, phase_answered, phase_fits, phases_answered, plane_log,
    rows_view, taper, Digest, FinalProof, FoldStep, LastRun, LigeritoProof, LigeroWitness, OodStep,
    Opening, Oracle, PcsKernels, PhaseRun, ProverConfig, RecursiveProof, Session,
};
use crate::multilinear::{build_eq, power_of_two};
use crate::sumcheck::{SumcheckMessage, SumcheckProver};
use crate::transcript::{Challenger, Event};
use vstd::arithmetic::power2::{lemma_pow2_unfold, pow2};
use vstd::prelude::*;

verus! {

/// What the host keeps during a proof.
pub struct Host {
    pub prover: SumcheckProver,
    pub fold_nonces: Vec<u64>,
    pub nonces: Vec<u64>,
    pub ood_values: Vec<F128>,
    pub roots: Vec<Digest>,
    pub openings: Vec<RecursiveProof>,
}

/// A list entry, or zero past the end.
pub(crate) fn entry_or_zero(list: &Vec<usize>, p: usize) -> (v: usize)
    ensures
        v == entry(list@, p as int),
{
    if p < list.len() {
        list[p]
    } else {
        0
    }
}

/// The proof-of-work bits of fold `j`.
pub(crate) fn tapered(bits: u32, j: usize) -> (t: u32)
    ensures
        t == taper(bits, j as int),
        j < bits ==> t + j == bits,
        j >= bits ==> t == 0,
{
    if j < bits as usize {
        bits - j as u32
    } else {
        0
    }
}

impl Host {
    /// The session that this host is in, given the transcript.
    pub open spec fn session(self, history: Seq<Event>) -> Session {
        Session {
            events: history,
            sumcheck: self.prover@,
            fold_nonces: self.fold_nonces@,
            nonces: self.nonces@,
            ood_values: self.ood_values@,
            roots: self.roots@,
            openings: openings_view(self.openings@),
        }
    }

    /// Both planes have `2^n` entries and no basis waits to be glued.
    pub open spec fn at_rest(self, n: nat) -> bool {
        &&& self.prover@.f.len() == pow2(n)
        &&& self.prover@.basis.len() == pow2(n)
        &&& self.prover@.pending is None
    }

    /// A host that has done nothing yet.
    pub(crate) fn new(prover: SumcheckProver) -> (host: Host)
        ensures
            host.prover == prover,
            host.openings@.len() == 0,
            forall|history: Seq<Event>| #[trigger]
                host.session(history) == (Session {
                    events: history,
                    sumcheck: prover@,
                    fold_nonces: Seq::empty(),
                    nonces: Seq::empty(),
                    ood_values: Seq::empty(),
                    roots: Seq::empty(),
                    openings: Seq::empty(),
                }),
    {
        let host = Host {
            prover,
            fold_nonces: Vec::new(),
            nonces: Vec::new(),
            ood_values: Vec::new(),
            roots: Vec::new(),
            openings: Vec::new(),
        };
        assert(openings_view(host.openings@) =~= Seq::empty());
        host
    }

    /// The proof that holds everything collected, with the plane in the clear and the
    /// last opening.
    fn into_proof(self, initial_root: Digest, yr: Vec<F128>, last: RecursiveProof) -> (proof:
        LigeritoProof)
        requires
            self.openings@.len() >= 1,
        ensures
            proof.initial_root == initial_root,
            proof.initial_proof@ == openings_view(self.openings@)[0],
            proof.recursive_roots@ == self.roots@,
            openings_view(proof.recursive_proofs@) == openings_view(self.openings@).skip(1),
            proof.final_proof.yr@ == yr@,
            rows_view(proof.final_proof.opened_rows@) == last@.rows,
            proof.final_proof.merkle_proof@ == last@.path,
            proof.sumcheck_transcript@ == self.prover@.messages,
            proof.grinding_nonces@ == self.nonces@,
            proof.ood_values@ == self.ood_values@,
            proof.fold_grinding_nonces@ == self.fold_nonces@,
    {
        let ghost openings = self.openings@;
        let mut recursive_proofs: Vec<RecursiveProof> = self.openings;
        let initial_proof = recursive_proofs.remove(0);
        assert(openings_view(recursive_proofs@) =~= openings_view(openings).skip(1));
        LigeritoProof {
            initial_root,
            initial_proof,
            recursive_roots: self.roots,
            recursive_proofs,
            final_proof: FinalProof {
                yr,
                opened_rows: last.opened_rows,
                merkle_proof: last.merkle_proof,
            },
            sumcheck_transcript: self.prover.transcript,
            grinding_nonces: self.nonces,
            ood_values: self.ood_values,
            fold_grinding_nonces: self.fold_nonces,
        }
    }

    /// Sends a round message.
    pub(crate) fn send<C: Challenger>(challenger: &mut C, message: SumcheckMessage)
        ensures
            old(challenger).consistent() ==> final(challenger).consistent(),
            final(challenger).history() == old(challenger).history().push(
                Event::Observe(message.u_0),
            ).push(Event::Observe(message.u_2)),
    {
        challenger.observe_f128(message.u_0);
        challenger.observe_f128(message.u_2);
    }

    /// Draws the challenge of a fold, after the work that guards it. The nonce is
    /// zero where there is no work.
    pub(crate) fn draw_fold_challenge<C: Challenger>(
        &mut self,
        challenger: &mut C,
        bits: u32,
    ) -> (step: (u64, F128))
        ensures
            old(challenger).consistent() ==> final(challenger).consistent(),
            final(self).prover == old(self).prover,
            final(self).openings == old(self).openings,
            final(self).session(final(challenger).history()) == old(self).session(
                old(challenger).history(),
            ).challenged(bits, (FoldStep { nonce: step.0, r: step.1 })),
    {
        let mut nonce: u64 = 0;
        if bits > 0 {
            nonce = challenger.grind_pow(bits);
            self.fold_nonces.push(nonce);
        }
        let r = challenger.sample_f128();
        (nonce, r)
    }

    /// Folds both planes `k` times, and returns the challenges.
    pub(crate) fn fold_planes<C: Challenger>(
        &mut self,
        challenger: &mut C,
        bits: u32,
        k: usize,
        Ghost(n): Ghost<nat>,
    ) -> (out: (Vec<F128>, Ghost<Seq<FoldStep>>))
        requires
            k <= n,
            old(self).at_rest(n),
        ensures
            old(challenger).consistent() ==> final(challenger).consistent(),
            out.1@.len() == k,
            out.0@ == challenges(out.1@),
            final(self).at_rest((n - k) as nat),
            final(self).openings == old(self).openings,
            final(self).session(final(challenger).history()) == after_folds(
                old(self).session(old(challenger).history()),
                bits,
                out.1@,
            ),
    {
        let ghost start = self.session(challenger.history());
        let ghost mut steps: Seq<FoldStep> = Seq::empty();
        let mut rs: Vec<F128> = Vec::new();
        let mut j: usize = 0;
        assert(rs@ =~= challenges(steps));
        while j < k
            invariant
                old(challenger).consistent() ==> challenger.consistent(),
                j <= k <= n,
                steps.len() == j,
                rs@ == challenges(steps),
                self.at_rest((n - j) as nat),
                self.openings == old(self).openings,
                self.session(challenger.history()) == after_folds(start, bits, steps),
            decreases k - j,
        {
            let ghost before = self.session(challenger.history());
            let t = tapered(bits, j);
            let (nonce, r) = self.draw_fold_challenge(challenger, t);
            let ghost step = FoldStep { nonce, r };
            let message = self.prover.fold(r);
            Self::send(challenger, message);
            rs.push(r);
            proof {
                lemma_pow2_unfold((n - j) as nat);
                assert(self.session(challenger.history()) =~= before.folded(t, step));
                assert(steps.push(step).drop_last() =~= steps);
                steps = steps.push(step);
                assert(rs@ =~= challenges(steps));
            }
            j = j + 1;
        }
        (rs, Ghost(steps))
    }

    /// Takes `count` out-of-domain samples.
    pub(crate) fn sample_out_of_domain<C: Challenger>(
        &mut self,
        challenger: &mut C,
        n: usize,
        count: usize,
    ) -> (steps: Ghost<Seq<OodStep>>)
        requires
            pow2(n as nat) <= usize::MAX,
            old(self).at_rest(n as nat),
        ensures
            old(challenger).consistent() ==> final(challenger).consistent(),
            steps@.len() == count,
            forall|i: int| 0 <= i < count ==> (#[trigger] steps@[i]).z.len() == n,
            final(self).at_rest(n as nat),
            final(self).openings == old(self).openings,
            final(self).prover@.f == old(self).prover@.f,
            final(self).session(final(challenger).history()) == after_samples(
                old(self).session(old(challenger).history()),
                steps@,
            ),
    {
        let ghost start = self.session(challenger.history());
        let ghost mut steps: Seq<OodStep> = Seq::empty();
        let mut i: usize = 0;
        while i < count
            invariant
                old(challenger).consistent() ==> challenger.consistent(),
                i <= count,
                pow2(n as nat) <= usize::MAX,
                steps.len() == i,
                forall|j: int| 0 <= j < i ==> (#[trigger] steps[j]).z.len() == n,
                self.at_rest(n as nat),
                self.openings == old(self).openings,
                self.prover@.f == start.sumcheck.f,
                self.session(challenger.history()) == after_samples(start, steps),
            decreases count - i,
        {
            let ghost before = self.session(challenger.history());
            let z = challenger.sample_f128_vec(n);
            let table = build_eq(z.as_slice());
            assert(table@ =~= eq_table(z@));
            let (message, value) = self.prover.introduce_new_with_eval(table);
            challenger.observe_f128(value);
            self.ood_values.push(value);
            Self::send(challenger, message);
            let beta = challenger.sample_f128();
            self.prover.glue(beta);
            let ghost step = OodStep { z: z@, beta };
            proof {
                assert(self.session(challenger.history()) =~= before.sampled(step));
                assert(steps.push(step).drop_last() =~= steps);
                steps = steps.push(step);
            }
            i = i + 1;
        }
        Ghost(steps)
    }

    /// Draws positions after `bits` bits of work, and their challenges.
    pub(crate) fn query<C: Challenger>(
        &mut self,
        challenger: &mut C,
        bits: u32,
        range: usize,
        count: usize,
    ) -> (out: (u64, Vec<usize>, Vec<F128>))
        requires
            count <= range,
        ensures
            old(challenger).consistent() ==> final(challenger).consistent(),
            drawn(out.1@, count, range as nat),
            out.2@.len() == log2_ceiling(count as nat),
            final(self).prover == old(self).prover,
            final(self).openings == old(self).openings,
            final(self).session(final(challenger).history()) == old(self).session(
                old(challenger).history(),
            ).queried(bits, out.0, range, out.1@, out.2@),
    {
        let nonce = challenger.grind_pow(bits);
        self.nonces.push(nonce);
        let picks = challenger.sample_distinct_queries(range, count);
        let alpha = challenger.sample_f128_vec(ceil_log2(count));
        (nonce, picks, alpha)
    }
}

/// The rows of a commitment at some positions.
fn open_rows(codeword: &[F128], width: usize, picks: &Vec<usize>, Ghost(oracle): Ghost<Oracle>) -> (
rows: Vec<Vec<F128>>)
    requires
        oracle.codeword == codeword@,
        oracle.width == width,
        codeword@.len() == oracle.block_len * width,
        forall|i: int| 0 <= i < picks@.len() ==> picks@[i] < oracle.block_len,
    ensures
        rows_view(rows@) == oracle.rows(picks@),
        rows@.len() == picks@.len(),
        forall|i: int| 0 <= i < rows@.len() ==> (#[trigger] rows@[i])@.len() == width,
{
    let mut rows: Vec<Vec<F128>> = Vec::new();
    let mut i: usize = 0;
    let len = codeword.len();
    while i < picks.len()
        invariant
            i <= picks@.len(),
            oracle.codeword == codeword@,
            oracle.width == width,
            len == codeword@.len(),
            codeword@.len() == oracle.block_len * width,
            forall|j: int| 0 <= j < picks@.len() ==> picks@[j] < oracle.block_len,
            rows@.len() == i,
            forall|j: int| 0 <= j < i ==> (#[trigger] rows@[j])@ == oracle.row(picks@[j] as int),
            forall|j: int| 0 <= j < i ==> (#[trigger] rows@[j])@.len() == width,
        decreases picks@.len() - i,
    {
        let q = picks[i];
        proof {
            let b = oracle.block_len as int;
            let w = width as int;
            assert(q * w + w <= b * w && 0 <= q * w) by (nonlinear_arith)
                requires
                    0 <= q < b,
                    0 <= w,
            ;
        }
        let start = q * width;
        let mut row: Vec<F128> = Vec::new();
        row.extend_from_slice(vstd::slice::slice_subrange(codeword, start, start + width));
        assert(row@ =~= oracle.row(q as int));
        rows.push(row);
        i = i + 1;
    }
    assert(rows_view(rows@) =~= oracle.rows(picks@));
    rows
}

/// A commitment that is opened: its codeword and tree, borrowed.
pub struct OpenedOracle<'a> {
    pub codeword: &'a [F128],
    pub tree: &'a [Digest],
    pub block_len: usize,
    pub num_interleaved: usize,
}

impl<'a> OpenedOracle<'a> {
    /// The commitment by value.
    pub open spec fn oracle(self) -> Oracle {
        Oracle {
            codeword: self.codeword@,
            tree: self.tree@,
            block_len: self.block_len as nat,
            width: self.num_interleaved as nat,
        }
    }
}

/// Opens a commitment at drawn positions.
fn open<P>(multi_proof: &P, previous: &OpenedOracle, picks: &Vec<usize>) -> (proof: RecursiveProof)
where
    P: Fn(&[Digest], usize, &[usize]) -> Vec<Digest>,

    requires
        previous.codeword@.len() == previous.block_len * previous.num_interleaved,
        previous.tree@.len() == 2 * previous.block_len - 1,
        forall|i: int| 0 <= i < picks@.len() ==> picks@[i] < previous.block_len,
        forall|tree: &[Digest], leaves: usize, list: &[usize]|
            tree@.len() == 2 * leaves - 1 && (forall|i: int|
                0 <= i < list@.len() ==> list@[i] < leaves) ==> #[trigger] call_requires(
                *multi_proof,
                (tree, leaves, list),
            ),
    ensures
        proof@.rows == previous.oracle().rows(picks@),
        proof.opened_rows@.len() == picks@.len(),
        forall|i: int|
            0 <= i < picks@.len() ==> (#[trigger] proof.opened_rows@[i])@.len()
                == previous.num_interleaved,
        path_answered(
            *multi_proof,
            previous.tree@,
            previous.block_len,
            picks@,
            proof.merkle_proof@,
        ),
{
    let opened_rows = open_rows(
        previous.codeword,
        previous.num_interleaved,
        picks,
        Ghost(previous.oracle()),
    );
    let list = picks.as_slice();
    let merkle_proof = (multi_proof)(previous.tree, previous.block_len, list);
    assert(call_ensures(*multi_proof, (previous.tree, previous.block_len, list), merkle_proof));
    RecursiveProof { opened_rows, merkle_proof }
}

/// Commits to the witness plane and sends the root.
fn commit_plane<C, M, P, A, D>(
    host: &mut Host,
    challenger: &mut C,
    kernels: &PcsKernels<M, P, A, D>,
    columns: usize,
    interleaved: usize,
    rate: usize,
) -> (witness: LigeroWitness) where
    C: Challenger,
    M: Fn(&[F128], usize, usize, usize) -> LigeroWitness,
    P: Fn(&[Digest], usize, &[usize]) -> Vec<Digest>,
    A: Fn(usize, usize, &[Vec<F128>], &[F128], &[usize], &[F128]) -> (Vec<F128>, F128),
    D: Fn(usize, &[Vec<F128>], &[F128], &[usize], &[F128]) -> (Vec<F128>, F128),

    requires
        kernels_ready(*kernels),
        old(host).prover@.f.len() == pow2((columns + interleaved) as nat),
        pow2((columns + interleaved + rate) as nat) <= usize::MAX,
    ensures
        old(challenger).consistent() ==> final(challenger).consistent(),
        witness@.shaped(columns as nat, interleaved as nat, rate as nat),
        commit_answered(
            kernels.commit,
            old(host).prover@.f,
            columns,
            interleaved,
            rate,
            witness@,
        ),
        final(host).prover == old(host).prover,
        final(host).openings == old(host).openings,
        final(host).session(final(challenger).history()) == old(host).session(
            old(challenger).history(),
        ).committed(witness@.root()),
{
    let plane = host.prover.f.as_slice();
    let witness = (kernels.commit)(plane, columns, interleaved, rate);
    assert(call_ensures(kernels.commit, (plane, columns, interleaved, rate), witness));
    proof {
        vstd::arithmetic::power2::lemma_pow2_pos((columns + rate) as nat);
    }
    let root = witness.tree[witness.tree.len() - 1];
    challenger.observe_bytes(root.as_slice());
    host.roots.push(root);
    witness
}

/// The basis that the rows opened in phase `p` induce, with its sum.
fn induced<M, P, A, D>(
    kernels: &PcsKernels<M, P, A, D>,
    config: &ProverConfig,
    p: usize,
    n: usize,
    rows: &Vec<Vec<F128>>,
    lanes: &Vec<F128>,
    picks: &Vec<usize>,
    alpha: &Vec<F128>,
) -> (out: (Vec<F128>, F128)) where
    M: Fn(&[F128], usize, usize, usize) -> LigeroWitness,
    P: Fn(&[Digest], usize, &[usize]) -> Vec<Digest>,
    A: Fn(usize, usize, &[Vec<F128>], &[F128], &[usize], &[F128]) -> (Vec<F128>, F128),
    D: Fn(usize, &[Vec<F128>], &[F128], &[usize], &[F128]) -> (Vec<F128>, F128),

    requires
        kernels_ready(*kernels),
        config.log_inv_rates@.len() > 0,
        p == 0 ==> in_block(picks@, n, config.log_inv_rates@[0]),
        p != 0 ==> in_some_block(picks@, n),
        opened_shape(rows@, lanes@, picks@, alpha@),
    ensures
        out.0@.len() == pow2(n as nat),
        p == 0 ==> initial_basis_answered(
            kernels.induce_initial,
            n,
            config.log_inv_rates@[0],
            rows_view(rows@),
            lanes@,
            picks@,
            alpha@,
            out.0@,
            out.1,
        ),
        p != 0 ==> basis_answered(
            kernels.induce,
            n,
            rows_view(rows@),
            lanes@,
            picks@,
            alpha@,
            out.0@,
            out.1,
        ),
{
    let r = rows.as_slice();
    let l = lanes.as_slice();
    let q = picks.as_slice();
    let a = alpha.as_slice();
    if p == 0 {
        let rate = config.log_inv_rates[0];
        let out = (kernels.induce_initial)(n, rate, r, l, q, a);
        assert(call_ensures(kernels.induce_initial, (n, rate, r, l, q, a), out));
        out
    } else {
        let out = (kernels.induce)(n, r, l, q, a);
        assert(call_ensures(kernels.induce, (n, r, l, q, a), out));
        out
    }
}

/// Phase `p`, with the folds that follow it. Returns the new commitment and the
/// challenges of the folds.
fn run_phase<C, M, P, A, D>(
    host: &mut Host,
    challenger: &mut C,
    config: &ProverConfig,
    kernels: &PcsKernels<M, P, A, D>,
    p: usize,
    n: usize,
    previous: &OpenedOracle,
    lanes: &Vec<F128>,
    Ghost(log_n): Ghost<int>,
) -> (out: (LigeroWitness, Vec<F128>, Ghost<PhaseRun>)) where
    C: Challenger,
    M: Fn(&[F128], usize, usize, usize) -> LigeroWitness,
    P: Fn(&[Digest], usize, &[usize]) -> Vec<Digest>,
    A: Fn(usize, usize, &[Vec<F128>], &[F128], &[usize], &[F128]) -> (Vec<F128>, F128),
    D: Fn(usize, &[Vec<F128>], &[F128], &[usize], &[F128]) -> (Vec<F128>, F128),

    requires
        kernels_ready(*kernels),
        p < config.recursive_ks@.len(),
        p + 1 < config.log_inv_rates@.len(),
        p < config.grinding_bits@.len(),
        p < config.queries@.len(),
        n == plane_log(*config, log_n, p as int),
        phase_fits(*config, log_n, p as int),
        old(host).at_rest(n as nat),
        previous.oracle().codeword.len() == previous.block_len * previous.num_interleaved,
        previous.oracle().tree.len() == 2 * previous.block_len - 1,
        previous.num_interleaved == pow2(lanes@.len()),
        previous.block_len == pow2((n + config.log_inv_rates@[p as int]) as nat),
        config.queries@[p as int] <= previous.block_len,
    ensures
        old(challenger).consistent() ==> final(challenger).consistent(),
        out.0@ == out.2@.oracle,
        out.0@.shaped(
            (n - config.recursive_ks@[p as int]) as nat,
            config.recursive_ks@[p as int] as nat,
            config.log_inv_rates@[p + 1] as nat,
        ),
        out.1@ == challenges(out.2@.folds),
        phase_answered(
            *kernels,
            *config,
            p as int,
            n as int,
            old(host).prover@.f,
            previous.oracle(),
            lanes@,
            out.2@,
        ),
        final(host).at_rest((n - config.recursive_ks@[p as int]) as nat),
        final(host).openings@.len() == old(host).openings@.len() + 1,
        final(host).session(final(challenger).history()) == after_folds(
            after_phase(
                old(host).session(old(challenger).history()),
                *config,
                p as int,
                previous.oracle(),
                out.2@,
            ),
            entry(config.fold_grinding_bits@, p + 1) as u32,
            out.2@.folds,
        ),
{
    let ghost before = host.session(challenger.history());
    let k = config.recursive_ks[p];
    let levels = config.log_inv_rates.len();
    assert(p + 1 < levels);
    let witness = commit_plane(host, challenger, kernels, n - k, k, config.log_inv_rates[p + 1]);
    proof {
        let total = (n + config.log_inv_rates@[p + 1]) as nat;
        if n < total {
            vstd::arithmetic::power2::lemma_pow2_strictly_increases(n as nat, total);
        }
    }
    let samples = host.sample_out_of_domain(
        challenger,
        n,
        entry_or_zero(&config.ood_samples, p + 1),
    );
    let (nonce, picks, alpha) = host.query(
        challenger,
        config.grinding_bits[p] as u32,
        previous.block_len,
        config.queries[p],
    );
    let opening = open(&kernels.multi_proof, previous, &picks);
    assert(in_block(picks@, n, config.log_inv_rates@[p as int]));
    let (basis, sum) = induced(
        kernels,
        config,
        p,
        n,
        &opening.opened_rows,
        lanes,
        &picks,
        &alpha,
    );
    let ghost path = opening.merkle_proof@;
    let ghost basis_value = basis@;
    let ghost drawn_session = host.session(challenger.history());
    let ghost opening_value = opening@;
    host.openings.push(opening);
    assert(openings_view(host.openings@) =~= drawn_session.openings.push(opening_value));
    let message = host.prover.introduce_new(basis, sum);
    Host::send(challenger, message);
    let beta = challenger.sample_f128();
    host.prover.glue(beta);
    let ghost phase = PhaseRun {
        oracle: witness@,
        samples: samples@,
        nonce,
        picks: picks@,
        alpha: alpha@,
        path,
        basis: basis_value,
        sum,
        beta,
        folds: Seq::empty(),
    };
    let ghost bound = host.session(challenger.history());
    assert(bound =~= drawn_session.opened(
        Opening { rows: previous.oracle().rows(picks@), path },
    ).bound(basis_value, sum, beta));
    let (rs, steps) = host.fold_planes(
        challenger,
        entry_or_zero(&config.fold_grinding_bits, p + 1) as u32,
        k,
        Ghost(n as nat),
    );
    let ghost run = PhaseRun { folds: steps@, ..phase };
    assert(bound == after_phase(before, *config, p as int, previous.oracle(), run));
    (witness, rs, Ghost(run))
}

/// Sends elements one by one.
fn observe_all<C: Challenger>(challenger: &mut C, values: &Vec<F128>)
    ensures
        old(challenger).consistent() ==> final(challenger).consistent(),
        final(challenger).history() == observed(old(challenger).history(), values@),
{
    let ghost start = challenger.history();
    let mut i: usize = 0;
    while i < values.len()
        invariant
            old(challenger).consistent() ==> challenger.consistent(),
            i <= values@.len(),
            challenger.history() == observed(start, values@.take(i as int)),
        decreases values@.len() - i,
    {
        challenger.observe_f128(values[i]);
        i = i + 1;
        assert(values@.take(i as int).drop_last() =~= values@.take(i - 1));
    }
    assert(values@.take(i as int) =~= values@);
}

/// Everything after the folds of the first commitment: all phases, and the end of
/// the proof.
pub(crate) fn complete<C, M, P, A, D>(
    host: Host,
    challenger: &mut C,
    config: &ProverConfig,
    kernels: &PcsKernels<M, P, A, D>,
    log_n: usize,
    codeword: &[F128],
    tree: &[Digest],
    lanes: Vec<F128>,
) -> (out: (LigeritoProof, Ghost<Seq<PhaseRun>>, Ghost<LastRun>)) where
    C: Challenger,
    M: Fn(&[F128], usize, usize, usize) -> LigeroWitness,
    P: Fn(&[Digest], usize, &[usize]) -> Vec<Digest>,
    A: Fn(usize, usize, &[Vec<F128>], &[F128], &[usize], &[F128]) -> (Vec<F128>, F128),
    D: Fn(usize, &[Vec<F128>], &[F128], &[usize], &[F128]) -> (Vec<F128>, F128),

    requires
        kernels_ready(*kernels),
        config.initial_k <= log_n,
        config_fits(*config, log_n as int, codeword@.len(), tree@.len()),
        host.at_rest((log_n - config.initial_k) as nat),
        host.openings@.len() == 0,
        lanes@.len() == config.initial_k,
    ensures
        old(challenger).consistent() ==> final(challenger).consistent(),
        completed(
            *kernels,
            *config,
            log_n as int,
            host.session(old(challenger).history()),
            first_oracle(*config, log_n as int, codeword@, tree@),
            lanes@,
            out.1@,
            out.2@,
            final(challenger).history(),
            out.0,
        ),
{
    let mut host = host;
    let ghost start = host.session(challenger.history());
    let ghost first = first_oracle(*config, log_n as int, codeword@, tree@);
    let ghost mut phases: Seq<PhaseRun> = Seq::empty();
    let r = config.recursive_steps;
    let columns = log_n - config.initial_k;
    let rate = config.log_inv_rates[0];
    proof {
        lemma_sizes(columns as nat, config.initial_k as nat, rate as nat);
    }
    let previous = OpenedOracle {
        codeword,
        tree,
        block_len: power_of_two(columns + rate),
        num_interleaved: power_of_two(config.initial_k),
    };
    let initial_root = tree[tree.len() - 1];
    let mut n: usize = columns;
    assert(phase_fits(*config, log_n as int, 0));
    let (witness, rs, run) = run_phase(
        &mut host,
        challenger,
        config,
        kernels,
        0,
        n,
        &previous,
        &lanes,
        Ghost(log_n as int),
    );
    let mut witness: LigeroWitness = witness;
    let mut rs: Vec<F128> = rs;
    proof {
        reveal_with_fuel(after_phases, 2);
        reveal_with_fuel(phases_answered, 2);
        reveal_with_fuel(plane_log, 2);
        phases = seq![run@];
        assert(phases.drop_last() =~= Seq::empty());
    }
    n = n - config.recursive_ks[0];
    let mut p: usize = 1;
    while p < r
        invariant
            old(challenger).consistent() ==> challenger.consistent(),
            1 <= p <= r,
            r == config.recursive_steps,
            kernels_ready(*kernels),
            config_fits(*config, log_n as int, codeword@.len(), tree@.len()),
            n == plane_log(*config, log_n as int, p as int),
            host.at_rest(n as nat),
            host.openings@.len() == p,
            phases.len() == p,
            witness@ == phases[p - 1].oracle,
            witness@.shaped(
                (plane_log(*config, log_n as int, p - 1) - config.recursive_ks@[p - 1]) as nat,
                config.recursive_ks@[p - 1] as nat,
                config.log_inv_rates@[p as int] as nat,
            ),
            rs@ == challenges(phases[p - 1].folds),
            phases[p - 1].folds.len() == config.recursive_ks@[p - 1],
            phases_answered(
                *kernels,
                *config,
                log_n as int,
                start,
                first,
                lanes@,
                phases,
            ),
            host.session(challenger.history()) == after_phases(start, *config, first, phases),
        decreases r - p,
    {
        assert(phase_fits(*config, log_n as int, p - 1));
        assert(phase_fits(*config, log_n as int, p as int));
        let opened = OpenedOracle {
            codeword: witness.codeword.as_slice(),
            tree: witness.tree.as_slice(),
            block_len: witness.block_len,
            num_interleaved: witness.num_interleaved,
        };
        assert(opened.oracle() == witness@);
        let (next, folds, run) = run_phase(
            &mut host,
            challenger,
            config,
            kernels,
            p,
            n,
            &opened,
            &rs,
            Ghost(log_n as int),
        );
        proof {
            assert(phases.push(run@).drop_last() =~= phases);
            phases = phases.push(run@);
        }
        n = n - config.recursive_ks[p];
        witness = next;
        rs = folds;
        p = p + 1;
    }
    assert(phase_fits(*config, log_n as int, r - 1));
    let ghost reached = host.session(challenger.history());
    let mut yr: Vec<F128> = Vec::new();
    yr.extend_from_slice(host.prover.f.as_slice());
    assert(yr@ =~= reached.sumcheck.f);
    observe_all(challenger, &yr);
    let (nonce, picks, alpha) = host.query(
        challenger,
        config.grinding_bits[r] as u32,
        witness.block_len,
        config.queries[r],
    );
    let beta = challenger.sample_f128();
    let opened = OpenedOracle {
        codeword: witness.codeword.as_slice(),
        tree: witness.tree.as_slice(),
        block_len: witness.block_len,
        num_interleaved: witness.num_interleaved,
    };
    assert(opened.oracle() == witness@);
    let last_opening = open(&kernels.multi_proof, &opened, &picks);
    let ghost last = LastRun {
        nonce,
        picks: picks@,
        alpha: alpha@,
        beta,
        path: last_opening.merkle_proof@,
    };
    let ghost end = host.session(challenger.history());
    assert(end =~= ended(reached, *config, witness.block_len, last));
    let proof = host.into_proof(initial_root, yr, last_opening);
    (proof, Ghost(phases), Ghost(last))
}

/// The commitment that was made before the proof.
pub open spec fn first_oracle(
    config: ProverConfig,
    log_n: int,
    codeword: Seq<F128>,
    tree: Seq<Digest>,
) -> Oracle {
    Oracle {
        codeword,
        tree,
        block_len: pow2((log_n - config.initial_k + config.log_inv_rates@[0]) as nat),
        width: pow2(config.initial_k as nat),
    }
}

proof fn lemma_sizes(columns: nat, k: nat, rate: nat)
    requires
        pow2(columns + k + rate) <= usize::MAX,
    ensures
        pow2(columns + rate) <= usize::MAX,
        pow2(k) <= usize::MAX,
        pow2(columns + rate) >= 1,
        pow2(columns) <= usize::MAX,
        columns + rate <= usize::MAX,
{
    let total = columns + k + rate;
    lemma_pow2_at_most(columns + rate, total);
    lemma_pow2_at_most(columns, total);
    lemma_pow2_at_most(k, total);
    lemma_below_power(columns + rate);
    vstd::arithmetic::power2::lemma_pow2_pos(columns + rate);
}

proof fn lemma_pow2_at_most(a: nat, b: nat)
    requires
        a <= b,
    ensures
        pow2(a) <= pow2(b),
{
    if a < b {
        vstd::arithmetic::power2::lemma_pow2_strictly_increases(a, b);
    }
}

pub proof fn lemma_below_power(n: nat)
    ensures
        n < pow2(n),
    decreases n,
{
    vstd::arithmetic::power2::lemma2_to64();
    if n > 0 {
        lemma_below_power((n - 1) as nat);
        lemma_pow2_unfold(n);
    }
}

} // verus!
