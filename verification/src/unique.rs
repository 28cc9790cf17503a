//! Opening proofs are determined: with a transcript that answers by a rule and kernels
//! that answer equal arguments equally, two runs on equal inputs agree in everything.
use crate::field::F128;
use crate::ligerito::{
    after_folds, after_phase, after_phases, after_samples, basis_answered, challenges,
    commit_answered, completed, entry, initial_basis_answered, lane_challenges, observed,
    opened_oracle, openings_view, path_answered, phase_answered, phases_answered, plane_log,
    rows_view, taper, Digest, FoldStep, LastRun, LigeritoProof, LigeroWitness, OodStep, Opening,
    Oracle, PcsKernels, PhaseRun, ProverConfig, Session,
};
use crate::opening::{host_completed, host_proved};
use crate::sumcheck::SumcheckMessage;
use crate::transcript::{lemma_obeys_prefix, lemma_obeys_push, obeys, Event, Rule};
use vstd::prelude::*;

verus! {

/// A proof by value.
pub struct ProofView {
    pub initial_root: Digest,
    pub initial_proof: Opening,
    pub recursive_roots: Seq<Digest>,
    pub recursive_proofs: Seq<Opening>,
    pub yr: Seq<F128>,
    pub opened_rows: Seq<Seq<F128>>,
    pub merkle_proof: Seq<Digest>,
    pub sumcheck_transcript: Seq<SumcheckMessage>,
    pub grinding_nonces: Seq<u64>,
    pub ood_values: Seq<F128>,
    pub fold_grinding_nonces: Seq<u64>,
}

impl View for LigeritoProof {
    type V = ProofView;

    open spec fn view(&self) -> ProofView {
        ProofView {
            initial_root: self.initial_root,
            initial_proof: self.initial_proof@,
            recursive_roots: self.recursive_roots@,
            recursive_proofs: openings_view(self.recursive_proofs@),
            yr: self.final_proof.yr@,
            opened_rows: rows_view(self.final_proof.opened_rows@),
            merkle_proof: self.final_proof.merkle_proof@,
            sumcheck_transcript: self.sumcheck_transcript@,
            grinding_nonces: self.grinding_nonces@,
            ood_values: self.ood_values@,
            fold_grinding_nonces: self.fold_grinding_nonces@,
        }
    }
}

/// Every kernel answers equal arguments equally.
pub open spec fn kernels_functional<M, P, A, D>(kernels: PcsKernels<M, P, A, D>) -> bool where
    M: Fn(&[F128], usize, usize, usize) -> LigeroWitness,
    P: Fn(&[Digest], usize, &[usize]) -> Vec<Digest>,
    A: Fn(usize, usize, &[Vec<F128>], &[F128], &[usize], &[F128]) -> (Vec<F128>, F128),
    D: Fn(usize, &[Vec<F128>], &[F128], &[usize], &[F128]) -> (Vec<F128>, F128),
 {
    &&& forall|f: Seq<F128>, columns: usize, interleaved: usize, rate: usize, o: Oracle, q: Oracle|
        #[trigger] commit_answered(kernels.commit, f, columns, interleaved, rate, o)
            && #[trigger] commit_answered(kernels.commit, f, columns, interleaved, rate, q) ==> o
            == q
    &&& forall|
        tree: Seq<Digest>,
        leaves: usize,
        picks: Seq<usize>,
        u: Seq<Digest>,
        v: Seq<Digest>,
    |
        #[trigger] path_answered(kernels.multi_proof, tree, leaves, picks, u)
            && #[trigger] path_answered(kernels.multi_proof, tree, leaves, picks, v) ==> u == v
    &&& forall|
        n: usize,
        rate: usize,
        rows: Seq<Seq<F128>>,
        lanes: Seq<F128>,
        picks: Seq<usize>,
        alpha: Seq<F128>,
        b: Seq<F128>,
        t: F128,
        c: Seq<F128>,
        u: F128,
    |
        #[trigger] initial_basis_answered(
            kernels.induce_initial,
            n,
            rate,
            rows,
            lanes,
            picks,
            alpha,
            b,
            t,
        ) && #[trigger] initial_basis_answered(
            kernels.induce_initial,
            n,
            rate,
            rows,
            lanes,
            picks,
            alpha,
            c,
            u,
        ) ==> b == c && t == u
    &&& forall|
        n: usize,
        rows: Seq<Seq<F128>>,
        lanes: Seq<F128>,
        picks: Seq<usize>,
        alpha: Seq<F128>,
        b: Seq<F128>,
        t: F128,
        c: Seq<F128>,
        u: F128,
    |
        #[trigger] basis_answered(kernels.induce, n, rows, lanes, picks, alpha, b, t)
            && #[trigger] basis_answered(kernels.induce, n, rows, lanes, picks, alpha, c, u) ==> b
            == c && t == u
}

/// `later` continues the transcript of `earlier`.
spec fn grows(earlier: Session, later: Session) -> bool {
    earlier.events.is_prefix_of(later.events)
}

pub(crate) proof fn lemma_prefix_trans(a: Seq<Event>, b: Seq<Event>, c: Seq<Event>)
    requires
        a.is_prefix_of(b),
        b.is_prefix_of(c),
    ensures
        a.is_prefix_of(c),
{
    assert(a =~= c.subrange(0, a.len() as int)) by {
        assert forall|i: int| 0 <= i < a.len() implies a[i] == c[i] by {
            assert(a[i] == b.subrange(0, a.len() as int)[i]);
            assert(b[i] == c.subrange(0, b.len() as int)[i]);
        }
    }
}

pub(crate) proof fn lemma_prefix_push(a: Seq<Event>, b: Seq<Event>, e: Event)
    requires
        a.is_prefix_of(b),
    ensures
        a.is_prefix_of(b.push(e)),
{
    assert(b.is_prefix_of(b.push(e)));
    lemma_prefix_trans(a, b, b.push(e));
}

proof fn lemma_folded_grows(s: Session, bits: u32, step: FoldStep)
    ensures
        grows(s, s.challenged(bits, step)),
        grows(s.challenged(bits, step), s.folded(bits, step)),
        grows(s, s.folded(bits, step)),
{
    let h = s.events;
    let drawn_session = s.challenged(bits, step);
    assert(h.is_prefix_of(h));
    if bits > 0 {
        lemma_prefix_push(h, h, Event::Grind(bits, step.nonce));
        lemma_prefix_push(h, h.push(Event::Grind(bits, step.nonce)), Event::Sample(step.r));
    } else {
        lemma_prefix_push(h, h, Event::Sample(step.r));
    }
    let message = drawn_session.sumcheck.folded(step.r).messages.last();
    let d = drawn_session.events;
    assert(d.is_prefix_of(d));
    lemma_prefix_push(d, d, Event::Observe(message.u_0));
    lemma_prefix_push(d, d.push(Event::Observe(message.u_0)), Event::Observe(message.u_2));
    lemma_prefix_trans(h, d, s.folded(bits, step).events);
}

proof fn lemma_folds_grow(s: Session, bits: u32, steps: Seq<FoldStep>)
    ensures
        grows(s, after_folds(s, bits, steps)),
    decreases steps.len(),
{
    if steps.len() == 0 {
        assert(s.events.is_prefix_of(s.events));
    } else {
        let before = after_folds(s, bits, steps.drop_last());
        lemma_folds_grow(s, bits, steps.drop_last());
        lemma_folded_grows(before, taper(bits, steps.len() - 1), steps.last());
        lemma_prefix_trans(s.events, before.events, after_folds(s, bits, steps).events);
    }
}

/// A challenge and the nonce before it are answers to what came before them.
pub(crate) proof fn lemma_challenge_unique(
    s: Session,
    bits: u32,
    x: FoldStep,
    y: FoldStep,
    from: nat,
    rule: Rule,
)
    requires
        from <= s.events.len(),
        obeys(s.challenged(bits, x).events, from, rule),
        obeys(s.challenged(bits, y).events, from, rule),
    ensures
        x.r == y.r,
        s.challenged(bits, x) == s.challenged(bits, y),
{
    let h = s.events;
    if bits > 0 {
        let (gx, gy) = (Event::Grind(bits, x.nonce), Event::Grind(bits, y.nonce));
        lemma_obeys_push(h.push(gx), Event::Sample(x.r), from, rule);
        lemma_obeys_push(h.push(gy), Event::Sample(y.r), from, rule);
        lemma_obeys_push(h, gx, from, rule);
        lemma_obeys_push(h, gy, from, rule);
    } else {
        lemma_obeys_push(h, Event::Sample(x.r), from, rule);
        lemma_obeys_push(h, Event::Sample(y.r), from, rule);
    }
}

proof fn lemma_folds_unique(
    s: Session,
    bits: u32,
    xs: Seq<FoldStep>,
    ys: Seq<FoldStep>,
    from: nat,
    rule: Rule,
)
    requires
        xs.len() == ys.len(),
        from <= s.events.len(),
        obeys(after_folds(s, bits, xs).events, from, rule),
        obeys(after_folds(s, bits, ys).events, from, rule),
    ensures
        after_folds(s, bits, xs) == after_folds(s, bits, ys),
        challenges(xs) == challenges(ys),
    decreases xs.len(),
{
    if xs.len() > 0 {
        let (bx, by) = (xs.drop_last(), ys.drop_last());
        let (sx, sy) = (after_folds(s, bits, bx), after_folds(s, bits, by));
        let t = taper(bits, xs.len() - 1);
        lemma_folded_grows(sx, t, xs.last());
        lemma_folded_grows(sy, t, ys.last());
        lemma_obeys_prefix(sx.events, after_folds(s, bits, xs).events, from, rule);
        lemma_obeys_prefix(sy.events, after_folds(s, bits, ys).events, from, rule);
        lemma_folds_unique(s, bits, bx, by, from, rule);
        lemma_folds_grow(s, bits, bx);
        lemma_obeys_prefix(
            sx.challenged(t, xs.last()).events,
            after_folds(s, bits, xs).events,
            from,
            rule,
        );
        lemma_obeys_prefix(
            sy.challenged(t, ys.last()).events,
            after_folds(s, bits, ys).events,
            from,
            rule,
        );
        lemma_challenge_unique(sx, t, xs.last(), ys.last(), from, rule);
        assert forall|i: int| 0 <= i < xs.len() implies challenges(xs)[i] == challenges(ys)[i] by {
            if i < bx.len() {
                assert(challenges(bx)[i] == challenges(by)[i]);
            }
        }
    }
    assert(challenges(xs) =~= challenges(ys));
}

proof fn lemma_sampled_grows(s: Session, step: OodStep)
    ensures
        grows(s, s.sampled(step)),
{
    let h = s.events;
    let end = s.sampled(step).events;
    assert(h =~= end.subrange(0, h.len() as int));
}

proof fn lemma_samples_grow(s: Session, steps: Seq<OodStep>)
    ensures
        grows(s, after_samples(s, steps)),
    decreases steps.len(),
{
    if steps.len() == 0 {
        assert(s.events.is_prefix_of(s.events));
    } else {
        let before = after_samples(s, steps.drop_last());
        lemma_samples_grow(s, steps.drop_last());
        lemma_sampled_grows(before, steps.last());
        lemma_prefix_trans(s.events, before.events, after_samples(s, steps).events);
    }
}

proof fn lemma_sample_unique(s: Session, x: OodStep, y: OodStep, from: nat, rule: Rule)
    requires
        from <= s.events.len(),
        x.z.len() == y.z.len(),
        obeys(s.sampled(x).events, from, rule),
        obeys(s.sampled(y).events, from, rule),
    ensures
        x == y,
{
    let h = s.events;
    let (zx, zy) = (h.push(Event::SampleVec(x.z)), h.push(Event::SampleVec(y.z)));
    let (ex, ey) = (s.sampled(x).events, s.sampled(y).events);
    assert(zx =~= ex.subrange(0, zx.len() as int));
    assert(zy =~= ey.subrange(0, zy.len() as int));
    lemma_obeys_prefix(zx, ex, from, rule);
    lemma_obeys_prefix(zy, ey, from, rule);
    lemma_obeys_push(h, Event::SampleVec(x.z), from, rule);
    lemma_obeys_push(h, Event::SampleVec(y.z), from, rule);
    assert(x.z == y.z);
    let (px, py) = (ex.drop_last(), ey.drop_last());
    assert(px =~= py);
    assert(ex =~= px.push(Event::Sample(x.beta)));
    assert(ey =~= py.push(Event::Sample(y.beta)));
    lemma_obeys_push(px, Event::Sample(x.beta), from, rule);
    lemma_obeys_push(py, Event::Sample(y.beta), from, rule);
}

proof fn lemma_samples_unique(
    s: Session,
    xs: Seq<OodStep>,
    ys: Seq<OodStep>,
    n: int,
    from: nat,
    rule: Rule,
)
    requires
        xs.len() == ys.len(),
        from <= s.events.len(),
        forall|i: int| 0 <= i < xs.len() ==> (#[trigger] xs[i]).z.len() == n,
        forall|i: int| 0 <= i < ys.len() ==> (#[trigger] ys[i]).z.len() == n,
        obeys(after_samples(s, xs).events, from, rule),
        obeys(after_samples(s, ys).events, from, rule),
    ensures
        after_samples(s, xs) == after_samples(s, ys),
    decreases xs.len(),
{
    if xs.len() > 0 {
        let (bx, by) = (xs.drop_last(), ys.drop_last());
        let (sx, sy) = (after_samples(s, bx), after_samples(s, by));
        lemma_sampled_grows(sx, xs.last());
        lemma_sampled_grows(sy, ys.last());
        lemma_obeys_prefix(sx.events, after_samples(s, xs).events, from, rule);
        lemma_obeys_prefix(sy.events, after_samples(s, ys).events, from, rule);
        assert forall|i: int| 0 <= i < bx.len() implies (#[trigger] bx[i]).z.len() == n by {
            assert(bx[i] == xs[i]);
        }
        assert forall|i: int| 0 <= i < by.len() implies (#[trigger] by[i]).z.len() == n by {
            assert(by[i] == ys[i]);
        }
        lemma_samples_unique(s, bx, by, n, from, rule);
        lemma_samples_grow(s, bx);
        assert(xs.last() == xs[xs.len() - 1] && ys.last() == ys[ys.len() - 1]);
        lemma_sample_unique(sx, xs.last(), ys.last(), from, rule);
    }
}

proof fn lemma_queried_grows(
    s: Session,
    bits: u32,
    nonce: u64,
    range: usize,
    picks: Seq<usize>,
    alpha: Seq<F128>,
)
    ensures
        grows(s, s.queried(bits, nonce, range, picks, alpha)),
{
    let h = s.events;
    assert(h =~= s.queried(bits, nonce, range, picks, alpha).events.subrange(0, h.len() as int));
}

proof fn lemma_queries_unique(
    s: Session,
    bits: u32,
    range: usize,
    x: (u64, Seq<usize>, Seq<F128>),
    y: (u64, Seq<usize>, Seq<F128>),
    from: nat,
    rule: Rule,
)
    requires
        from <= s.events.len(),
        x.1.len() == y.1.len(),
        x.2.len() == y.2.len(),
        obeys(s.queried(bits, x.0, range, x.1, x.2).events, from, rule),
        obeys(s.queried(bits, y.0, range, y.1, y.2).events, from, rule),
    ensures
        x == y,
{
    let h = s.events;
    let (gx, gy) = (h.push(Event::Grind(bits, x.0)), h.push(Event::Grind(bits, y.0)));
    let (qx, qy) = (gx.push(Event::Queries(range, x.1)), gy.push(Event::Queries(range, y.1)));
    lemma_obeys_push(qx, Event::SampleVec(x.2), from, rule);
    lemma_obeys_push(qy, Event::SampleVec(y.2), from, rule);
    lemma_obeys_push(gx, Event::Queries(range, x.1), from, rule);
    lemma_obeys_push(gy, Event::Queries(range, y.1), from, rule);
    lemma_obeys_push(h, Event::Grind(bits, x.0), from, rule);
    lemma_obeys_push(h, Event::Grind(bits, y.0), from, rule);
}

proof fn lemma_bound_unique(
    s: Session,
    basis: Seq<F128>,
    sum: F128,
    x: F128,
    y: F128,
    from: nat,
    rule: Rule,
)
    requires
        from <= s.events.len(),
        obeys(s.bound(basis, sum, x).events, from, rule),
        obeys(s.bound(basis, sum, y).events, from, rule),
    ensures
        x == y,
        grows(s, s.bound(basis, sum, x)),
{
    let message = crate::sumcheck::message_of(s.sumcheck.f, basis);
    let h = s.sent(message).events;
    lemma_obeys_push(h, Event::Sample(x), from, rule);
    lemma_obeys_push(h, Event::Sample(y), from, rule);
    assert(s.events =~= s.bound(basis, sum, x).events.subrange(0, s.events.len() as int));
}

proof fn lemma_bound_grows(s: Session, basis: Seq<F128>, sum: F128, beta: F128)
    ensures
        grows(s, s.bound(basis, sum, beta)),
{
    assert(s.events =~= s.bound(basis, sum, beta).events.subrange(0, s.events.len() as int));
}

/// The session of a phase when its positions have been drawn.
spec fn phase_drawn(
    s: Session,
    config: ProverConfig,
    p: int,
    previous: Oracle,
    run: PhaseRun,
) -> Session {
    after_samples(s.committed(run.oracle.root()), run.samples).queried(
        config.grinding_bits@[p] as u32,
        run.nonce,
        previous.block_len as usize,
        run.picks,
        run.alpha,
    )
}

proof fn lemma_phase_grows(
    s: Session,
    config: ProverConfig,
    p: int,
    previous: Oracle,
    run: PhaseRun,
)
    ensures
        grows(s, s.committed(run.oracle.root())),
        grows(
            after_samples(s.committed(run.oracle.root()), run.samples),
            phase_drawn(s, config, p, previous, run),
        ),
        grows(phase_drawn(s, config, p, previous, run), after_phase(s, config, p, previous, run)),
        grows(s, after_samples(s.committed(run.oracle.root()), run.samples)),
        grows(
            after_samples(s.committed(run.oracle.root()), run.samples),
            after_phase(s, config, p, previous, run),
        ),
        grows(s, after_phase(s, config, p, previous, run)),
{
    let sent = s.committed(run.oracle.root());
    let sampled = after_samples(sent, run.samples);
    let drawn_session = phase_drawn(s, config, p, previous, run);
    let end = after_phase(s, config, p, previous, run);
    assert(s.events =~= sent.events.subrange(0, s.events.len() as int));
    lemma_samples_grow(sent, run.samples);
    lemma_queried_grows(
        sampled,
        config.grinding_bits@[p] as u32,
        run.nonce,
        previous.block_len as usize,
        run.picks,
        run.alpha,
    );
    let opening = Opening { rows: previous.rows(run.picks), path: run.path };
    lemma_bound_grows(drawn_session.opened(opening), run.basis, run.sum, run.beta);
    lemma_prefix_trans(s.events, sent.events, sampled.events);
    lemma_prefix_trans(sampled.events, drawn_session.events, end.events);
    lemma_prefix_trans(s.events, sampled.events, end.events);
}

proof fn lemma_phase_unique<M, P, A, D>(
    kernels: PcsKernels<M, P, A, D>,
    config: ProverConfig,
    p: int,
    n: int,
    s: Session,
    previous: Oracle,
    lanes: Seq<F128>,
    x: PhaseRun,
    y: PhaseRun,
    from: nat,
    rule: Rule,
) where
    M: Fn(&[F128], usize, usize, usize) -> LigeroWitness,
    P: Fn(&[Digest], usize, &[usize]) -> Vec<Digest>,
    A: Fn(usize, usize, &[Vec<F128>], &[F128], &[usize], &[F128]) -> (Vec<F128>, F128),
    D: Fn(usize, &[Vec<F128>], &[F128], &[usize], &[F128]) -> (Vec<F128>, F128),

    requires
        kernels_functional(kernels),
        from <= s.events.len(),
        phase_answered(kernels, config, p, n, s.sumcheck.f, previous, lanes, x),
        phase_answered(kernels, config, p, n, s.sumcheck.f, previous, lanes, y),
        obeys(after_phase(s, config, p, previous, x).events, from, rule),
        obeys(after_phase(s, config, p, previous, y).events, from, rule),
    ensures
        x.oracle == y.oracle,
        after_phase(s, config, p, previous, x) == after_phase(s, config, p, previous, y),
{
    assert(x.oracle == y.oracle);
    let sent = s.committed(x.oracle.root());
    let (ex, ey) = (
        after_phase(s, config, p, previous, x).events,
        after_phase(s, config, p, previous, y).events,
    );
    lemma_phase_grows(s, config, p, previous, x);
    lemma_phase_grows(s, config, p, previous, y);
    let (sx, sy) = (after_samples(sent, x.samples), after_samples(sent, y.samples));
    lemma_obeys_prefix(sx.events, ex, from, rule);
    lemma_obeys_prefix(sy.events, ey, from, rule);
    lemma_samples_unique(sent, x.samples, y.samples, n, from, rule);
    let (dx, dy) = (
        phase_drawn(s, config, p, previous, x),
        phase_drawn(s, config, p, previous, y),
    );
    lemma_obeys_prefix(dx.events, ex, from, rule);
    lemma_obeys_prefix(dy.events, ey, from, rule);
    lemma_samples_grow(sent, x.samples);
    lemma_queries_unique(
        sx,
        config.grinding_bits@[p] as u32,
        previous.block_len as usize,
        (x.nonce, x.picks, x.alpha),
        (y.nonce, y.picks, y.alpha),
        from,
        rule,
    );
    assert(x.path == y.path);
    assert(x.basis == y.basis && x.sum == y.sum);
    let opening = Opening { rows: previous.rows(x.picks), path: x.path };
    lemma_queried_grows(
        sx,
        config.grinding_bits@[p] as u32,
        x.nonce,
        previous.block_len as usize,
        x.picks,
        x.alpha,
    );
    lemma_bound_unique(dx.opened(opening), x.basis, x.sum, x.beta, y.beta, from, rule);
}

proof fn lemma_phases_grow(
    s: Session,
    config: ProverConfig,
    first: Oracle,
    phases: Seq<PhaseRun>,
)
    ensures
        grows(s, after_phases(s, config, first, phases)),
        phases.len() > 0 ==> {
            let p = phases.len() - 1;
            let before = after_phases(s, config, first, phases.drop_last());
            let bound = after_phase(
                before,
                config,
                p,
                opened_oracle(first, phases, p),
                phases.last(),
            );
            &&& grows(before, after_phases(s, config, first, phases))
            &&& grows(before, bound)
            &&& grows(bound, after_phases(s, config, first, phases))
        },
    decreases phases.len(),
{
    if phases.len() == 0 {
        assert(s.events.is_prefix_of(s.events));
    } else {
        let p = phases.len() - 1;
        let before = after_phases(s, config, first, phases.drop_last());
        let previous = opened_oracle(first, phases, p);
        let bound = after_phase(before, config, p, previous, phases.last());
        lemma_phases_grow(s, config, first, phases.drop_last());
        lemma_phase_grows(before, config, p, previous, phases.last());
        lemma_folds_grow(
            bound,
            entry(config.fold_grinding_bits@, p + 1) as u32,
            phases.last().folds,
        );
        let end = after_phases(s, config, first, phases);
        lemma_prefix_trans(before.events, bound.events, end.events);
        lemma_prefix_trans(s.events, before.events, end.events);
    }
}

#[verifier::rlimit(40)]
proof fn lemma_phases_unique<M, P, A, D>(
    kernels: PcsKernels<M, P, A, D>,
    config: ProverConfig,
    log_n: int,
    s: Session,
    first: Oracle,
    prefix: Seq<F128>,
    xs: Seq<PhaseRun>,
    ys: Seq<PhaseRun>,
    from: nat,
    rule: Rule,
) where
    M: Fn(&[F128], usize, usize, usize) -> LigeroWitness,
    P: Fn(&[Digest], usize, &[usize]) -> Vec<Digest>,
    A: Fn(usize, usize, &[Vec<F128>], &[F128], &[usize], &[F128]) -> (Vec<F128>, F128),
    D: Fn(usize, &[Vec<F128>], &[F128], &[usize], &[F128]) -> (Vec<F128>, F128),

    requires
        kernels_functional(kernels),
        xs.len() == ys.len(),
        from <= s.events.len(),
        phases_answered(kernels, config, log_n, s, first, prefix, xs),
        phases_answered(kernels, config, log_n, s, first, prefix, ys),
        obeys(after_phases(s, config, first, xs).events, from, rule),
        obeys(after_phases(s, config, first, ys).events, from, rule),
    ensures
        after_phases(s, config, first, xs) == after_phases(s, config, first, ys),
        forall|i: int|
            0 <= i < xs.len() ==> (#[trigger] xs[i]).oracle == ys[i].oracle && challenges(
                xs[i].folds,
            ) == challenges(ys[i].folds),
    decreases xs.len(),
{
    if xs.len() > 0 {
        let p = xs.len() - 1;
        let (bx, by) = (xs.drop_last(), ys.drop_last());
        let (ex, ey) = (
            after_phases(s, config, first, xs).events,
            after_phases(s, config, first, ys).events,
        );
        let (sx, sy) = (
            after_phases(s, config, first, bx),
            after_phases(s, config, first, by),
        );
        lemma_phases_grow(s, config, first, xs);
        lemma_phases_grow(s, config, first, ys);
        lemma_obeys_prefix(sx.events, ex, from, rule);
        lemma_obeys_prefix(sy.events, ey, from, rule);
        lemma_phases_unique(kernels, config, log_n, s, first, prefix, bx, by, from, rule);
        lemma_phases_grow(s, config, first, bx);
        if p > 0 {
            assert(bx[p - 1].oracle == by[p - 1].oracle);
            assert(bx[p - 1] == xs[p - 1] && by[p - 1] == ys[p - 1]);
        }
        let previous = opened_oracle(first, xs, p);
        assert(previous == opened_oracle(first, ys, p));
        let lanes = lane_challenges(prefix, xs, p);
        assert(lanes == lane_challenges(prefix, ys, p));
        let (mx, my) = (
            after_phase(sx, config, p, previous, xs.last()),
            after_phase(sy, config, p, previous, ys.last()),
        );
        lemma_obeys_prefix(mx.events, ex, from, rule);
        lemma_obeys_prefix(my.events, ey, from, rule);
        lemma_phase_unique(
            kernels,
            config,
            p,
            plane_log(config, log_n, p),
            sx,
            previous,
            lanes,
            xs.last(),
            ys.last(),
            from,
            rule,
        );
        lemma_phase_grows(sx, config, p, previous, xs.last());
        lemma_folds_unique(
            mx,
            entry(config.fold_grinding_bits@, p + 1) as u32,
            xs.last().folds,
            ys.last().folds,
            from,
            rule,
        );
        assert forall|i: int| 0 <= i < xs.len() implies (#[trigger] xs[i]).oracle == ys[i].oracle
            && challenges(xs[i].folds) == challenges(ys[i].folds) by {
            if i < p {
                assert(bx[i] == xs[i] && by[i] == ys[i]);
            }
        }
    }
}

proof fn lemma_observed_grows(h: Seq<Event>, values: Seq<F128>)
    ensures
        h.is_prefix_of(observed(h, values)),
    decreases values.len(),
{
    if values.len() == 0 {
        assert(h.is_prefix_of(h));
    } else {
        lemma_observed_grows(h, values.drop_last());
        lemma_prefix_push(
            h,
            observed(h, values.drop_last()),
            Event::Observe(values.last()),
        );
    }
}

/// The rest of a proof is determined by the session after the first folds.
#[verifier::rlimit(30)]
pub proof fn law_completed_proof_is_unique<M, P, A, D>(
    kernels: PcsKernels<M, P, A, D>,
    config: ProverConfig,
    log_n: int,
    s: Session,
    first: Oracle,
    prefix: Seq<F128>,
    xs: Seq<PhaseRun>,
    x_last: LastRun,
    x_history: Seq<Event>,
    x_proof: LigeritoProof,
    ys: Seq<PhaseRun>,
    y_last: LastRun,
    y_history: Seq<Event>,
    y_proof: LigeritoProof,
    from: nat,
    rule: Rule,
) where
    M: Fn(&[F128], usize, usize, usize) -> LigeroWitness,
    P: Fn(&[Digest], usize, &[usize]) -> Vec<Digest>,
    A: Fn(usize, usize, &[Vec<F128>], &[F128], &[usize], &[F128]) -> (Vec<F128>, F128),
    D: Fn(usize, &[Vec<F128>], &[F128], &[usize], &[F128]) -> (Vec<F128>, F128),

    requires
        kernels_functional(kernels),
        config.recursive_steps >= 1,
        from <= s.events.len(),
        completed(kernels, config, log_n, s, first, prefix, xs, x_last, x_history, x_proof),
        completed(kernels, config, log_n, s, first, prefix, ys, y_last, y_history, y_proof),
        obeys(x_history, from, rule),
        obeys(y_history, from, rule),
    ensures
        x_history == y_history,
        x_proof@ == y_proof@,
{
    let r = config.recursive_steps as int;
    let (rx, ry) = (after_phases(s, config, first, xs), after_phases(s, config, first, ys));
    let (ox, oy) = (opened_oracle(first, xs, r), opened_oracle(first, ys, r));
    let (hx, hy) = (observed(rx.events, rx.sumcheck.f), observed(ry.events, ry.sumcheck.f));
    let bits = config.grinding_bits@[r] as u32;
    let (tx, ty) = (Session { events: hx, ..rx }, Session { events: hy, ..ry });
    let (qx, qy) = (
        tx.queried(bits, x_last.nonce, ox.block_len as usize, x_last.picks, x_last.alpha),
        ty.queried(bits, y_last.nonce, oy.block_len as usize, y_last.picks, y_last.alpha),
    );
    lemma_observed_grows(rx.events, rx.sumcheck.f);
    lemma_observed_grows(ry.events, ry.sumcheck.f);
    lemma_queried_grows(
        tx,
        bits,
        x_last.nonce,
        ox.block_len as usize,
        x_last.picks,
        x_last.alpha,
    );
    lemma_queried_grows(
        ty,
        bits,
        y_last.nonce,
        oy.block_len as usize,
        y_last.picks,
        y_last.alpha,
    );
    lemma_prefix_push(qx.events, qx.events, Event::Sample(x_last.beta));
    lemma_prefix_push(qy.events, qy.events, Event::Sample(y_last.beta));
    lemma_obeys_prefix(qx.events, x_history, from, rule);
    lemma_obeys_prefix(qy.events, y_history, from, rule);
    lemma_prefix_trans(rx.events, hx, qx.events);
    lemma_prefix_trans(ry.events, hy, qy.events);
    lemma_obeys_prefix(rx.events, qx.events, from, rule);
    lemma_obeys_prefix(ry.events, qy.events, from, rule);
    lemma_phases_unique(kernels, config, log_n, s, first, prefix, xs, ys, from, rule);
    lemma_phases_grow(s, config, first, xs);
    assert(xs[r - 1].oracle == ys[r - 1].oracle);
    lemma_queries_unique(
        tx,
        bits,
        ox.block_len as usize,
        (x_last.nonce, x_last.picks, x_last.alpha),
        (y_last.nonce, y_last.picks, y_last.alpha),
        from,
        rule,
    );
    lemma_obeys_push(qx.events, Event::Sample(x_last.beta), from, rule);
    lemma_obeys_push(qy.events, Event::Sample(y_last.beta), from, rule);
    assert(x_last.path == y_last.path);
}

/// The host's proof is determined by its inputs, the answers of the transcript and the
/// answers of the kernels: two runs with equal ones give equal proofs and transcripts.
pub proof fn law_host_proof_is_unique<M, P, A, D>(
    kernels: PcsKernels<M, P, A, D>,
    config: ProverConfig,
    log_n: int,
    start: Session,
    codeword: Seq<F128>,
    tree: Seq<Digest>,
    x_history: Seq<Event>,
    x_proof: LigeritoProof,
    y_history: Seq<Event>,
    y_proof: LigeritoProof,
    from: nat,
    rule: Rule,
) where
    M: Fn(&[F128], usize, usize, usize) -> LigeroWitness,
    P: Fn(&[Digest], usize, &[usize]) -> Vec<Digest>,
    A: Fn(usize, usize, &[Vec<F128>], &[F128], &[usize], &[F128]) -> (Vec<F128>, F128),
    D: Fn(usize, &[Vec<F128>], &[F128], &[usize], &[F128]) -> (Vec<F128>, F128),

    requires
        kernels_functional(kernels),
        config.recursive_steps >= 1,
        from <= start.events.len(),
        host_completed(kernels, config, log_n, start, codeword, tree, x_history, x_proof),
        host_completed(kernels, config, log_n, start, codeword, tree, y_history, y_proof),
        obeys(x_history, from, rule),
        obeys(y_history, from, rule),
    ensures
        x_history == y_history,
        x_proof@ == y_proof@,
{
    let (xf, xs, xl) = choose|steps: Seq<FoldStep>, phases: Seq<PhaseRun>, last: LastRun|
        #[trigger] host_proved(
            kernels,
            config,
            log_n,
            start,
            codeword,
            tree,
            steps,
            phases,
            last,
            x_history,
            x_proof,
        );
    let (yf, ys, yl) = choose|steps: Seq<FoldStep>, phases: Seq<PhaseRun>, last: LastRun|
        #[trigger] host_proved(
            kernels,
            config,
            log_n,
            start,
            codeword,
            tree,
            steps,
            phases,
            last,
            y_history,
            y_proof,
        );
    let bits = entry(config.fold_grinding_bits@, 0) as u32;
    let first = crate::host::first_oracle(config, log_n, codeword, tree);
    let (sx, sy) = (after_folds(start, bits, xf), after_folds(start, bits, yf));
    lemma_completed_grows(
        kernels,
        config,
        log_n,
        sx,
        first,
        challenges(xf),
        xs,
        xl,
        x_history,
        x_proof,
    );
    lemma_completed_grows(
        kernels,
        config,
        log_n,
        sy,
        first,
        challenges(yf),
        ys,
        yl,
        y_history,
        y_proof,
    );
    lemma_obeys_prefix(sx.events, x_history, from, rule);
    lemma_obeys_prefix(sy.events, y_history, from, rule);
    lemma_folds_unique(start, bits, xf, yf, from, rule);
    lemma_folds_grow(start, bits, xf);
    law_completed_proof_is_unique(
        kernels,
        config,
        log_n,
        sx,
        first,
        challenges(xf),
        xs,
        xl,
        x_history,
        x_proof,
        ys,
        yl,
        y_history,
        y_proof,
        from,
        rule,
    );
}

proof fn lemma_completed_grows<M, P, A, D>(
    kernels: PcsKernels<M, P, A, D>,
    config: ProverConfig,
    log_n: int,
    s: Session,
    first: Oracle,
    prefix: Seq<F128>,
    phases: Seq<PhaseRun>,
    last: LastRun,
    history: Seq<Event>,
    proof: LigeritoProof,
) where
    M: Fn(&[F128], usize, usize, usize) -> LigeroWitness,
    P: Fn(&[Digest], usize, &[usize]) -> Vec<Digest>,
    A: Fn(usize, usize, &[Vec<F128>], &[F128], &[usize], &[F128]) -> (Vec<F128>, F128),
    D: Fn(usize, &[Vec<F128>], &[F128], &[usize], &[F128]) -> (Vec<F128>, F128),

    requires
        completed(kernels, config, log_n, s, first, prefix, phases, last, history, proof),
    ensures
        s.events.is_prefix_of(history),
{
    let r = config.recursive_steps as int;
    let reached = after_phases(s, config, first, phases);
    let oracle = opened_oracle(first, phases, r);
    let h = observed(reached.events, reached.sumcheck.f);
    let t = Session { events: h, ..reached };
    let q = t.queried(
        config.grinding_bits@[r] as u32,
        last.nonce,
        oracle.block_len as usize,
        last.picks,
        last.alpha,
    );
    lemma_phases_grow(s, config, first, phases);
    lemma_observed_grows(reached.events, reached.sumcheck.f);
    lemma_queried_grows(
        t,
        config.grinding_bits@[r] as u32,
        last.nonce,
        oracle.block_len as usize,
        last.picks,
        last.alpha,
    );
    lemma_prefix_trans(reached.events, h, q.events);
    lemma_prefix_push(reached.events, q.events, Event::Sample(last.beta));
    lemma_prefix_trans(s.events, reached.events, history);
}

/// A proof of the host only adds to the transcript that it starts from.
pub proof fn law_host_transcript_grows<M, P, A, D>(
    kernels: PcsKernels<M, P, A, D>,
    config: ProverConfig,
    log_n: int,
    start: Session,
    codeword: Seq<F128>,
    tree: Seq<Digest>,
    history: Seq<Event>,
    proof: LigeritoProof,
) where
    M: Fn(&[F128], usize, usize, usize) -> LigeroWitness,
    P: Fn(&[Digest], usize, &[usize]) -> Vec<Digest>,
    A: Fn(usize, usize, &[Vec<F128>], &[F128], &[usize], &[F128]) -> (Vec<F128>, F128),
    D: Fn(usize, &[Vec<F128>], &[F128], &[usize], &[F128]) -> (Vec<F128>, F128),

    requires
        config.recursive_steps >= 1,
        host_completed(kernels, config, log_n, start, codeword, tree, history, proof),
    ensures
        start.events.is_prefix_of(history),
{
    let (steps, phases, last) = choose|
        steps: Seq<FoldStep>,
        phases: Seq<PhaseRun>,
        last: LastRun,
    | #[trigger]
        host_proved(
            kernels,
            config,
            log_n,
            start,
            codeword,
            tree,
            steps,
            phases,
            last,
            history,
            proof,
        );
    let bits = entry(config.fold_grinding_bits@, 0) as u32;
    let folded = after_folds(start, bits, steps);
    lemma_folds_grow(start, bits, steps);
    lemma_completed_grows(
        kernels,
        config,
        log_n,
        folded,
        crate::host::first_oracle(config, log_n, codeword, tree),
        challenges(steps),
        phases,
        last,
        history,
        proof,
    );
    lemma_prefix_trans(start.events, folded.events, history);
}

} // verus!
