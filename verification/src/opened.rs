//! What an opening proof opened: the rows of every commitment at the positions drawn, the
//! values of the witness at the sampled points, and what is left of the witness at the end.
use crate::extension::{extension, law_fold_binds_first_variable};
use crate::faithful::folded_through;
use crate::field::F128;
use crate::host::first_oracle;
use crate::ligerito::{
    after_folds, after_phase, after_phases, after_samples, challenges, completed, entry,
    lane_challenges, opened_oracle, phase_answered, phases_answered, plane_log, Digest, FoldStep,
    LastRun, LigeritoProof, LigeroWitness, OodStep, Opening, Oracle, PcsKernels, PhaseRun,
    ProverConfig, Session,
};
use crate::opening::{host_proved, host_start};
use crate::replay::{listed, values_before, variables_before};
use crate::sumcheck::SumcheckMessage;
use crate::transcript::Event;
use vstd::arithmetic::power2::{lemma_pow2_unfold, pow2};
use vstd::prelude::*;

verus! {

/// Rows of `width` elements, which are those of a codeword at some positions: row `i` holds
/// the elements from `picks[i] * width` on.
pub open spec fn rows_opened(
    rows: Seq<Vec<F128>>,
    codeword: Seq<F128>,
    width: int,
    picks: Seq<usize>,
) -> bool {
    &&& rows.len() == picks.len()
    &&& forall|i: int| 0 <= i < picks.len() ==> (#[trigger] rows[i])@.len() == width
    &&& forall|i: int, j: int|
        0 <= i < picks.len() && 0 <= j < width ==> #[trigger] rows[i]@[j] == codeword[picks[i]
            * width + j]
}

/// The multi-proof kernel was asked for these leaves of this tree, and answered this path.
pub open spec fn path_made<P>(
    multi_proof: P,
    tree: Seq<Digest>,
    leaves: nat,
    picks: Seq<usize>,
    path: Seq<Digest>,
) -> bool where P: Fn(&[Digest], usize, &[usize]) -> Vec<Digest> {
    exists|nodes: &[Digest], count: usize, list: &[usize], out: Vec<Digest>| #[trigger]
        call_ensures(multi_proof, (nodes, count, list), out) && nodes@ == tree && count == (
        leaves as usize) && list@ == picks && out@ == path
}

/// The commitment that a proof opens in phase `p`: that of the statement, or that of the
/// phase before.
pub open spec fn commitment(first: Oracle, phases: Seq<PhaseRun>, p: int) -> Oracle {
    if p == 0 {
        first
    } else {
        phases[p - 1].oracle
    }
}

/// What phase `p` recorded.
spec fn opening_of(first: Oracle, phases: Seq<PhaseRun>, p: int) -> Opening {
    let oracle = commitment(first, phases, p);
    Opening {
        rows: Seq::new(
            phases[p].picks.len(),
            |i: int|
                oracle.codeword.subrange(
                    phases[p].picks[i] * (oracle.width as int),
                    phases[p].picks[i] * (oracle.width as int) + (oracle.width as int),
                ),
        ),
        path: phases[p].path,
    }
}

proof fn lemma_folds_keep_openings(s: Session, bits: u32, steps: Seq<FoldStep>)
    ensures
        after_folds(s, bits, steps).openings == s.openings,
        after_folds(s, bits, steps).roots == s.roots,
    decreases steps.len(),
{
    if steps.len() > 0 {
        lemma_folds_keep_openings(s, bits, steps.drop_last());
    }
}

proof fn lemma_samples_keep_openings(s: Session, steps: Seq<OodStep>)
    ensures
        after_samples(s, steps).openings == s.openings,
        after_samples(s, steps).roots == s.roots,
    decreases steps.len(),
{
    if steps.len() > 0 {
        lemma_samples_keep_openings(s, steps.drop_last());
    }
}

proof fn lemma_recorded(
    s: Session,
    config: ProverConfig,
    first: Oracle,
    phases: Seq<PhaseRun>,
)
    requires
        s.openings.len() == 0,
        s.roots.len() == 0,
    ensures
        ({
            let after = after_phases(s, config, first, phases);
            &&& after.openings.len() == phases.len()
            &&& after.roots.len() == phases.len()
            &&& forall|p: int|
                0 <= p < phases.len() ==> #[trigger] after.openings[p] == opening_of(
                    first,
                    phases,
                    p,
                )
            &&& forall|p: int|
                0 <= p < phases.len() ==> #[trigger] after.roots[p]
                    == phases[p].oracle.tree.last()
        }),
    decreases phases.len(),
{
    if phases.len() > 0 {
        let p = phases.len() - 1;
        let before = phases.drop_last();
        let run = phases.last();
        lemma_recorded(s, config, first, before);
        let reached = after_phases(s, config, first, before);
        let previous = opened_oracle(first, phases, p);
        let sent = reached.committed(run.oracle.root());
        lemma_samples_keep_openings(sent, run.samples);
        let phase = after_phase(reached, config, p, previous, run);
        lemma_folds_keep_openings(
            phase,
            entry(config.fold_grinding_bits@, p + 1) as u32,
            run.folds,
        );
        assert(phase.openings.last().rows =~= opening_of(first, phases, p).rows);
        let after = after_phases(s, config, first, phases);
        assert forall|q: int| 0 <= q < phases.len() implies #[trigger] after.openings[q]
            == opening_of(first, phases, q) by {
            if q < p {
                assert(reached.openings[q] == opening_of(first, before, q));
                assert(before[q] == phases[q]);
            }
        }
        assert forall|q: int| 0 <= q < phases.len() implies #[trigger] after.roots[q]
            == phases[q].oracle.tree.last() by {
            if q < p {
                assert(reached.roots[q] == before[q].oracle.tree.last());
            }
        }
    }
}

/// One opening of a proof: the rows at the positions of the phase, and the path that the
/// kernel made for them.
pub open spec fn opened_in_phase<P>(
    multi_proof: P,
    rows: Seq<Vec<F128>>,
    path: Seq<Digest>,
    oracle: Oracle,
    picks: Seq<usize>,
) -> bool where P: Fn(&[Digest], usize, &[usize]) -> Vec<Digest> {
    &&& rows_opened(rows, oracle.codeword, oracle.width as int, picks)
    &&& path_made(multi_proof, oracle.tree, oracle.block_len, picks, path)
}

/// Rows by value are rows of a codeword.
proof fn lemma_rows(rows: Seq<Vec<F128>>, oracle: Oracle, picks: Seq<usize>)
    requires
        crate::ligerito::rows_view(rows) == Seq::new(
            picks.len(),
            |i: int|
                oracle.codeword.subrange(
                    picks[i] * (oracle.width as int),
                    picks[i] * (oracle.width as int) + (oracle.width as int),
                ),
        ),
        forall|i: int|
            0 <= i < picks.len() ==> #[trigger] (picks[i] * (oracle.width as int)) + oracle.width
                <= oracle.codeword.len(),
    ensures
        rows_opened(rows, oracle.codeword, oracle.width as int, picks),
{
    let view = crate::ligerito::rows_view(rows);
    assert(view.len() == rows.len() && view.len() == picks.len());
    assert forall|i: int| 0 <= i < picks.len() implies (#[trigger] rows[i])@.len()
        == oracle.width by {
        assert(picks[i] * (oracle.width as int) >= 0) by (nonlinear_arith);
        assert(view[i] == rows[i]@);
    }
    assert forall|i: int, j: int|
        0 <= i < picks.len() && 0 <= j < oracle.width implies #[trigger] rows[i]@[j]
        == oracle.codeword[picks[i] * (oracle.width as int) + j] by {
        assert(picks[i] * (oracle.width as int) >= 0) by (nonlinear_arith);
        assert(view[i] == rows[i]@);
    }
}

/// Positions below the block length of a commitment whose codeword has that many rows are
/// rows of it.
proof fn lemma_in_codeword(oracle: Oracle, picks: Seq<usize>)
    requires
        oracle.codeword.len() == oracle.block_len * oracle.width,
        forall|i: int| 0 <= i < picks.len() ==> picks[i] < oracle.block_len,
    ensures
        forall|i: int|
            0 <= i < picks.len() ==> #[trigger] (picks[i] * (oracle.width as int)) + oracle.width
                <= oracle.codeword.len(),
{
    assert forall|i: int| 0 <= i < picks.len() implies #[trigger] (picks[i] * (oracle.width as int))
        + oracle.width <= oracle.codeword.len() by {
        let (q, b, w) = (picks[i] as int, oracle.block_len as int, oracle.width as int);
        assert(q * w + w <= b * w) by (nonlinear_arith)
            requires
                0 <= q < b,
                0 <= w,
        ;
    }
}

/// A finished proof opened the commitments that it speaks of: the first one in its first
/// opening, the one of phase `p - 1` in opening `p`, and the last one at the end; and its
/// roots are the roots of the commitments that the phases made.
pub proof fn law_proof_opens_its_commitments<M, P, A, D>(
    kernels: PcsKernels<M, P, A, D>,
    config: ProverConfig,
    log_n: int,
    s: Session,
    first: Oracle,
    prefix: Seq<F128>,
    phases: Seq<PhaseRun>,
    last: LastRun,
    history: Seq<Event>,
    proof: LigeritoProof,
) where
    M: Fn(&[F128], usize, usize, usize) -> LigeroWitness,
    P: Fn(&[Digest], usize, &[usize]) -> Vec<Digest>,
    A: Fn(usize, usize, &[Vec<F128>], &[F128], &[usize], &[F128]) -> (Vec<F128>, F128),
    D: Fn(usize, &[Vec<F128>], &[F128], &[usize], &[F128]) -> (Vec<F128>, F128),

    requires
        config.recursive_steps >= 1,
        completed(kernels, config, log_n, s, first, prefix, phases, last, history, proof),
        s.openings.len() == 0,
        s.roots.len() == 0,
        first.codeword.len() == first.block_len * first.width,
        forall|p: int|
            0 <= p < phases.len() ==> (#[trigger] phases[p]).oracle.codeword.len()
                == phases[p].oracle.block_len * phases[p].oracle.width,
    ensures
        proof.recursive_roots@.len() == config.recursive_steps,
        forall|p: int|
            0 <= p < config.recursive_steps ==> #[trigger] proof.recursive_roots@[p]
                == phases[p].oracle.tree.last(),
        opened_in_phase(
            kernels.multi_proof,
            proof.initial_proof.opened_rows@,
            proof.initial_proof.merkle_proof@,
            first,
            phases[0].picks,
        ),
        proof.recursive_proofs@.len() == config.recursive_steps - 1,
        forall|p: int|
            1 <= p < config.recursive_steps ==> opened_in_phase(
                kernels.multi_proof,
                (#[trigger] proof.recursive_proofs@[p - 1]).opened_rows@,
                proof.recursive_proofs@[p - 1].merkle_proof@,
                phases[p - 1].oracle,
                phases[p].picks,
            ),
        opened_in_phase(
            kernels.multi_proof,
            proof.final_proof.opened_rows@,
            proof.final_proof.merkle_proof@,
            phases[config.recursive_steps - 1].oracle,
            last.picks,
        ),
{
    let r = config.recursive_steps as int;
    let reached = after_phases(s, config, first, phases);
    lemma_recorded(s, config, first, phases);
    assert forall|p: int| 0 <= p < r implies #[trigger] proof.recursive_roots@[p]
        == phases[p].oracle.tree.last() by {
        assert(reached.roots[p] == phases[p].oracle.tree.last());
    }
    let zero = opening_of(first, phases, 0);
    assert(reached.openings[0] == zero);
    lemma_phase_path(kernels, config, log_n, s, first, prefix, phases, 0);
    lemma_in_codeword(first, phases[0].picks);
    lemma_rows(proof.initial_proof.opened_rows@, first, phases[0].picks);
    assert(path_made(
        kernels.multi_proof,
        first.tree,
        first.block_len,
        phases[0].picks,
        proof.initial_proof.merkle_proof@,
    ));
    let views = crate::ligerito::openings_view(proof.recursive_proofs@);
    assert(views =~= reached.openings.skip(1));
    assert(views.len() == proof.recursive_proofs@.len() && views.len() == r - 1);
    assert forall|p: int| 1 <= p < r implies opened_in_phase(
        kernels.multi_proof,
        (#[trigger] proof.recursive_proofs@[p - 1]).opened_rows@,
        proof.recursive_proofs@[p - 1].merkle_proof@,
        phases[p - 1].oracle,
        phases[p].picks,
    ) by {
        let oracle = phases[p - 1].oracle;
        let found = proof.recursive_proofs@[p - 1];
        assert(views[p - 1] == found@);
        assert(reached.openings[p] == opening_of(first, phases, p));
        lemma_phase_path(kernels, config, log_n, s, first, prefix, phases, p);
        lemma_in_codeword(oracle, phases[p].picks);
        lemma_rows(found.opened_rows@, oracle, phases[p].picks);
    }
    let oracle = phases[r - 1].oracle;
    lemma_in_codeword(oracle, last.picks);
    assert(crate::ligerito::rows_view(proof.final_proof.opened_rows@) =~= Seq::new(
        last.picks.len(),
        |i: int|
            oracle.codeword.subrange(
                last.picks[i] * (oracle.width as int),
                last.picks[i] * (oracle.width as int) + (oracle.width as int),
            ),
    ));
    lemma_rows(proof.final_proof.opened_rows@, oracle, last.picks);
    lemma_path(
        kernels.multi_proof,
        oracle.tree,
        oracle.block_len,
        last.picks,
        last.path,
    );
}

proof fn lemma_path<P>(
    multi_proof: P,
    tree: Seq<Digest>,
    leaves: nat,
    picks: Seq<usize>,
    path: Seq<Digest>,
) where P: Fn(&[Digest], usize, &[usize]) -> Vec<Digest>
    requires
        crate::ligerito::path_answered(multi_proof, tree, leaves as usize, picks, path),
    ensures
        path_made(multi_proof, tree, leaves, picks, path),
{
    let (nodes, list, out) = choose|nodes: &[Digest], list: &[usize], out: Vec<Digest>| #[trigger]
        call_ensures(multi_proof, (nodes, leaves as usize, list), out) && nodes@ == tree && list@
            == picks && out@ == path;
    assert(call_ensures(multi_proof, (nodes, leaves as usize, list), out));
}

/// What phase `p` of a finished proof got from the kernels.
proof fn lemma_phase_path<M, P, A, D>(
    kernels: PcsKernels<M, P, A, D>,
    config: ProverConfig,
    log_n: int,
    s: Session,
    first: Oracle,
    prefix: Seq<F128>,
    phases: Seq<PhaseRun>,
    p: int,
) where
    M: Fn(&[F128], usize, usize, usize) -> LigeroWitness,
    P: Fn(&[Digest], usize, &[usize]) -> Vec<Digest>,
    A: Fn(usize, usize, &[Vec<F128>], &[F128], &[usize], &[F128]) -> (Vec<F128>, F128),
    D: Fn(usize, &[Vec<F128>], &[F128], &[usize], &[F128]) -> (Vec<F128>, F128),

    requires
        phases_answered(kernels, config, log_n, s, first, prefix, phases),
        0 <= p < phases.len(),
    ensures
        path_made(
            kernels.multi_proof,
            commitment(first, phases, p).tree,
            commitment(first, phases, p).block_len,
            phases[p].picks,
            phases[p].path,
        ),
        forall|i: int|
            0 <= i < phases[p].picks.len() ==> phases[p].picks[i] < commitment(
                first,
                phases,
                p,
            ).block_len,
        phase_answered(
            kernels,
            config,
            p,
            plane_log(config, log_n, p),
            after_phases(s, config, first, phases.take(p)).sumcheck.f,
            commitment(first, phases, p),
            lane_challenges(prefix, phases, p),
            phases[p],
        ),
    decreases phases.len(),
{
    if p < phases.len() - 1 {
        let before = phases.drop_last();
        lemma_phase_path(kernels, config, log_n, s, first, prefix, before, p);
        assert(before[p] == phases[p]);
        assert(before.take(p) =~= phases.take(p));
    } else {
        assert(phases.take(p) =~= phases.drop_last());
        let oracle = commitment(first, phases, p);
        lemma_path(
            kernels.multi_proof,
            oracle.tree,
            oracle.block_len,
            phases[p].picks,
            phases[p].path,
        );
    }
}

/// All challenges of the folds before phase `p`, in order.
pub open spec fn challenges_before(
    rs: Seq<F128>,
    phases: Seq<PhaseRun>,
    p: int,
) -> Seq<F128>
    decreases p,
{
    if p <= 0 {
        rs
    } else {
        challenges_before(rs, phases, p - 1) + Seq::new(
            phases[p - 1].folds.len(),
            |j: int| phases[p - 1].folds[j].r,
        )
    }
}

/// Folding binds variables one after the other: the value of a folded plane at a point is the
/// value of the plane at the challenges followed by the point.
pub proof fn law_folded_plane_is_a_restriction(
    plane: Seq<F128>,
    rs: Seq<F128>,
    point: Seq<F128>,
)
    requires
        plane.len() == pow2(rs.len() + point.len()),
    ensures
        folded_through(plane, rs).len() == pow2(point.len()),
        extension(folded_through(plane, rs), point) == extension(plane, rs + point),
    decreases rs.len(),
{
    if rs.len() == 0 {
        assert(rs + point =~= point);
    } else {
        let fewer = rs.drop_last();
        let longer = seq![rs.last()] + point;
        law_folded_plane_is_a_restriction(plane, fewer, longer);
        assert(fewer + longer =~= rs + point);
        let q = folded_through(plane, fewer);
        lemma_pow2_unfold(longer.len());
        law_fold_binds_first_variable(q, longer);
        assert(longer.skip(1) =~= point);
        assert(longer[0] == rs.last());
    }
}

proof fn lemma_through(plane: Seq<F128>, rs: Seq<F128>, more: Seq<F128>)
    ensures
        folded_through(folded_through(plane, rs), more) == folded_through(plane, rs + more),
    decreases more.len(),
{
    if more.len() == 0 {
        assert(rs + more =~= rs);
    } else {
        lemma_through(plane, rs, more.drop_last());
        assert((rs + more).drop_last() =~= rs + more.drop_last());
    }
}

proof fn lemma_planes(
    s: Session,
    config: ProverConfig,
    first: Oracle,
    phases: Seq<PhaseRun>,
    f: Seq<F128>,
    rs: Seq<F128>,
)
    requires
        s.sumcheck.f == folded_through(f, rs),
    ensures
        after_phases(s, config, first, phases).sumcheck.f == folded_through(
            f,
            challenges_before(rs, phases, phases.len() as int),
        ),
    decreases phases.len(),
{
    if phases.len() > 0 {
        let p = phases.len() - 1;
        let before = phases.drop_last();
        let run = phases.last();
        lemma_planes(s, config, first, before, f, rs);
        let reached = after_phases(s, config, first, before);
        let sent = reached.committed(run.oracle.root());
        crate::reader::lemma_samples_keep_the_plane(sent, run.samples);
        let phase = after_phase(reached, config, p, opened_oracle(first, phases, p), run);
        crate::reader::lemma_folds_fold_the_plane(
            phase,
            entry(config.fold_grinding_bits@, p + 1) as u32,
            run.folds,
        );
        lemma_challenges_prefix(rs, before, phases, p);
        let folds = Seq::new(run.folds.len(), |j: int| run.folds[j].r);
        assert(challenges(run.folds) =~= folds);
        lemma_through(f, challenges_before(rs, phases, p), folds);
    }
}

proof fn lemma_challenges_prefix(
    rs: Seq<F128>,
    xs: Seq<PhaseRun>,
    ys: Seq<PhaseRun>,
    p: int,
)
    requires
        p <= xs.len(),
        p <= ys.len(),
        forall|q: int| 0 <= q < p ==> xs[q] == ys[q],
    ensures
        challenges_before(rs, xs, p) == challenges_before(rs, ys, p),
    decreases p,
{
    if p > 0 {
        lemma_challenges_prefix(rs, xs, ys, p - 1);
    }
}

proof fn lemma_challenges_length(config: ProverConfig, rs: Seq<F128>, phases: Seq<PhaseRun>, p: int)
    requires
        0 <= p <= phases.len(),
        rs.len() == config.initial_k,
        forall|q: int|
            0 <= q < p ==> (#[trigger] phases[q]).folds.len() == config.recursive_ks@[q],
    ensures
        challenges_before(rs, phases, p).len() == variables_before(config, p),
    decreases p,
{
    if p > 0 {
        lemma_challenges_length(config, rs, phases, p - 1);
        assert(phases[p - 1].folds.len() == config.recursive_ks@[p - 1]);
    }
}

/// The plane in the clear at the end of a proof is what the challenges left of the witness:
/// its value at any point is the value of the witness at all challenges followed by the
/// point.
pub proof fn law_final_plane_is_a_restriction<M, P, A, D>(
    kernels: PcsKernels<M, P, A, D>,
    config: ProverConfig,
    log_n: int,
    history_before: Seq<Event>,
    f: Seq<F128>,
    basis: Seq<F128>,
    target: F128,
    first: SumcheckMessage,
    codeword: Seq<F128>,
    tree: Seq<Digest>,
    steps: Seq<FoldStep>,
    phases: Seq<PhaseRun>,
    last: LastRun,
    history: Seq<Event>,
    proof: LigeritoProof,
    point: Seq<F128>,
) where
    M: Fn(&[F128], usize, usize, usize) -> LigeroWitness,
    P: Fn(&[Digest], usize, &[usize]) -> Vec<Digest>,
    A: Fn(usize, usize, &[Vec<F128>], &[F128], &[usize], &[F128]) -> (Vec<F128>, F128),
    D: Fn(usize, &[Vec<F128>], &[F128], &[usize], &[F128]) -> (Vec<F128>, F128),

    requires
        f.len() == pow2(log_n as nat),
        host_proved(
            kernels,
            config,
            log_n,
            host_start(history_before, f, basis, target, tree.last(), first),
            codeword,
            tree,
            steps,
            phases,
            last,
            history,
            proof,
        ),
        point.len() + variables_before(config, config.recursive_steps as int) == log_n,
    ensures
        proof.final_proof.yr@.len() == pow2(point.len()),
        extension(proof.final_proof.yr@, point) == extension(
            f,
            challenges_before(
                Seq::new(steps.len(), |j: int| steps[j].r),
                phases,
                config.recursive_steps as int,
            ) + point,
        ),
{
    let start = host_start(history_before, f, basis, target, tree.last(), first);
    let bits = entry(config.fold_grinding_bits@, 0) as u32;
    let s = after_folds(start, bits, steps);
    let oracle = first_oracle(config, log_n, codeword, tree);
    let rs = Seq::new(steps.len(), |j: int| steps[j].r);
    let r = config.recursive_steps as int;
    assert(challenges(steps) =~= rs);
    crate::reader::lemma_folds_fold_the_plane(start, bits, steps);
    lemma_planes(s, config, oracle, phases, f, rs);
    assert forall|q: int| 0 <= q < r implies (#[trigger] phases[q]).folds.len()
        == config.recursive_ks@[q] by {
        lemma_phase_path(kernels, config, log_n, s, oracle, rs, phases, q);
    }
    lemma_challenges_length(config, rs, phases, r);
    law_folded_plane_is_a_restriction(f, challenges_before(rs, phases, r), point);
}


proof fn lemma_sampled_values(s: Session, steps: Seq<OodStep>)
    ensures
        after_samples(s, steps).ood_values == s.ood_values + Seq::new(
            steps.len(),
            |i: int| extension(s.sumcheck.f, steps[i].z),
        ),
    decreases steps.len(),
{
    let all = Seq::new(steps.len(), |i: int| extension(s.sumcheck.f, steps[i].z));
    if steps.len() > 0 {
        lemma_sampled_values(s, steps.drop_last());
        crate::reader::lemma_samples_keep_the_plane(s, steps.drop_last());
    }
    assert(after_samples(s, steps).ood_values =~= s.ood_values + all);
}

proof fn lemma_folds_keep_values(s: Session, bits: u32, steps: Seq<FoldStep>)
    ensures
        after_folds(s, bits, steps).ood_values == s.ood_values,
    decreases steps.len(),
{
    if steps.len() > 0 {
        lemma_folds_keep_values(s, bits, steps.drop_last());
    }
}

/// The value of sample `i` in phase `p` stands where it should, and is that of the plane.
spec fn value_holds(
    values: Seq<F128>,
    config: ProverConfig,
    phases: Seq<PhaseRun>,
    f: Seq<F128>,
    rs: Seq<F128>,
    p: int,
    i: int,
) -> bool {
    let at = values_before(config, p) + i;
    &&& 0 <= at < values.len()
    &&& values[at] == extension(
        folded_through(f, challenges_before(rs, phases, p)),
        phases[p].samples[i].z,
    )
}

proof fn lemma_values(
    s: Session,
    config: ProverConfig,
    first: Oracle,
    phases: Seq<PhaseRun>,
    f: Seq<F128>,
    rs: Seq<F128>,
)
    requires
        s.sumcheck.f == folded_through(f, rs),
        s.ood_values.len() == 0,
        forall|p: int|
            0 <= p < phases.len() ==> (#[trigger] phases[p]).samples.len() == listed(
                config.ood_samples@,
                p + 1,
            ),
    ensures
        after_phases(s, config, first, phases).ood_values.len() == values_before(
            config,
            phases.len() as int,
        ),
        forall|p: int, i: int|
            0 <= p < phases.len() && 0 <= i < phases[p].samples.len() ==> #[trigger] value_holds(
                after_phases(s, config, first, phases).ood_values,
                config,
                phases,
                f,
                rs,
                p,
                i,
            ),
    decreases phases.len(),
{
    if phases.len() > 0 {
        let last = phases.len() - 1;
        let before = phases.drop_last();
        let run = phases.last();
        assert forall|p: int| 0 <= p < before.len() implies (#[trigger] before[p]).samples.len()
            == listed(config.ood_samples@, p + 1) by {
            assert(before[p] == phases[p]);
        }
        lemma_values(s, config, first, before, f, rs);
        lemma_planes(s, config, first, before, f, rs);
        lemma_challenges_prefix(rs, before, phases, last);
        let reached = after_phases(s, config, first, before);
        let sent = reached.committed(run.oracle.root());
        lemma_sampled_values(sent, run.samples);
        let phase = after_phase(reached, config, last, opened_oracle(first, phases, last), run);
        lemma_folds_keep_values(
            phase,
            entry(config.fold_grinding_bits@, last + 1) as u32,
            run.folds,
        );
        let after = after_phases(s, config, first, phases);
        assert(phases[last].samples.len() == listed(config.ood_samples@, last + 1));
        assert(reached.ood_values.len() == values_before(config, last));
        assert(after.ood_values == reached.ood_values + Seq::new(
            run.samples.len(),
            |i: int| extension(reached.sumcheck.f, run.samples[i].z),
        ));
        assert(after.ood_values.len() == values_before(config, last + 1));
        assert forall|p: int, i: int|
            0 <= p < phases.len() && 0 <= i < phases[p].samples.len() implies #[trigger]
            value_holds(
            after.ood_values,
            config,
            phases,
            f,
            rs,
            p,
            i,
        ) by {
            if p < last {
                assert(before[p] == phases[p]);
                lemma_challenges_prefix(rs, before, phases, p);
                assert(value_holds(reached.ood_values, config, before, f, rs, p, i));
            } else {
                assert(p == last);
                assert(after.ood_values[values_before(config, p) + i] == extension(
                    reached.sumcheck.f,
                    run.samples[i].z,
                ));
            }
        }
    }
}

/// Every value in a proof is the value of the witness at the challenges so far followed by
/// the sampled point.
pub proof fn law_values_are_of_the_witness<M, P, A, D>(
    kernels: PcsKernels<M, P, A, D>,
    config: ProverConfig,
    log_n: int,
    history_before: Seq<Event>,
    f: Seq<F128>,
    basis: Seq<F128>,
    target: F128,
    first: SumcheckMessage,
    codeword: Seq<F128>,
    tree: Seq<Digest>,
    steps: Seq<FoldStep>,
    phases: Seq<PhaseRun>,
    last: LastRun,
    history: Seq<Event>,
    proof: LigeritoProof,
    p: int,
    i: int,
) where
    M: Fn(&[F128], usize, usize, usize) -> LigeroWitness,
    P: Fn(&[Digest], usize, &[usize]) -> Vec<Digest>,
    A: Fn(usize, usize, &[Vec<F128>], &[F128], &[usize], &[F128]) -> (Vec<F128>, F128),
    D: Fn(usize, &[Vec<F128>], &[F128], &[usize], &[F128]) -> (Vec<F128>, F128),

    requires
        f.len() == pow2(log_n as nat),
        host_proved(
            kernels,
            config,
            log_n,
            host_start(history_before, f, basis, target, tree.last(), first),
            codeword,
            tree,
            steps,
            phases,
            last,
            history,
            proof,
        ),
        0 <= p < config.recursive_steps,
        variables_before(config, p) <= log_n,
        0 <= i < listed(config.ood_samples@, p + 1),
    ensures
        phases[p].samples.len() == listed(config.ood_samples@, p + 1),
        values_before(config, p) + i < proof.ood_values@.len(),
        proof.ood_values@[values_before(config, p) + i] == extension(
            f,
            challenges_before(Seq::new(steps.len(), |j: int| steps[j].r), phases, p)
                + phases[p].samples[i].z,
        ),
{
    let start = host_start(history_before, f, basis, target, tree.last(), first);
    let bits = entry(config.fold_grinding_bits@, 0) as u32;
    let s = after_folds(start, bits, steps);
    let oracle = first_oracle(config, log_n, codeword, tree);
    let rs = Seq::new(steps.len(), |j: int| steps[j].r);
    let r = config.recursive_steps as int;
    assert(challenges(steps) =~= rs);
    crate::reader::lemma_folds_fold_the_plane(start, bits, steps);
    lemma_folds_keep_values(start, bits, steps);
    assert forall|q: int| 0 <= q < r implies (#[trigger] phases[q]).samples.len() == listed(
        config.ood_samples@,
        q + 1,
    ) && phases[q].folds.len() == config.recursive_ks@[q] by {
        lemma_phase_path(kernels, config, log_n, s, oracle, rs, phases, q);
    }
    lemma_values(s, config, oracle, phases, f, rs);
    lemma_phase_path(kernels, config, log_n, s, oracle, rs, phases, p);
    crate::replay::lemma_plane_log(config, log_n, p);
    lemma_challenges_length(config, rs, phases, p);
    let z = phases[p].samples[i].z;
    assert(phases[p].samples[i].z.len() == plane_log(config, log_n, p));
    law_folded_plane_is_a_restriction(f, challenges_before(rs, phases, p), z);
    let after = after_phases(s, config, oracle, phases);
    assert(proof.ood_values@ == after.ood_values);
    assert(value_holds(after.ood_values, config, phases, f, rs, p, i));
}

/// The commitment kernel was asked to commit to `plane`, as the configuration has it for
/// phase `p`, and made `oracle`.
pub open spec fn commitment_made<M>(
    commit: M,
    config: ProverConfig,
    log_n: int,
    p: int,
    plane: Seq<F128>,
    oracle: Oracle,
) -> bool where M: Fn(&[F128], usize, usize, usize) -> LigeroWitness {
    exists|g: &[F128], columns: usize, interleaved: usize, rate: usize, w: LigeroWitness|
        {
            &&& #[trigger] call_ensures(commit, (g, columns, interleaved, rate), w)
            &&& g@ == plane
            &&& columns + variables_before(config, p + 1) == log_n
            &&& interleaved == config.recursive_ks@[p]
            &&& rate == config.log_inv_rates@[p + 1]
            &&& w@ == oracle
        }
}

/// The inducing kernel was asked about the rows that the phase opened, with the challenges
/// that folded the commitment, and answered the basis and the sum of the phase.
pub open spec fn basis_made<A, D>(
    induce_initial: A,
    induce: D,
    config: ProverConfig,
    log_n: int,
    p: int,
    oracle: Oracle,
    lanes: Seq<F128>,
    run: PhaseRun,
) -> bool where
    A: Fn(usize, usize, &[Vec<F128>], &[F128], &[usize], &[F128]) -> (Vec<F128>, F128),
    D: Fn(usize, &[Vec<F128>], &[F128], &[usize], &[F128]) -> (Vec<F128>, F128),
 {
    if p == 0 {
        exists|
            n: usize,
            rate: usize,
            rows: &[Vec<F128>],
            l: &[F128],
            q: &[usize],
            a: &[F128],
            out: (Vec<F128>, F128),
        |
            {
                &&& #[trigger] call_ensures(induce_initial, (n, rate, rows, l, q, a), out)
                &&& n + variables_before(config, 0) == log_n
                &&& rate == config.log_inv_rates@[0]
                &&& rows_opened(rows@, oracle.codeword, oracle.width as int, run.picks)
                &&& l@ == lanes && q@ == run.picks && a@ == run.alpha
                &&& out.0@ == run.basis && out.1 == run.sum
            }
    } else {
        exists|
            n: usize,
            rows: &[Vec<F128>],
            l: &[F128],
            q: &[usize],
            a: &[F128],
            out: (Vec<F128>, F128),
        |
            {
                &&& #[trigger] call_ensures(induce, (n, rows, l, q, a), out)
                &&& n + variables_before(config, p) == log_n
                &&& rows_opened(rows@, oracle.codeword, oracle.width as int, run.picks)
                &&& l@ == lanes && q@ == run.picks && a@ == run.alpha
                &&& out.0@ == run.basis && out.1 == run.sum
            }
    }
}

/// What every phase asked of the kernels: to commit to what the challenges so far left of the
/// witness, and to induce a basis from the rows of the commitment before at the positions
/// drawn, with the challenges that came between.
pub proof fn law_phases_ask_the_kernels<M, P, A, D>(
    kernels: PcsKernels<M, P, A, D>,
    config: ProverConfig,
    log_n: int,
    history_before: Seq<Event>,
    f: Seq<F128>,
    basis: Seq<F128>,
    target: F128,
    first: SumcheckMessage,
    codeword: Seq<F128>,
    tree: Seq<Digest>,
    steps: Seq<FoldStep>,
    phases: Seq<PhaseRun>,
    last: LastRun,
    history: Seq<Event>,
    proof: LigeritoProof,
    p: int,
) where
    M: Fn(&[F128], usize, usize, usize) -> LigeroWitness,
    P: Fn(&[Digest], usize, &[usize]) -> Vec<Digest>,
    A: Fn(usize, usize, &[Vec<F128>], &[F128], &[usize], &[F128]) -> (Vec<F128>, F128),
    D: Fn(usize, &[Vec<F128>], &[F128], &[usize], &[F128]) -> (Vec<F128>, F128),

    requires
        crate::ligerito::kernels_ready(kernels),
        config.initial_k <= log_n,
        crate::ligerito::config_fits(config, log_n, codeword.len(), tree.len()),
        host_proved(
            kernels,
            config,
            log_n,
            host_start(history_before, f, basis, target, tree.last(), first),
            codeword,
            tree,
            steps,
            phases,
            last,
            history,
            proof,
        ),
        0 <= p < config.recursive_steps,
        commitment(first_oracle(config, log_n, codeword, tree), phases, p).codeword.len()
            == commitment(first_oracle(config, log_n, codeword, tree), phases, p).block_len
            * commitment(first_oracle(config, log_n, codeword, tree), phases, p).width,
    ensures
        commitment_made(
            kernels.commit,
            config,
            log_n,
            p,
            folded_through(
                f,
                challenges_before(Seq::new(steps.len(), |j: int| steps[j].r), phases, p),
            ),
            phases[p].oracle,
        ),
        basis_made(
            kernels.induce_initial,
            kernels.induce,
            config,
            log_n,
            p,
            commitment(first_oracle(config, log_n, codeword, tree), phases, p),
            if p == 0 {
                Seq::new(steps.len(), |j: int| steps[j].r)
            } else {
                Seq::new(phases[p - 1].folds.len(), |j: int| phases[p - 1].folds[j].r)
            },
            phases[p],
        ),
{
    let start = host_start(history_before, f, basis, target, tree.last(), first);
    let bits = entry(config.fold_grinding_bits@, 0) as u32;
    let s = after_folds(start, bits, steps);
    let oracle = first_oracle(config, log_n, codeword, tree);
    let rs = Seq::new(steps.len(), |j: int| steps[j].r);
    assert(challenges(steps) =~= rs);
    crate::reader::lemma_folds_fold_the_plane(start, bits, steps);
    lemma_phase_path(kernels, config, log_n, s, oracle, rs, phases, p);
    lemma_planes(s, config, oracle, phases.take(p), f, rs);
    lemma_challenges_prefix(rs, phases.take(p), phases, p);
    crate::replay::lemma_plane_log(config, log_n, p);
    lemma_answers_prefix(kernels, config, log_n, s, oracle, rs, phases, p);
    crate::replay::lemma_block_len(
        kernels,
        config,
        log_n,
        s,
        codeword,
        tree,
        rs,
        phases.take(p),
    );
    assert(crate::ligerito::phase_fits(config, log_n, p));
    let n = plane_log(config, log_n, p);
    let run = phases[p];
    let here = commitment(oracle, phases, p);
    let k = config.recursive_ks@[p];
    let rate = config.log_inv_rates@[p + 1];
    let columns = (n - k) as usize;
    crate::host::lemma_below_power((n + rate) as nat);
    let plane = folded_through(f, challenges_before(rs, phases, p));
    let (g, w) = choose|g: &[F128], w: LigeroWitness| #[trigger]
        call_ensures(kernels.commit, (g, columns, k, rate), w) && g@ == plane && w@ == run.oracle;
    assert(call_ensures(kernels.commit, (g, columns, k, rate), w));
    lemma_in_codeword(here, run.picks);
    let lanes = lane_challenges(rs, phases, p);
    if p > 0 {
        assert(lanes =~= Seq::new(phases[p - 1].folds.len(), |j: int| phases[p - 1].folds[j].r));
    }
    lemma_basis_made(kernels, config, log_n, p, n, here, lanes, run);
}

proof fn lemma_answers_prefix<M, P, A, D>(
    kernels: PcsKernels<M, P, A, D>,
    config: ProverConfig,
    log_n: int,
    s: Session,
    first: Oracle,
    prefix: Seq<F128>,
    phases: Seq<PhaseRun>,
    p: int,
) where
    M: Fn(&[F128], usize, usize, usize) -> LigeroWitness,
    P: Fn(&[Digest], usize, &[usize]) -> Vec<Digest>,
    A: Fn(usize, usize, &[Vec<F128>], &[F128], &[usize], &[F128]) -> (Vec<F128>, F128),
    D: Fn(usize, &[Vec<F128>], &[F128], &[usize], &[F128]) -> (Vec<F128>, F128),

    requires
        phases_answered(kernels, config, log_n, s, first, prefix, phases),
        0 <= p <= phases.len(),
    ensures
        phases_answered(kernels, config, log_n, s, first, prefix, phases.take(p)),
    decreases phases.len(),
{
    if p == phases.len() {
        assert(phases.take(p) =~= phases);
    } else {
        lemma_answers_prefix(kernels, config, log_n, s, first, prefix, phases.drop_last(), p);
        assert(phases.drop_last().take(p) =~= phases.take(p));
    }
}

proof fn lemma_basis_made<M, P, A, D>(
    kernels: PcsKernels<M, P, A, D>,
    config: ProverConfig,
    log_n: int,
    p: int,
    n: int,
    oracle: Oracle,
    lanes: Seq<F128>,
    run: PhaseRun,
) where
    M: Fn(&[F128], usize, usize, usize) -> LigeroWitness,
    P: Fn(&[Digest], usize, &[usize]) -> Vec<Digest>,
    A: Fn(usize, usize, &[Vec<F128>], &[F128], &[usize], &[F128]) -> (Vec<F128>, F128),
    D: Fn(usize, &[Vec<F128>], &[F128], &[usize], &[F128]) -> (Vec<F128>, F128),

    requires
        0 <= p,
        0 <= n <= usize::MAX,
        n == log_n - variables_before(config, p),
        forall|i: int|
            0 <= i < run.picks.len() ==> #[trigger] (run.picks[i] * (oracle.width as int))
                + oracle.width <= oracle.codeword.len(),
        if p == 0 {
            crate::ligerito::initial_basis_answered(
                kernels.induce_initial,
                n as usize,
                config.log_inv_rates@[0],
                oracle.rows(run.picks),
                lanes,
                run.picks,
                run.alpha,
                run.basis,
                run.sum,
            )
        } else {
            crate::ligerito::basis_answered(
                kernels.induce,
                n as usize,
                oracle.rows(run.picks),
                lanes,
                run.picks,
                run.alpha,
                run.basis,
                run.sum,
            )
        },
    ensures
        basis_made(
            kernels.induce_initial,
            kernels.induce,
            config,
            log_n,
            p,
            oracle,
            lanes,
            run,
        ),
{
    let size = n as usize;
    assert(oracle.rows(run.picks) =~= Seq::new(
        run.picks.len(),
        |i: int|
            oracle.codeword.subrange(
                run.picks[i] * (oracle.width as int),
                run.picks[i] * (oracle.width as int) + (oracle.width as int),
            ),
    ));
    if p == 0 {
        let rate = config.log_inv_rates@[0];
        let (r, l, q, a, out) = choose|
            r: &[Vec<F128>],
            l: &[F128],
            q: &[usize],
            a: &[F128],
            out: (Vec<F128>, F128),
        | #[trigger]
            call_ensures(kernels.induce_initial, (size, rate, r, l, q, a), out)
                && crate::ligerito::rows_view(r@) == oracle.rows(run.picks) && l@ == lanes && q@
                == run.picks && a@ == run.alpha && out.0@ == run.basis && out.1 == run.sum;
        lemma_rows(r@, oracle, run.picks);
        assert(call_ensures(kernels.induce_initial, (size, rate, r, l, q, a), out));
    } else {
        let (r, l, q, a, out) = choose|
            r: &[Vec<F128>],
            l: &[F128],
            q: &[usize],
            a: &[F128],
            out: (Vec<F128>, F128),
        | #[trigger]
            call_ensures(kernels.induce, (size, r, l, q, a), out) && crate::ligerito::rows_view(
                r@,
            ) == oracle.rows(run.picks) && l@ == lanes && q@ == run.picks && a@ == run.alpha
                && out.0@ == run.basis && out.1 == run.sum;
        lemma_rows(r@, oracle, run.picks);
        assert(call_ensures(kernels.induce, (size, r, l, q, a), out));
    }
}

} // verus!
