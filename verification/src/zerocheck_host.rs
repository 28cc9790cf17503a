//! The zerocheck prover of the host alone.
use crate::field::F128;
use crate::multilinear::round_message;
use crate::padding::{dense_spec, PaddingSpec, K_SKIP};
use crate::resident_ab::{
    assemble_point, fold_tail, kernels_answered, kernels_ready, lemma_answers_stay,
    lemma_row_bytes, point_of_round, scale,
};
use crate::transcript::{Challenger, Event};
use crate::univariate::{
    folded_plane, law_padded_plane_folds_as_dense,
    uni_skip_fold_and_round_pair_optimized_packed_padded, UniSkipFoldTable,
};
use crate::zerocheck::{
    round_events, round_point, scaled, tail_plane, AbRun, ProtocolConstants, ProverOptions,
    Round1Mode, Round1Output, SkipKernels, ZerocheckClaim, ZerocheckProof, N_INNER,
};
use vstd::arithmetic::power2::pow2;
use vstd::prelude::*;

verus! {

/// The message of round `i` on planes folded at all challenges before it.
pub open spec fn host_message(
    a: Seq<F128>,
    b: Seq<F128>,
    point: Seq<F128>,
    rhos: Seq<F128>,
    i: int,
) -> (F128, F128) {
    round_message(
        tail_plane(a, rhos, 0, i),
        tail_plane(b, rhos, 0, i),
        round_point(point, i),
    )
}

/// A run of the host on the planes that the tables fold the inputs to: every message
/// is that of the folded planes, and the transcript, the proof and the claim hold
/// what was exchanged.
pub open spec fn host_run(
    run: AbRun,
    constants: ProtocolConstants,
    a: Seq<u8>,
    b: Seq<u8>,
    m: usize,
    padding: PaddingSpec,
    h0: Seq<Event>,
    history: Seq<Event>,
    proof: ZerocheckProof,
    claim: ZerocheckClaim,
) -> bool {
    let n = m - K_SKIP;
    let a_plane = folded_plane(run.table.data@, a, padding);
    let b_plane = folded_plane(run.table.data@, b, padding);
    &&& run.messages.len() == n
    &&& run.rhos.len() == n
    &&& forall|i: int|
        0 <= i < n ==> #[trigger] run.messages[i] == host_message(
            a_plane,
            b_plane,
            run.point(constants),
            run.rhos,
            i,
        )
    &&& history == h0 + run.events(constants, n).push(Event::Observe(proof.final_a_eval)).push(
        Event::Observe(proof.final_b_eval),
    )
    &&& proof.round1_ab@ == scaled(constants.c_s, run.round1.ab@)
    &&& proof.round1_c@ == scaled(constants.c_s, run.round1.c@)
    &&& proof.multilinear_rounds@ == run.messages
    &&& proof.final_a_eval == tail_plane(a_plane, run.rhos, 0, n)[0]
    &&& proof.final_b_eval == tail_plane(b_plane, run.rhos, 0, n)[0]
    &&& proof.final_c_eval == run.c_eval
    &&& claim.z == run.z
    &&& claim.mlv_challenges@ == run.rhos
    &&& claim.r_rest@ == run.point(constants).skip(K_SKIP as int)
    &&& claim.a_eval == proof.final_a_eval
    &&& claim.b_eval == proof.final_b_eval
    &&& claim.c_eval == proof.final_c_eval
}

/// A run of the host with what the kernels answered.
pub open spec fn host_answered<R, I, T>(
    kernels: SkipKernels<R, I, T>,
    mode: Round1Mode,
    a: &[u8],
    b: &[u8],
    c: &[u8],
    m: usize,
    padding: &PaddingSpec,
    h0: Seq<Event>,
    run: AbRun,
    history: Seq<Event>,
    proof: ZerocheckProof,
    claim: ZerocheckClaim,
    s_hat_v: Seq<F128>,
) -> bool where
    R: Fn(Option<Round1Mode>, &[u8], &[u8], &[u8], usize, &[F128], &PaddingSpec) -> Round1Output,
    I: Fn(&[F128], F128) -> F128,
    T: Fn(F128) -> UniSkipFoldTable,
 {
    &&& kernels_answered(kernels, Some(mode), a, b, c, m, padding, run)
    &&& host_run(run, kernels.constants, a@, b@, m, *padding, h0, history, proof, claim)
    &&& s_hat_v == run.round1.s_hat_v@
}

/// Some run of the host gave the proof, the claim and the packed first-round vector.
pub open spec fn host_zerocheck<R, I, T>(
    kernels: SkipKernels<R, I, T>,
    mode: Round1Mode,
    a: &[u8],
    b: &[u8],
    c: &[u8],
    m: usize,
    padding: &PaddingSpec,
    h0: Seq<Event>,
    history: Seq<Event>,
    proof: ZerocheckProof,
    claim: ZerocheckClaim,
    s_hat_v: Seq<F128>,
) -> bool where
    R: Fn(Option<Round1Mode>, &[u8], &[u8], &[u8], usize, &[F128], &PaddingSpec) -> Round1Output,
    I: Fn(&[F128], F128) -> F128,
    T: Fn(F128) -> UniSkipFoldTable,
 {
    exists|run: AbRun| #[trigger]
        host_answered(
            kernels,
            mode,
            a,
            b,
            c,
            m,
            padding,
            h0,
            run,
            history,
            proof,
            claim,
            s_hat_v,
        )
}

/// Prove on the host alone, with the first-round vector by packed bit position.
pub fn prove_packed_padded_capture_s_hat_v_c_with_options<C, R, I, T>(
    a: &[u8],
    b: &[u8],
    c: &[u8],
    m: usize,
    padding: &PaddingSpec,
    options: ProverOptions,
    kernels: &SkipKernels<R, I, T>,
    challenger: &mut C,
) -> (res: (ZerocheckProof, ZerocheckClaim, Vec<F128>)) where
    C: Challenger,
    R: Fn(Option<Round1Mode>, &[u8], &[u8], &[u8], usize, &[F128], &PaddingSpec) -> Round1Output,
    I: Fn(&[F128], F128) -> F128,
    T: Fn(F128) -> UniSkipFoldTable,

    requires
        m >= K_SKIP + N_INNER,
        pow2(m as nat) <= usize::MAX,
        a@.len() == pow2(m as nat) / 8,
        b@.len() == a@.len(),
        c@.len() == a@.len(),
        padding.valid(m as nat),
        kernels_ready(*kernels, a, b, c, m, padding),
    ensures
        old(challenger).consistent() ==> final(challenger).consistent(),
        host_zerocheck(
            *kernels,
            options.round1,
            a,
            b,
            c,
            m,
            padding,
            old(challenger).history(),
            final(challenger).history(),
            res.0,
            res.1,
            res.2@,
        ),
{
    let n = m - K_SKIP;
    let ghost h0 = challenger.history();
    let constants = &kernels.constants;
    challenger.observe_label("flock-zerocheck-v0");
    let r_skip = challenger.sample_f128_vec(K_SKIP);
    let r_outer = challenger.sample_f128_vec(m - K_SKIP - N_INNER);
    let r = assemble_point(&r_skip, constants, &r_outer);
    let mode = Some(options.round1);
    let r_slice = r.as_slice();
    let round1 = (kernels.round1)(mode, a, b, c, m, r_slice, padding);
    assert(call_ensures(kernels.round1, (mode, a, b, c, m, r_slice, padding), round1));
    let round1_ab = scale(constants.c_s, &round1.ab);
    let round1_c = scale(constants.c_s, &round1.c);
    challenger.observe_f128_slice(round1_ab.as_slice());
    challenger.observe_f128_slice(round1_c.as_slice());
    let z = challenger.sample_f128();
    let c_slice = round1_c.as_slice();
    let c_eval = (kernels.interpolate)(c_slice, z);
    let table = (kernels.fold_table)(z);
    let point = point_of_round(&r, 0);
    let ghost started = AbRun {
        r_skip: r_skip@,
        r_outer: r_outer@,
        round1,
        z,
        c_eval,
        table,
        messages: Seq::empty(),
        rhos: Seq::empty(),
        a_tail: Seq::empty(),
        b_tail: Seq::empty(),
    };
    let ghost head = started.head_events(*constants);
    proof {
        assert(challenger.history() =~= h0 + head);
        assert(r_slice@ =~= started.point(*constants));
        assert(call_ensures(kernels.round1, (mode, a, b, c, m, r_slice, padding), started.round1));
        assert(call_ensures(kernels.interpolate, (c_slice, started.z), started.c_eval));
        assert(kernels_answered(*kernels, mode, a, b, c, m, padding, started));
        lemma_row_bytes(m as nat);
    }
    let (a_plane, b_plane, one, inf) = uni_skip_fold_and_round_pair_optimized_packed_padded(
        a,
        b,
        m,
        K_SKIP,
        &table,
        point.as_slice(),
        padding,
    );
    let ghost a0 = a_plane@;
    let ghost b0 = b_plane@;
    let mut messages: Vec<(F128, F128)> = Vec::with_capacity(n);
    messages.push((one, inf));
    challenger.observe_f128(one);
    challenger.observe_f128(inf);
    let mut rhos: Vec<F128> = Vec::with_capacity(n);
    rhos.push(challenger.sample_f128());
    let ghost h1 = h0 + head;
    let ghost first = messages@[0];
    proof {
        reveal_with_fuel(round_events, 2);
        assert(challenger.history() =~= h1 + round_events(messages@, rhos@, 1));
    }
    let (final_a_eval, final_b_eval) = fold_tail(
        n,
        0,
        &r,
        options,
        a_plane,
        b_plane,
        &mut messages,
        &mut rhos,
        challenger,
        Ghost(h1),
    );
    challenger.observe_f128(final_a_eval);
    challenger.observe_f128(final_b_eval);
    let mut r_rest: Vec<F128> = Vec::new();
    let rest = vstd::slice::slice_subrange(r.as_slice(), K_SKIP, m);
    r_rest.extend_from_slice(rest);
    let s_hat_v = round1.s_hat_v;
    let ghost run = AbRun { messages: messages@, rhos: rhos@, ..started };
    let proof = ZerocheckProof {
        round1_ab,
        round1_c,
        multilinear_rounds: messages,
        final_a_eval,
        final_b_eval,
        final_c_eval: c_eval,
    };
    let claim = ZerocheckClaim {
        z,
        mlv_challenges: rhos,
        r_rest,
        a_eval: final_a_eval,
        b_eval: final_b_eval,
        c_eval,
    };
    proof {
        lemma_answers_stay(*kernels, mode, a, b, c, m, padding, started, run);
        assert(run.head_events(*constants) == head);
        assert(challenger.history() =~= h0 + run.events(*constants, n as int).push(
            Event::Observe(final_a_eval),
        ).push(Event::Observe(final_b_eval)));
        assert(r_rest@ =~= run.point(*constants).skip(K_SKIP as int));
        assert forall|i: int| 0 <= i < n implies #[trigger] run.messages[i] == host_message(
            a0,
            b0,
            run.point(*constants),
            run.rhos,
            i,
        ) by {
            if i == 0 {
                assert(run.messages[0] == first);
            }
        }
        assert(host_answered(
            *kernels,
            options.round1,
            a,
            b,
            c,
            m,
            padding,
            h0,
            run,
            challenger.history(),
            proof,
            claim,
            s_hat_v@,
        ));
    }
    (proof, claim, s_hat_v)
}

/// Padding does not show in a run of the host: on inputs whose padding bits are zero, and
/// with tables that send the zero byte to zero, a run is one with padding exactly if it is
/// one without.
pub proof fn law_padding_does_not_show_in_a_run(
    run: AbRun,
    constants: ProtocolConstants,
    a: Seq<u8>,
    b: Seq<u8>,
    m: usize,
    padding: PaddingSpec,
    h0: Seq<Event>,
    history: Seq<Event>,
    proof: ZerocheckProof,
    claim: ZerocheckClaim,
)
    requires
        pow2(m as nat) <= usize::MAX,
        padding.valid(m as nat),
        padding.zero_padded(a),
        padding.zero_padded(b),
        forall|c: int| 0 <= c < 8 ==> #[trigger] run.table.data@[256 * c] == F128::zero(),
    ensures
        host_run(run, constants, a, b, m, padding, h0, history, proof, claim) == host_run(
            run,
            constants,
            a,
            b,
            m,
            dense_spec(m as nat),
            h0,
            history,
            proof,
            claim,
        ),
{
    law_padded_plane_folds_as_dense(run.table.data@, a, padding, m as nat);
    law_padded_plane_folds_as_dense(run.table.data@, b, padding, m as nat);
}

} // verus!
