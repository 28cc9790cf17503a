//! What the end of a zerocheck holds: the values of the planes at the challenges, and the vector
//! of the first round.
use crate::extension::{extension, law_folds_evaluate};
use crate::field::F128;
use crate::padding::PaddingSpec;
use crate::resident_ab::{captured, kernels_answered, outcome, proved};
use crate::transcript::Event;
use crate::univariate::{folded_plane, UniSkipFoldTable};
use crate::zerocheck::{
    AbCall, AbRun, ProtocolConstants, Round1Mode, Round1Output, SkipKernels, ZerocheckClaim,
    ZerocheckProof,
};
use crate::zerocheck_host::{host_answered, host_run, host_zerocheck};
use vstd::arithmetic::power2::{lemma2_to64, lemma_pow2_adds, pow2};
use vstd::prelude::*;

verus! {

/// The evaluations of a proof with a provider are those of the two planes that the provider
/// handed over last, at the challenges of the rounds after it.
pub proof fn law_tail_is_evaluated(
    run: AbRun,
    constants: ProtocolConstants,
    a: Seq<u8>,
    b: Seq<u8>,
    m: usize,
    padding: PaddingSpec,
    h0: Seq<Event>,
    c0: Seq<AbCall>,
    history: Seq<Event>,
    calls: Seq<AbCall>,
    proof: ZerocheckProof,
    claim: ZerocheckClaim,
)
    requires
        19 <= m,
        proved(run, constants, a, b, m, padding, h0, c0, history, calls, proof, claim),
    ensures
        claim.mlv_challenges@.len() == m - 6,
        calls.last() matches AbCall::Finish { planes: Ok((x, y)) } && {
            let rest = claim.mlv_challenges@.skip(m - 18);
            &&& proof.final_a_eval == extension(x, rest)
            &&& proof.final_b_eval == extension(y, rest)
            &&& claim.a_eval == extension(x, rest)
            &&& claim.b_eval == extension(y, rest)
        },
{
    lemma2_to64();
    let (k, n) = (m - 18, m - 6);
    law_folds_evaluate(run.a_tail, run.rhos, k, n);
    law_folds_evaluate(run.b_tail, run.rhos, k, n);
    assert(run.rhos.subrange(k, n) =~= claim.mlv_challenges@.skip(k));
}

/// The evaluations of a proof of the host are those of the two planes that the tables fold the
/// inputs to, at all challenges.
pub proof fn law_host_planes_are_evaluated(
    run: AbRun,
    constants: ProtocolConstants,
    a: Seq<u8>,
    b: Seq<u8>,
    m: usize,
    padding: PaddingSpec,
    h0: Seq<Event>,
    history: Seq<Event>,
    proof: ZerocheckProof,
    claim: ZerocheckClaim,
)
    requires
        m >= 6,
        8 * a.len() == pow2(m as nat),
        b.len() == a.len(),
        host_run(run, constants, a, b, m, padding, h0, history, proof, claim),
    ensures
        claim.mlv_challenges@.len() == m - 6,
        proof.final_a_eval == extension(
            folded_plane(run.table.data@, a, padding),
            claim.mlv_challenges@,
        ),
        proof.final_b_eval == extension(
            folded_plane(run.table.data@, b, padding),
            claim.mlv_challenges@,
        ),
        claim.a_eval == proof.final_a_eval,
        claim.b_eval == proof.final_b_eval,
{
    lemma2_to64();
    let n = m - 6;
    lemma_pow2_adds(n as nat, 6);
    let pa = folded_plane(run.table.data@, a, padding);
    let pb = folded_plane(run.table.data@, b, padding);
    assert(pa.len() == pow2(n as nat) && pb.len() == pow2(n as nat));
    law_folds_evaluate(pa, run.rhos, 0, n);
    law_folds_evaluate(pb, run.rhos, 0, n);
    assert(run.rhos.subrange(0, n) =~= claim.mlv_challenges@);
}

/// A vector comes out of the first-round kernel: it was asked in the mode of the options, for
/// these inputs at a point of `m` coordinates.
pub open spec fn vector_made<R, I, T>(
    kernels: SkipKernels<R, I, T>,
    mode: Round1Mode,
    a: &[u8],
    b: &[u8],
    c: &[u8],
    m: usize,
    padding: &PaddingSpec,
    vector: Seq<F128>,
) -> bool where
    R: Fn(Option<Round1Mode>, &[u8], &[u8], &[u8], usize, &[F128], &PaddingSpec) -> Round1Output,
    I: Fn(&[F128], F128) -> F128,
    T: Fn(F128) -> UniSkipFoldTable,
 {
    exists|r: &[F128], out: Round1Output| #[trigger]
        call_ensures(kernels.round1, (Some(mode), a, b, c, m, r, padding), out) && r@.len() == m
            && out.s_hat_v@ == vector
}

proof fn lemma_point_len<R, I, T>(
    kernels: SkipKernels<R, I, T>,
    mode: Round1Mode,
    a: &[u8],
    b: &[u8],
    c: &[u8],
    m: usize,
    padding: &PaddingSpec,
    run: AbRun,
) where
    R: Fn(Option<Round1Mode>, &[u8], &[u8], &[u8], usize, &[F128], &PaddingSpec) -> Round1Output,
    I: Fn(&[F128], F128) -> F128,
    T: Fn(F128) -> UniSkipFoldTable,

    requires
        kernels_answered(kernels, Some(mode), a, b, c, m, padding, run),
    ensures
        vector_made(kernels, mode, a, b, c, m, padding, run.round1.s_hat_v@),
{
    let r = choose|r: &[F128]|
        r@ == run.point(kernels.constants) && #[trigger] call_ensures(
            kernels.round1,
            (Some(mode), a, b, c, m, r, padding),
            run.round1,
        );
    assert(r@.len() == m);
}

/// The vector that a zerocheck captures is the one that the first-round kernel made.
pub proof fn law_captured_vector_is_the_kernels<R, I, T>(
    kernels: SkipKernels<R, I, T>,
    mode: Round1Mode,
    a: &[u8],
    b: &[u8],
    c: &[u8],
    m: usize,
    padding: &PaddingSpec,
    h0: Seq<Event>,
    c0: Seq<AbCall>,
    history: Seq<Event>,
    calls: Seq<AbCall>,
    res: Result<(ZerocheckProof, ZerocheckClaim, Vec<F128>), String>,
) where
    R: Fn(Option<Round1Mode>, &[u8], &[u8], &[u8], usize, &[F128], &PaddingSpec) -> Round1Output,
    I: Fn(&[F128], F128) -> F128,
    T: Fn(F128) -> UniSkipFoldTable,

    requires
        outcome(
            kernels,
            Some(mode),
            a,
            b,
            c,
            m,
            padding,
            h0,
            c0,
            history,
            calls,
            captured(res),
        ),
    ensures
        res matches Ok((_, _, vector)) ==> vector_made(
            kernels,
            mode,
            a,
            b,
            c,
            m,
            padding,
            vector@,
        ),
{
    if let Ok((proof, claim, vector)) = res {
        let run = choose|run: AbRun|
            {
                &&& #[trigger] kernels_answered(kernels, Some(mode), a, b, c, m, padding, run)
                &&& proved(
                    run,
                    kernels.constants,
                    a@,
                    b@,
                    m,
                    *padding,
                    h0,
                    c0,
                    history,
                    calls,
                    proof,
                    claim,
                )
                &&& vector == run.round1.s_hat_v
            };
        lemma_point_len(kernels, mode, a, b, c, m, padding, run);
    }
}

/// So is the vector that the host captures alone.
pub proof fn law_host_vector_is_the_kernels<R, I, T>(
    kernels: SkipKernels<R, I, T>,
    mode: Round1Mode,
    a: &[u8],
    b: &[u8],
    c: &[u8],
    m: usize,
    padding: &PaddingSpec,
    h0: Seq<Event>,
    history: Seq<Event>,
    proof: ZerocheckProof,
    claim: ZerocheckClaim,
    vector: Seq<F128>,
) where
    R: Fn(Option<Round1Mode>, &[u8], &[u8], &[u8], usize, &[F128], &PaddingSpec) -> Round1Output,
    I: Fn(&[F128], F128) -> F128,
    T: Fn(F128) -> UniSkipFoldTable,

    requires
        host_zerocheck(kernels, mode, a, b, c, m, padding, h0, history, proof, claim, vector),
    ensures
        vector_made(kernels, mode, a, b, c, m, padding, vector),
{
    let run = choose|run: AbRun| #[trigger]
        host_answered(
            kernels,
            mode,
            a,
            b,
            c,
            m,
            padding,
            h0,
            run,
            history,
            proof,
            claim,
            vector,
        );
    lemma_point_len(kernels, mode, a, b, c, m, padding, run);
}

} // verus!
