//! What a reader of a zerocheck proof follows: the zerocheck sum of the planes, from the
//! first multilinear round to the product of the two evaluations.
use crate::extension::{
    claim, claim_terms, law_folds_compose, law_zerocheck_round, round_at_zero,
};
use crate::faithful::{ab_faithful, law_faithful_ab_provider};
use crate::field::F128;
use crate::multilinear::sum_upto;
use crate::padding::{PaddingSpec, K_SKIP};
use crate::resident_ab::{lemma_row_bytes, proved};
use crate::transcript::Event;
use crate::univariate::{folded_plane, UniSkipFoldTable};
use crate::zerocheck::{
    resident_rounds, round_point, tail_plane, AbCall, AbRun, ProtocolConstants, Round1Mode,
    Round1Output, SkipKernels, ZerocheckClaim, ZerocheckProof, N_INNER,
};
use crate::zerocheck_host::{host_answered, host_message, host_run, host_zerocheck};
use crate::zerocheck_parity::lemma_tail_length;
use vstd::arithmetic::power2::pow2;
use vstd::prelude::*;

verus! {

/// The zerocheck sum of two planes that were folded at the first `i` challenges, at the
/// part of the point that is left.
pub open spec fn sum_before(
    a: Seq<F128>,
    b: Seq<F128>,
    r_rest: Seq<F128>,
    rhos: Seq<F128>,
    i: int,
) -> F128 {
    claim(tail_plane(a, rhos, 0, i), tail_plane(b, rhos, 0, i), r_rest.skip(i))
}

/// The polynomial of round `i` at zero, which no message holds.
pub open spec fn zero_of_round(
    a: Seq<F128>,
    b: Seq<F128>,
    r_rest: Seq<F128>,
    rhos: Seq<F128>,
    i: int,
) -> F128 {
    round_at_zero(
        tail_plane(a, rhos, 0, i),
        tail_plane(b, rhos, 0, i),
        r_rest.skip(i + 1),
    )
}

/// The round polynomial at `rho`: the quadratic with the value `zero` at zero, and with
/// the value at one and the leading coefficient that the message holds.
pub open spec fn round_value(zero: F128, message: (F128, F128), rho: F128) -> F128 {
    zero + rho * (((zero + message.0) + message.1) + rho * message.1)
}

/// A round is consistent: the sum before it splits over the variable that it binds, whose
/// coordinate is `p`, and the sum after it is its polynomial at the challenge.
pub open spec fn round_holds(
    sum: F128,
    p: F128,
    zero: F128,
    message: (F128, F128),
    rho: F128,
    next: F128,
) -> bool {
    &&& sum == (F128::one() + p) * zero + p * message.0
    &&& next == round_value(zero, message, rho)
}

/// The message of the host for round `i` makes the round consistent.
pub proof fn law_host_message_holds(
    a: Seq<F128>,
    b: Seq<F128>,
    point: Seq<F128>,
    rhos: Seq<F128>,
    n: nat,
    i: int,
)
    requires
        a.len() == pow2(n),
        b.len() == pow2(n),
        point.len() == n + K_SKIP,
        0 <= i < n,
    ensures
        ({
            let r_rest = point.skip(K_SKIP as int);
            round_holds(
                sum_before(a, b, r_rest, rhos, i),
                r_rest[i],
                zero_of_round(a, b, r_rest, rhos, i),
                host_message(a, b, point, rhos, i),
                rhos[i],
                sum_before(a, b, r_rest, rhos, i + 1),
            )
        }),
{
    let r_rest = point.skip(K_SKIP as int);
    let here = r_rest.skip(i);
    lemma_tail_length(a, rhos, n, i);
    lemma_tail_length(b, rhos, n, i);
    law_zerocheck_round(tail_plane(a, rhos, 0, i), tail_plane(b, rhos, 0, i), here, rhos[i]);
    assert(here.skip(1) =~= r_rest.skip(i + 1));
    assert(round_point(point, i) =~= seq![F128::one()] + here.skip(1));
}

/// Every round of a proof is consistent with the sums of the planes, and the last sum is
/// the product of the two evaluations.
pub open spec fn rounds_hold(
    a: Seq<F128>,
    b: Seq<F128>,
    n: int,
    proof: ZerocheckProof,
    answer: ZerocheckClaim,
) -> bool {
    let r_rest = answer.r_rest@;
    let rhos = answer.mlv_challenges@;
    &&& proof.multilinear_rounds@.len() == n
    &&& rhos.len() == n
    &&& r_rest.len() == n
    &&& forall|i: int|
        0 <= i < n ==> #[trigger] round_holds(
            sum_before(a, b, r_rest, rhos, i),
            r_rest[i],
            zero_of_round(a, b, r_rest, rhos, i),
            proof.multilinear_rounds@[i],
            rhos[i],
            sum_before(a, b, r_rest, rhos, i + 1),
        )
    &&& sum_before(a, b, r_rest, rhos, n) == answer.a_eval * answer.b_eval
}

/// A proof whose messages are those of the host, and whose evaluations are what is left of
/// the planes, has consistent rounds.
proof fn lemma_rounds_hold(
    a: Seq<F128>,
    b: Seq<F128>,
    point: Seq<F128>,
    n: nat,
    proof: ZerocheckProof,
    answer: ZerocheckClaim,
)
    requires
        a.len() == pow2(n),
        b.len() == pow2(n),
        point.len() == n + K_SKIP,
        answer.r_rest@ == point.skip(K_SKIP as int),
        answer.mlv_challenges@.len() == n,
        proof.multilinear_rounds@.len() == n,
        forall|i: int|
            0 <= i < n ==> #[trigger] proof.multilinear_rounds@[i] == host_message(
                a,
                b,
                point,
                answer.mlv_challenges@,
                i,
            ),
        answer.a_eval == tail_plane(a, answer.mlv_challenges@, 0, n as int)[0],
        answer.b_eval == tail_plane(b, answer.mlv_challenges@, 0, n as int)[0],
    ensures
        rounds_hold(a, b, n as int, proof, answer),
{
    let rhos = answer.mlv_challenges@;
    let r_rest = answer.r_rest@;
    assert forall|i: int| 0 <= i < n implies #[trigger] round_holds(
        sum_before(a, b, r_rest, rhos, i),
        r_rest[i],
        zero_of_round(a, b, r_rest, rhos, i),
        proof.multilinear_rounds@[i],
        rhos[i],
        sum_before(a, b, r_rest, rhos, i + 1),
    ) by {
        law_host_message_holds(a, b, point, rhos, n, i);
        assert(proof.multilinear_rounds@[i] == host_message(a, b, point, rhos, i));
    }
    let pa = tail_plane(a, rhos, 0, n as int);
    let pb = tail_plane(b, rhos, 0, n as int);
    lemma_tail_length(a, rhos, n, n as int);
    vstd::arithmetic::power2::lemma2_to64();
    assert(r_rest.skip(n as int) =~= Seq::empty());
    let terms = claim_terms(pa, pb, Seq::empty());
    assert(sum_upto(terms, 1) == sum_upto(terms, 0) + terms(0));
    crate::field::law_add(pa[0] * pb[0], F128::zero(), F128::zero());
    crate::field::law_mul_units(pa[0] * pb[0]);
}

/// With a faithful provider the rounds of a proof form a chain: the zerocheck sum of the
/// planes splits in every round, becomes the round polynomial at the challenge, and ends
/// as the product of the two evaluations.
pub proof fn law_faithful_rounds_hold(
    run: AbRun,
    constants: ProtocolConstants,
    a_bytes: Seq<u8>,
    b_bytes: Seq<u8>,
    m: usize,
    padding: PaddingSpec,
    h0: Seq<Event>,
    c0: Seq<AbCall>,
    history: Seq<Event>,
    calls: Seq<AbCall>,
    proof: ZerocheckProof,
    answer: ZerocheckClaim,
    a: Seq<F128>,
    b: Seq<F128>,
)
    requires
        19 <= m,
        run.point(constants).len() == m,
        proved(
            run,
            constants,
            a_bytes,
            b_bytes,
            m,
            padding,
            h0,
            c0,
            history,
            calls,
            proof,
            answer,
        ),
        a.len() == pow2((m - K_SKIP) as nat),
        b.len() == a.len(),
        ab_faithful(run, constants, m, a, b),
    ensures
        rounds_hold(a, b, m - K_SKIP, proof, answer),
{
    let n = m - K_SKIP;
    law_faithful_ab_provider(
        run,
        constants,
        a_bytes,
        b_bytes,
        m,
        padding,
        h0,
        c0,
        history,
        calls,
        proof,
        answer,
        a,
        b,
    );
    law_folds_compose(a, run.rhos, 0, resident_rounds(m), n);
    law_folds_compose(b, run.rhos, 0, resident_rounds(m), n);
    lemma_rounds_hold(a, b, run.point(constants), n as nat, proof, answer);
}

/// The rounds of a proof that the host made alone form the same chain.
pub proof fn law_host_rounds_hold(
    run: AbRun,
    constants: ProtocolConstants,
    a: Seq<u8>,
    b: Seq<u8>,
    m: usize,
    padding: PaddingSpec,
    h0: Seq<Event>,
    history: Seq<Event>,
    proof: ZerocheckProof,
    answer: ZerocheckClaim,
)
    requires
        m >= K_SKIP + N_INNER,
        a.len() == pow2(m as nat) / 8,
        b.len() == a.len(),
        run.point(constants).len() == m,
        host_run(run, constants, a, b, m, padding, h0, history, proof, answer),
    ensures
        rounds_hold(
            folded_plane(run.table.data@, a, padding),
            folded_plane(run.table.data@, b, padding),
            m - K_SKIP,
            proof,
            answer,
        ),
{
    lemma_row_bytes(m as nat);
    lemma_rounds_hold(
        folded_plane(run.table.data@, a, padding),
        folded_plane(run.table.data@, b, padding),
        run.point(constants),
        (m - K_SKIP) as nat,
        proof,
        answer,
    );
}

/// The rounds form a chain on the planes that `table` folds the inputs to, where `table` is
/// what the kernel answered for the univariate challenge of the claim.
pub open spec fn rounds_hold_on_table<T>(
    fold_table: T,
    a: Seq<u8>,
    b: Seq<u8>,
    m: usize,
    padding: PaddingSpec,
    table: UniSkipFoldTable,
    proof: ZerocheckProof,
    answer: ZerocheckClaim,
) -> bool where T: Fn(F128) -> UniSkipFoldTable {
    &&& call_ensures(fold_table, (answer.z,), table)
    &&& rounds_hold(
        folded_plane(table.data@, a, padding),
        folded_plane(table.data@, b, padding),
        m - K_SKIP,
        proof,
        answer,
    )
}

/// What the host proves can be followed: the rounds form a chain on the planes that the
/// inputs fold to at the challenge of the claim. The same holds of a run with a processor
/// provider, which meets the relation of the host.
pub proof fn law_host_zerocheck_can_be_followed<R, I, T>(
    kernels: SkipKernels<R, I, T>,
    mode: Round1Mode,
    a: &[u8],
    b: &[u8],
    c: &[u8],
    m: usize,
    padding: &PaddingSpec,
    h0: Seq<Event>,
    history: Seq<Event>,
    proof: ZerocheckProof,
    answer: ZerocheckClaim,
    s_hat_v: Seq<F128>,
) where
    R: Fn(Option<Round1Mode>, &[u8], &[u8], &[u8], usize, &[F128], &PaddingSpec) -> Round1Output,
    I: Fn(&[F128], F128) -> F128,
    T: Fn(F128) -> UniSkipFoldTable,

    requires
        m >= K_SKIP + N_INNER,
        a@.len() == pow2(m as nat) / 8,
        b@.len() == a@.len(),
        host_zerocheck(
            kernels,
            mode,
            a,
            b,
            c,
            m,
            padding,
            h0,
            history,
            proof,
            answer,
            s_hat_v,
        ),
    ensures
        exists|table: UniSkipFoldTable| #[trigger]
            rounds_hold_on_table(
                kernels.fold_table,
                a@,
                b@,
                m,
                *padding,
                table,
                proof,
                answer,
            ),
{
    let run = choose|run: AbRun| #[trigger]
        host_answered(
            kernels,
            mode,
            a,
            b,
            c,
            m,
            padding,
            h0,
            run,
            history,
            proof,
            answer,
            s_hat_v,
        );
    law_host_rounds_hold(
        run,
        kernels.constants,
        a@,
        b@,
        m,
        *padding,
        h0,
        history,
        proof,
        answer,
    );
    assert(rounds_hold_on_table(
        kernels.fold_table,
        a@,
        b@,
        m,
        *padding,
        run.table,
        proof,
        answer,
    ));
}

/// The round polynomial at zero as a reader computes it, from the sum before the round and
/// an inverse of one plus the coordinate.
pub open spec fn read_zero(sum: F128, p: F128, inverse: F128, message: (F128, F128)) -> F128 {
    inverse * (sum + p * message.0)
}

/// The sum before round `i` as a reader computes it, from the first sum and the messages.
pub open spec fn read_sum(
    first: F128,
    r_rest: Seq<F128>,
    inverses: Seq<F128>,
    messages: Seq<(F128, F128)>,
    rhos: Seq<F128>,
    i: int,
) -> F128
    decreases i,
{
    if i <= 0 {
        first
    } else {
        let sum = read_sum(first, r_rest, inverses, messages, rhos, i - 1);
        let zero = read_zero(sum, r_rest[i - 1], inverses[i - 1], messages[i - 1]);
        round_value(zero, messages[i - 1], rhos[i - 1])
    }
}

/// Where one plus the coordinate has an inverse, the sum and the message determine the
/// round polynomial.
pub proof fn law_round_is_determined(
    sum: F128,
    p: F128,
    inverse: F128,
    zero: F128,
    message: (F128, F128),
)
    requires
        inverse * (F128::one() + p) == F128::one(),
        sum == (F128::one() + p) * zero + p * message.0,
    ensures
        read_zero(sum, p, inverse, message) == zero,
{
    let split = (F128::one() + p) * zero;
    let odd = p * message.0;
    crate::field::law_add(split, odd, odd);
    crate::field::law_add(odd, odd, odd);
    crate::field::law_add(split, F128::zero(), F128::zero());
    crate::field::law_mul_associates(inverse, F128::one() + p, zero);
    crate::field::law_mul_units(zero);
}

/// Whoever starts with the zerocheck sum of the planes and follows the messages computes
/// the sum of the folded planes before every round, and ends with the product of the two
/// evaluations.
pub proof fn law_reader_follows_the_sums(
    a: Seq<F128>,
    b: Seq<F128>,
    n: int,
    proof: ZerocheckProof,
    answer: ZerocheckClaim,
    inverses: Seq<F128>,
    i: int,
)
    requires
        rounds_hold(a, b, n, proof, answer),
        forall|j: int|
            0 <= j < n ==> #[trigger] inverses[j] * (F128::one() + answer.r_rest@[j])
                == F128::one(),
        0 <= i <= n,
    ensures
        read_sum(
            claim(a, b, answer.r_rest@),
            answer.r_rest@,
            inverses,
            proof.multilinear_rounds@,
            answer.mlv_challenges@,
            i,
        ) == sum_before(a, b, answer.r_rest@, answer.mlv_challenges@, i),
        i == n ==> read_sum(
            claim(a, b, answer.r_rest@),
            answer.r_rest@,
            inverses,
            proof.multilinear_rounds@,
            answer.mlv_challenges@,
            i,
        ) == answer.a_eval * answer.b_eval,
    decreases i,
{
    let r_rest = answer.r_rest@;
    let rhos = answer.mlv_challenges@;
    if i == 0 {
        assert(r_rest.skip(0) =~= r_rest);
    } else {
        let j = i - 1;
        law_reader_follows_the_sums(a, b, n, proof, answer, inverses, j);
        let sum = sum_before(a, b, r_rest, rhos, j);
        let zero = zero_of_round(a, b, r_rest, rhos, j);
        let message = proof.multilinear_rounds@[j];
        assert(round_holds(
            sum,
            r_rest[j],
            zero,
            message,
            rhos[j],
            sum_before(a, b, r_rest, rhos, j + 1),
        ));
        assert(inverses[j] * (F128::one() + r_rest[j]) == F128::one());
        law_round_is_determined(sum, r_rest[j], inverses[j], zero, message);
    }
}

} // verus!
