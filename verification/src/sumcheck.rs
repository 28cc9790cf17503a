//! The inner-product sumcheck: messages, the prover's state, and the algebra that
//! makes a round sound.
use crate::field::F128;
use crate::multilinear::{fold, fold_entry, sum_upto};
use crate::rounds::{fold_in_place, odd_products, sum_products};
use vstd::prelude::*;

verus! {

/// The summands of an inner product.
pub open spec fn inner_terms(f: Seq<F128>, b: Seq<F128>) -> spec_fn(int) -> F128 {
    |i: int| f[i] * b[i]
}

/// `f[0] * b[0] + f[1] * b[1] + ...`.
pub open spec fn inner(f: Seq<F128>, b: Seq<F128>) -> F128 {
    sum_upto(inner_terms(f, b), f.len() as int)
}

/// The product of the even entries of each pair.
pub open spec fn even_products(a: Seq<F128>, b: Seq<F128>) -> spec_fn(int) -> F128 {
    |p: int| a[2 * p] * b[2 * p]
}

/// The quadratic of one round: its value at zero and its leading coefficient.
#[derive(Clone, Copy, Debug, PartialEq, Eq, Structural)]
pub struct SumcheckMessage {
    pub u_0: F128,
    pub u_2: F128,
}

/// The unweighted round message of a pair of planes.
pub open spec fn message_of(f: Seq<F128>, b: Seq<F128>) -> SumcheckMessage {
    SumcheckMessage {
        u_0: sum_upto(even_products(f, b), (f.len() / 2) as int),
        u_2: sum_upto(sum_products(f, b), (f.len() / 2) as int),
    }
}

/// The round quadratic at `x`, given the sum `target` of its values at zero and
/// one.
pub open spec fn quadratic_at(message: SumcheckMessage, target: F128, x: F128) -> F128 {
    message.u_0 + x * ((target + message.u_2) + x * message.u_2)
}

proof fn lemma_fold_pair_product(a0: F128, a1: F128, b0: F128, b1: F128, x: F128)
    ensures
        fold_entry(a0, a1, x) * fold_entry(b0, b1, x) == a0 * b0 + x * (((a0 * b0 + a1 * b1) + (a0
            + a1) * (b0 + b1)) + x * ((a0 + a1) * (b0 + b1))),
{
    let d = a0 + a1;
    let e = b0 + b1;
    let xd = x * d;
    let xe = x * e;
    // (a0 + xd)(b0 + xe) = a0 b0 + a0 xe + xd b0 + xd xe
    crate::field::law_mul_distributes(a0 + xd, b0, xe);
    crate::field::law_mul_distributes(b0, a0, xd);
    crate::field::law_mul_distributes(xe, a0, xd);
    // each cross term carries one factor x
    crate::field::law_mul_associates(x, d, b0);
    crate::field::law_mul_commutes(a0, xe);
    crate::field::law_mul_associates(x, e, a0);
    crate::field::law_mul_commutes(e, a0);
    crate::field::law_mul_associates(x, d, xe);
    crate::field::law_mul_commutes(d, xe);
    crate::field::law_mul_associates(x, e, d);
    crate::field::law_mul_commutes(e, d);
    assert(xd * xe == x * (x * (d * e)));
    // d b0 + a0 e == a0 b0 + a1 b1 + d e, in characteristic two
    crate::field::law_mul_distributes(b0, a0, a1);
    crate::field::law_mul_distributes(a0, b0, b1);
    crate::field::law_mul_distributes(d, b0, b1);
    crate::field::law_mul_distributes(b1, a0, a1);
    let p = a0 * b0;
    let q = a1 * b1;
    let s = a1 * b0;
    let t = a0 * b1;
    assert(d * b0 == p + s);
    assert(a0 * e == p + t);
    assert(d * e == (p + s) + (t + q));
    lemma_cross_terms(p, q, s, t);
    // collect the factor x
    crate::field::law_mul_distributes(x, d * b0, a0 * e);
    crate::field::law_mul_distributes(x, (p + q) + d * e, x * (d * e));
    lemma_regroup(p, x * (d * b0), x * (a0 * e), x * (x * (d * e)));
}

proof fn lemma_cross_terms(p: F128, q: F128, s: F128, t: F128)
    ensures
        (p + s) + (p + t) == (p + q) + ((p + s) + (t + q)),
{
    let (pb, qb, sb, tb) = (p.bits, q.bits, s.bits, t.bits);
    assert((pb ^ sb) ^ (pb ^ tb) == (pb ^ qb) ^ ((pb ^ sb) ^ (tb ^ qb))) by (bit_vector);
}

proof fn lemma_regroup(p: F128, s: F128, t: F128, u: F128)
    ensures
        (p + s) + (t + u) == p + ((s + t) + u),
{
    let (pb, sb, tb, ub) = (p.bits, s.bits, t.bits, u.bits);
    assert((pb ^ sb) ^ (tb ^ ub) == pb ^ ((sb ^ tb) ^ ub)) by (bit_vector);
}

/// A weighted sum over the pairs of two planes.
pub open spec fn weighted(
    w: spec_fn(int) -> F128,
    g: spec_fn(int) -> F128,
) -> spec_fn(int) -> F128 {
    |p: int| w(p) * g(p)
}

/// The products of the entries of two folded planes.
pub open spec fn folded_products(a: Seq<F128>, b: Seq<F128>, x: F128) -> spec_fn(int) -> F128 {
    |p: int| fold(a, x)[p] * fold(b, x)[p]
}

proof fn lemma_weighted_pair(w: F128, e: F128, o: F128, s: F128, x: F128)
    ensures
        w * (e + x * (((e + o) + s) + x * s)) == w * e + x * (((w * e + w * o) + w * s) + x * (w
            * s)),
{
    let inner = ((e + o) + s) + x * s;
    crate::field::law_mul_distributes(w, e, x * inner);
    crate::field::lemma_mul_exchange(w, x, inner);
    crate::field::law_mul_distributes(w, (e + o) + s, x * s);
    crate::field::law_mul_distributes(w, e + o, s);
    crate::field::law_mul_distributes(w, e, o);
    crate::field::lemma_mul_exchange(w, x, s);
}

/// Folding turns a weighted sum of pair products into the value at `x` of a
/// quadratic with coefficients that are weighted sums over the unfolded pairs.
pub proof fn law_fold_weighted_sum(
    w: spec_fn(int) -> F128,
    a: Seq<F128>,
    b: Seq<F128>,
    x: F128,
    n: int,
)
    requires
        0 <= 2 * n <= a.len(),
        a.len() == b.len(),
    ensures
        sum_upto(weighted(w, folded_products(a, b, x)), n) == sum_upto(
            weighted(w, even_products(a, b)),
            n,
        ) + x * (((sum_upto(weighted(w, even_products(a, b)), n) + sum_upto(
            weighted(w, odd_products(a, b)),
            n,
        )) + sum_upto(weighted(w, sum_products(a, b)), n)) + x * sum_upto(
            weighted(w, sum_products(a, b)),
            n,
        )),
    decreases n,
{
    let f = weighted(w, folded_products(a, b, x));
    let e = weighted(w, even_products(a, b));
    let o = weighted(w, odd_products(a, b));
    let s = weighted(w, sum_products(a, b));
    crate::field::law_add(F128::zero(), F128::zero(), F128::zero());
    crate::field::law_mul_units(x);
    if n > 0 {
        law_fold_weighted_sum(w, a, b, x, n - 1);
        let p = n - 1;
        lemma_fold_pair_product(a[2 * p], a[2 * p + 1], b[2 * p], b[2 * p + 1], x);
        lemma_weighted_pair(
            w(p),
            even_products(a, b)(p),
            odd_products(a, b)(p),
            sum_products(a, b)(p),
            x,
        );
        let (se, so, ss) = (sum_upto(e, p), sum_upto(o, p), sum_upto(s, p));
        // quadratics add coefficient by coefficient
        crate::field::law_mul_distributes(x, ss, s(p));
        crate::field::law_mul_distributes(
            x,
            ((se + so) + ss) + x * ss,
            ((e(p) + o(p)) + s(p)) + x * s(p),
        );
        crate::field::lemma_add_exchange(se, so, e(p), o(p));
        crate::field::lemma_add_exchange(se + so, ss, e(p) + o(p), s(p));
        crate::field::lemma_add_exchange((se + so) + ss, x * ss, (e(p) + o(p)) + s(p), x * s(p));
        crate::field::lemma_add_exchange(
            se,
            x * (((se + so) + ss) + x * ss),
            e(p),
            x * (((e(p) + o(p)) + s(p)) + x * s(p)),
        );
    }
}

/// A sum over pairs, with both entries of each pair.
pub proof fn lemma_sum_pairs(
    f: spec_fn(int) -> F128,
    even: spec_fn(int) -> F128,
    odd: spec_fn(int) -> F128,
    n: int,
)
    requires
        0 <= n,
        forall|p: int| 0 <= p < n ==> #[trigger] even(p) == f(2 * p),
        forall|p: int| 0 <= p < n ==> #[trigger] odd(p) == f(2 * p + 1),
    ensures
        sum_upto(f, 2 * n) == sum_upto(even, n) + sum_upto(odd, n),
    decreases n,
{
    crate::field::law_add(F128::zero(), F128::zero(), F128::zero());
    if n > 0 {
        lemma_sum_pairs(f, even, odd, n - 1);
        let p = n - 1;
        assert(sum_upto(f, 2 * n) == sum_upto(f, 2 * n - 1) + f(2 * n - 1));
        assert(sum_upto(f, 2 * n - 1) == sum_upto(f, 2 * p) + f(2 * p));
        crate::field::law_add(sum_upto(f, 2 * p), f(2 * p), f(2 * p + 1));
        crate::field::lemma_add_exchange(sum_upto(even, p), sum_upto(odd, p), even(p), odd(p));
    }
}

/// One sumcheck round is sound: if `target` is the inner product of the planes,
/// the inner product of the folded planes is the value at the challenge of the
/// quadratic that the message and `target` determine.
pub proof fn law_round_reduces_target(f: Seq<F128>, b: Seq<F128>, x: F128)
    requires
        f.len() == b.len(),
        f.len() % 2 == 0,
    ensures
        inner(fold(f, x), fold(b, x)) == quadratic_at(message_of(f, b), inner(f, b), x),
{
    let n = (f.len() / 2) as int;
    let w = |p: int| F128::one();
    let (e, o, s) = (even_products(f, b), odd_products(f, b), sum_products(f, b));
    assert forall|y: F128| #[trigger] (F128::one() * y) == y by {
        crate::field::law_mul_units(y);
    }
    law_fold_weighted_sum(w, f, b, x, n);
    crate::multilinear::lemma_sum_congruent(weighted(w, e), e, n);
    crate::multilinear::lemma_sum_congruent(weighted(w, o), o, n);
    crate::multilinear::lemma_sum_congruent(weighted(w, s), s, n);
    crate::multilinear::lemma_sum_congruent(
        weighted(w, folded_products(f, b, x)),
        inner_terms(fold(f, x), fold(b, x)),
        n,
    );
    lemma_sum_pairs(inner_terms(f, b), e, o, n);
}

/// `basis + beta * addend`, entry by entry.
pub open spec fn combine(basis: Seq<F128>, addend: Seq<F128>, beta: F128) -> Seq<F128> {
    Seq::new(basis.len(), |i: int| basis[i] + beta * addend[i])
}

/// Gluing is sound: the inner product with the glued basis is the combination of
/// the two inner products.
pub proof fn law_glue_combines_targets(
    f: Seq<F128>,
    basis: Seq<F128>,
    addend: Seq<F128>,
    beta: F128,
)
    requires
        f.len() == basis.len(),
        f.len() == addend.len(),
    ensures
        inner(f, combine(basis, addend, beta)) == inner(f, basis) + beta * inner(f, addend),
{
    let n = f.len() as int;
    let glued = combine(basis, addend, beta);
    let scaled = |i: int| beta * (f[i] * addend[i]);
    assert forall|i: int| 0 <= i < n implies #[trigger] inner_terms(f, glued)(i) == inner_terms(
        f,
        basis,
    )(i) + scaled(i) by {
        crate::field::law_mul_distributes(f[i], basis[i], beta * addend[i]);
        crate::field::lemma_mul_exchange(f[i], beta, addend[i]);
    }
    crate::multilinear::lemma_sum_scale(beta, inner_terms(f, addend), scaled, n);
    crate::multilinear::lemma_sum_add(inner_terms(f, basis), scaled, inner_terms(f, glued), n);
}

/// The mathematical state of a sumcheck prover.
#[verifier::ext_equal]
pub struct SumcheckState {
    /// The witness plane.
    pub f: Seq<F128>,
    /// The combined basis plane.
    pub basis: Seq<F128>,
    /// The initial target plus every glued sum, scaled.
    pub total: F128,
    /// All messages so far.
    pub messages: Seq<SumcheckMessage>,
    /// A basis that was introduced and not yet glued, with its sum.
    pub pending: Option<(Seq<F128>, F128)>,
}

impl SumcheckState {
    /// A fresh prover whose first message is `first`.
    pub open spec fn start(
        f: Seq<F128>,
        basis: Seq<F128>,
        target: F128,
        first: SumcheckMessage,
    ) -> SumcheckState {
        SumcheckState { f, basis, total: target, messages: seq![first], pending: None }
    }

    /// Both planes have the same length, and so has a pending basis.
    pub open spec fn wf(self) -> bool {
        &&& self.f.len() == self.basis.len()
        &&& self.pending matches Some(p) ==> p.0.len() == self.f.len()
    }

    /// Both planes folded, and the next message recorded.
    pub open spec fn folded(self, r: F128) -> SumcheckState {
        SumcheckState {
            f: fold(self.f, r),
            basis: fold(self.basis, r),
            messages: self.messages.push(message_of(fold(self.f, r), fold(self.basis, r))),
            ..self
        }
    }

    /// A second basis put beside the first, and its message recorded.
    pub open spec fn introduced(self, basis: Seq<F128>, sum: F128) -> SumcheckState {
        SumcheckState {
            messages: self.messages.push(message_of(self.f, basis)),
            pending: Some((basis, sum)),
            ..self
        }
    }

    /// The pending basis combined into the first with weight `beta`.
    pub open spec fn glued(self, beta: F128) -> SumcheckState {
        SumcheckState {
            basis: combine(self.basis, self.pending->Some_0.0, beta),
            total: self.total + beta * self.pending->Some_0.1,
            pending: None,
            ..self
        }
    }
}

/// The prover side of the inner-product sumcheck.
pub struct SumcheckProver {
    pub f: Vec<F128>,
    pub combined_basis: Vec<F128>,
    pub t_r: F128,
    pub transcript: Vec<SumcheckMessage>,
    pub pending_glue: Option<(Vec<F128>, F128)>,
}

impl View for SumcheckProver {
    type V = SumcheckState;

    open spec fn view(&self) -> SumcheckState {
        SumcheckState {
            f: self.f@,
            basis: self.combined_basis@,
            total: self.t_r,
            messages: self.transcript@,
            pending: match self.pending_glue {
                Some(p) => Some((p.0@, p.1)),
                None => None,
            },
        }
    }
}

/// Computes the unweighted round message.
pub fn compute_message(f: &[F128], b: &[F128]) -> (message: SumcheckMessage)
    requires
        f@.len() == b@.len(),
    ensures
        message == message_of(f@, b@),
{
    let len = f.len();
    let half = len / 2;
    let mut u_0 = F128::zero();
    let mut u_2 = F128::zero();
    let mut p: usize = 0;
    while p < half
        invariant
            p <= half,
            half == len / 2,
            len == f@.len(),
            f@.len() == b@.len(),
            u_0 == sum_upto(even_products(f@, b@), p as int),
            u_2 == sum_upto(sum_products(f@, b@), p as int),
        decreases half - p,
    {
        u_0 = u_0 + f[2 * p] * b[2 * p];
        u_2 = u_2 + (f[2 * p] + f[2 * p + 1]) * (b[2 * p] + b[2 * p + 1]);
        p = p + 1;
    }
    SumcheckMessage { u_0, u_2 }
}

/// Computes an inner product.
pub fn compute_inner(f: &[F128], b: &[F128]) -> (value: F128)
    requires
        f@.len() == b@.len(),
    ensures
        value == inner(f@, b@),
{
    let len = f.len();
    let mut value = F128::zero();
    let mut i: usize = 0;
    while i < len
        invariant
            i <= len,
            len == f@.len(),
            f@.len() == b@.len(),
            value == sum_upto(inner_terms(f@, b@), i as int),
        decreases len - i,
    {
        value = value + f[i] * b[i];
        i = i + 1;
    }
    value
}

impl SumcheckProver {
    /// Starts a prover and computes its first message.
    pub fn new(f: Vec<F128>, basis: Vec<F128>, target: F128) -> (r: (
        SumcheckProver,
        SumcheckMessage,
    ))
        requires
            f@.len() == basis@.len(),
        ensures
            r.1 == message_of(f@, basis@),
            r.0@ == SumcheckState::start(f@, basis@, target, r.1),
    {
        let first = compute_message(f.as_slice(), basis.as_slice());
        Self::new_with_first_msg(f, basis, target, first)
    }

    /// Starts a prover from a first message computed elsewhere.
    pub fn new_with_first_msg(
        f: Vec<F128>,
        basis: Vec<F128>,
        target: F128,
        first: SumcheckMessage,
    ) -> (r: (SumcheckProver, SumcheckMessage))
        ensures
            r.1 == first,
            r.0@ == SumcheckState::start(f@, basis@, target, first),
    {
        let mut transcript: Vec<SumcheckMessage> = Vec::new();
        transcript.push(first);
        let prover = SumcheckProver {
            f,
            combined_basis: basis,
            t_r: target,
            transcript,
            pending_glue: None,
        };
        assert(prover@ =~= SumcheckState::start(f@, basis@, target, first));
        (prover, first)
    }

    /// Binds the next variable to `r` and returns the next message.
    pub fn fold(&mut self, r: F128) -> (message: SumcheckMessage)
        requires
            old(self)@.f.len() == old(self)@.basis.len(),
        ensures
            final(self)@ == old(self)@.folded(r),
            message == message_of(final(self)@.f, final(self)@.basis),
    {
        let ghost before = self@;
        fold_in_place(&mut self.f, r);
        fold_in_place(&mut self.combined_basis, r);
        let message = compute_message(self.f.as_slice(), self.combined_basis.as_slice());
        self.transcript.push(message);
        assert(self@ =~= before.folded(r));
        message
    }

    /// Puts a second basis with claimed sum `sum` beside the first.
    pub fn introduce_new(&mut self, basis: Vec<F128>, sum: F128) -> (message: SumcheckMessage)
        requires
            old(self)@.f.len() == basis@.len(),
        ensures
            final(self)@ == old(self)@.introduced(basis@, sum),
            message == message_of(old(self)@.f, basis@),
    {
        let ghost before = self@;
        let message = compute_message(self.f.as_slice(), basis.as_slice());
        self.transcript.push(message);
        self.pending_glue = Some((basis, sum));
        assert(self@ =~= before.introduced(basis@, sum));
        message
    }

    /// Puts a second basis beside the first with its true sum, which is returned
    /// too.
    pub fn introduce_new_with_eval(&mut self, basis: Vec<F128>) -> (r: (SumcheckMessage, F128))
        requires
            old(self)@.f.len() == basis@.len(),
        ensures
            r.1 == inner(old(self)@.f, basis@),
            final(self)@ == old(self)@.introduced(basis@, r.1),
            r.0 == message_of(old(self)@.f, basis@),
    {
        let value = compute_inner(self.f.as_slice(), basis.as_slice());
        let message = self.introduce_new(basis, value);
        (message, value)
    }

    /// Combines the pending basis into the first.
    pub fn glue(&mut self, beta: F128)
        requires
            old(self)@.wf(),
            old(self)@.pending is Some,
        ensures
            final(self)@ == old(self)@.glued(beta),
    {
        let ghost before = self@;
        if let Some((addend, sum)) = self.pending_glue.take() {
            let len = addend.len();
            let mut i: usize = 0;
            while i < len
                invariant
                    i <= len,
                    len == addend@.len(),
                    len == before.basis.len(),
                    self.combined_basis@.len() == len,
                    self.f@ == before.f,
                    self.t_r == before.total,
                    self.transcript@ == before.messages,
                    self.pending_glue is None,
                    forall|j: int|
                        0 <= j < i ==> self.combined_basis@[j] == before.basis[j] + beta
                            * addend@[j],
                    forall|j: int| i <= j < len ==> self.combined_basis@[j] == before.basis[j],
                decreases len - i,
            {
                let value = self.combined_basis[i] + beta * addend[i];
                self.combined_basis.set(i, value);
                i = i + 1;
            }
            self.t_r = self.t_r + beta * sum;
            assert(self.combined_basis@ =~= combine(before.basis, addend@, beta));
            assert(self@ =~= before.glued(beta));
        }
    }
}

/// The message of a round holds the inner product of the planes at zero, and that of the sums of
/// their pairs; with the inner product at one, the first makes the inner product of the planes.
pub proof fn law_message_parts(f: Seq<F128>, b: Seq<F128>)
    requires
        f.len() == b.len(),
        f.len() % 2 == 0,
    ensures
        message_of(f, b).u_0 == sum_upto(
            |p: int| f[2 * p] * b[2 * p],
            (f.len() / 2) as int,
        ),
        message_of(f, b).u_2 == sum_upto(
            |p: int| (f[2 * p] + f[2 * p + 1]) * (b[2 * p] + b[2 * p + 1]),
            (f.len() / 2) as int,
        ),
        inner(f, b) == message_of(f, b).u_0 + sum_upto(
            |p: int| f[2 * p + 1] * b[2 * p + 1],
            (f.len() / 2) as int,
        ),
{
    let n = (f.len() / 2) as int;
    let e = |p: int| f[2 * p] * b[2 * p];
    let o = |p: int| f[2 * p + 1] * b[2 * p + 1];
    let s = |p: int| (f[2 * p] + f[2 * p + 1]) * (b[2 * p] + b[2 * p + 1]);
    crate::multilinear::lemma_sum_congruent(even_products(f, b), e, n);
    crate::multilinear::lemma_sum_congruent(sum_products(f, b), s, n);
    lemma_sum_pairs(inner_terms(f, b), e, o, n);
}

/// A prover that holds true claims holds true claims: where its total and the sum beside it are
/// the inner products of its plane with the two bases, the total after gluing is the inner
/// product with the basis after gluing. Gluing leaves the plane and the messages alone.
pub proof fn law_glue_keeps_the_total_true(state: SumcheckState, beta: F128)
    requires
        state.wf(),
        state.pending is Some,
        state.total == inner(state.f, state.basis),
        state.pending->Some_0.1 == inner(state.f, state.pending->Some_0.0),
    ensures
        state.glued(beta).total == inner(state.f, state.glued(beta).basis),
        state.glued(beta).f == state.f,
        state.glued(beta).messages == state.messages,
        state.glued(beta).pending is None,
{
    law_glue_combines_targets(state.f, state.basis, state.pending->Some_0.0, beta);
}

/// Folding a prover and putting a basis beside the one it holds: the total stays, the messages
/// grow by the one that was computed, and a basis beside another is the one that was given.
pub proof fn law_prover_steps(state: SumcheckState, r: F128, basis: Seq<F128>, sum: F128)
    requires
        state.f.len() == state.basis.len(),
        state.f.len() % 4 == 0,
        basis.len() == state.f.len(),
    ensures
        ({
            let next = state.folded(r);
            &&& 2 * next.f.len() == state.f.len()
            &&& 2 * next.basis.len() == state.f.len()
            &&& next.total == state.total
            &&& next.pending == state.pending
            &&& next.messages.len() == state.messages.len() + 1
            &&& state.messages.is_prefix_of(next.messages)
            &&& inner(next.f, next.basis) == next.messages.last().u_0 + sum_upto(
                |p: int| next.f[2 * p + 1] * next.basis[2 * p + 1],
                (next.f.len() / 2) as int,
            )
        }),
        ({
            let next = state.introduced(basis, sum);
            &&& next.f == state.f
            &&& next.basis == state.basis
            &&& next.total == state.total
            &&& next.pending == Some((basis, sum))
            &&& next.messages.len() == state.messages.len() + 1
            &&& state.messages.is_prefix_of(next.messages)
            &&& inner(state.f, basis) == next.messages.last().u_0 + sum_upto(
                |p: int| state.f[2 * p + 1] * basis[2 * p + 1],
                (state.f.len() / 2) as int,
            )
        }),
{
    let next = state.folded(r);
    law_message_parts(next.f, next.basis);
    law_message_parts(state.f, basis);
}

} // verus!
