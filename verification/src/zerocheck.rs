//! Zerocheck with an external arithmetic provider for the first rounds.
//!
//! The host owns every transcript operation. The provider folds the two planes
//! while they are large and hands them over at the tail boundary, where the host
//! goes on by itself.
use crate::field::F128;
use crate::multilinear::{fold, round_message};
use crate::padding::{PaddingSpec, K_SKIP};
use crate::transcript::Event;
use crate::univariate::{fold_shape, UniSkipFoldTable};
use vstd::prelude::*;

verus! {

/// The number of dimensions whose equality challenges are fixed by the protocol.
pub const N_INNER: usize = 7;

/// The number of values in a first-round message: one for each assignment of the
/// skipped variables.
pub const ROUND1_LEN: usize = 64;

/// The logarithm of the plane length at which the host takes over.
pub const TAIL_LOG: usize = 12;

/// The plane length at which the host takes over.
pub const TAIL_LEN: usize = 4096;

/// How the first round accumulates its sums.
#[derive(Clone, Copy, Debug, PartialEq, Eq, Structural)]
pub enum Round1Mode {
    Reduced,
    Deferred,
}

/// Choices of the prover that do not show in the proof.
#[derive(Clone, Copy, Debug, PartialEq, Eq, Structural)]
pub struct ProverOptions {
    pub round1: Round1Mode,
    pub fused_tail: bool,
}

impl Default for ProverOptions {
    fn default() -> (options: ProverOptions)
        ensures
            options.round1 == Round1Mode::Reduced,
            !options.fused_tail,
    {
        ProverOptions { round1: Round1Mode::Reduced, fused_tail: false }
    }
}

/// The prover's messages.
#[derive(Clone, Debug, PartialEq, Eq)]
pub struct ZerocheckProof {
    pub round1_ab: Vec<F128>,
    pub round1_c: Vec<F128>,
    pub multilinear_rounds: Vec<(F128, F128)>,
    pub final_a_eval: F128,
    pub final_b_eval: F128,
    pub final_c_eval: F128,
}

/// The evaluation claims that the proof reduces to.
#[derive(Clone, Debug, PartialEq, Eq)]
pub struct ZerocheckClaim {
    pub z: F128,
    pub mlv_challenges: Vec<F128>,
    pub r_rest: Vec<F128>,
    pub a_eval: F128,
    pub b_eval: F128,
    pub c_eval: F128,
}

/// Field constants that the protocol fixes: the equality challenges of the inner
/// dimensions, and the scalar that the first-round kernel leaves out.
#[derive(Clone, Copy, Debug)]
pub struct ProtocolConstants {
    pub small: [F128; 3],
    pub medium: [F128; 4],
    pub c_s: F128,
}

/// What the first-round kernel returns.
pub struct Round1Output {
    pub ab: Vec<F128>,
    pub c: Vec<F128>,
    pub s_hat_v: Vec<F128>,
}

/// The kernels of the univariate skip: the first-round sums, the interpolation of
/// a first-round vector at a point, and the fold tables for a point.
pub struct SkipKernels<R, I, T> {
    pub constants: ProtocolConstants,
    pub round1: R,
    pub interpolate: I,
    pub fold_table: T,
}

/// One call of a provider, with its reply.
pub enum AbCall {
    Produce {
        a: Seq<u8>,
        b: Seq<u8>,
        m: usize,
        k: usize,
        table: UniSkipFoldTable,
        r: Seq<F128>,
        padding: PaddingSpec,
        reply: Result<(F128, F128), String>,
    },
    Advance { rho: F128, r: Seq<F128>, reply: Result<(F128, F128), String> },
    Finish { planes: Result<(Seq<F128>, Seq<F128>), String> },
}

/// A message reply by value.
pub open spec fn message_reply(res: Result<[F128; 2], String>) -> Result<(F128, F128), String> {
    match res {
        Ok(pair) => Ok((pair@[0], pair@[1])),
        Err(e) => Err(e),
    }
}

/// A plane reply by value.
pub open spec fn planes_reply(res: Result<(Vec<F128>, Vec<F128>), String>) -> Result<
    (Seq<F128>, Seq<F128>),
    String,
> {
    match res {
        Ok(planes) => Ok((planes.0@, planes.1@)),
        Err(e) => Err(e),
    }
}

/// Trusted arithmetic provider for the resident AB prefix of zerocheck.
///
/// The host owns all transcript operations and supplies the actual sampled fold
/// challenges. Implementations must compute the same field messages as the CPU
/// prover; this interface does not verify arbitrary backend arithmetic. After any
/// error the proof attempt must be abandoned, not replayed on the same challenger.
pub trait AbBackend {
    /// Every call that may change this provider, in order, with its reply.
    closed spec fn calls(&self) -> Seq<AbCall> {
        arbitrary()
    }

    /// Numbers for what this provider was made with. No call changes them.
    closed spec fn setup(&self) -> Seq<int> {
        arbitrary()
    }

    /// What this provider keeps true of itself and its log from call to call.
    closed spec fn consistent(&self) -> bool {
        arbitrary()
    }

    /// The number of rows that `rows` reports.
    closed spec fn row_count(&self) -> usize {
        arbitrary()
    }

    /// The number of rows after the univariate fold, before any `advance`.
    fn rows(&self) -> (n: usize)
        ensures
            n == self.row_count(),
    ;

    /// Compute and retain both full folded planes, returning the first bare
    /// `(G(1), G(infinity))` message with the supplied equality factors. Packed
    /// padding bits must already be zero according to `padding`. Called once, after
    /// the first-round messages and the univariate challenge are bound: an error
    /// therefore does not imply an untouched transcript.
    fn produce(
        &mut self,
        a: &[u8],
        b: &[u8],
        m: usize,
        k: usize,
        table: &UniSkipFoldTable,
        r: &[F128],
        padding: &PaddingSpec,
    ) -> (res: Result<[F128; 2], String>)
        requires
            fold_shape(a@, b@, m, k, *table, r@, *padding),
        ensures
            final(self).setup() == old(self).setup(),
            old(self).consistent() ==> final(self).consistent(),
            final(self).calls() == old(self).calls().push(
                AbCall::Produce {
                    a: a@,
                    b: b@,
                    m,
                    k,
                    table: *table,
                    r: r@,
                    padding: *padding,
                    reply: message_reply(res),
                },
            ),
    ;

    /// Fold the current planes exactly once at host challenge `rho`, halve their
    /// length, and return the next message using `r` (whose first factor is one).
    /// No challenge may be sampled internally.
    fn advance(&mut self, rho: F128, r: &[F128]) -> (res: Result<[F128; 2], String>)
        ensures
            final(self).setup() == old(self).setup(),
            old(self).consistent() ==> final(self).consistent(),
            final(self).calls() == old(self).calls().push(
                AbCall::Advance { rho, r: r@, reply: message_reply(res) },
            ),
    ;

    /// Export the already-folded current A/B planes, without folding again. Called
    /// once at the tail boundary; malformed lengths are rejected by the host before
    /// it goes on.
    fn finish(&mut self) -> (res: Result<(Vec<F128>, Vec<F128>), String>)
        ensures
            final(self).setup() == old(self).setup(),
            old(self).consistent() ==> final(self).consistent(),
            final(self).calls() == old(self).calls().push(
                AbCall::Finish { planes: planes_reply(res) },
            ),
    ;
}

// The protocol, as a function of what the transcript, the kernels and the
// provider gave out.

/// Every entry multiplied by `scalar`.
pub open spec fn scaled(scalar: F128, v: Seq<F128>) -> Seq<F128> {
    Seq::new(v.len(), |i: int| scalar * v[i])
}

/// The point handed to round `i`: a bare first factor, then the equality
/// challenges of the variables that are left.
pub open spec fn round_point(r: Seq<F128>, i: int) -> Seq<F128> {
    seq![F128::one()] + r.skip(K_SKIP + 1 + i)
}

/// The transcript of the first `j` multilinear rounds.
pub open spec fn round_events(
    messages: Seq<(F128, F128)>,
    rhos: Seq<F128>,
    j: int,
) -> Seq<Event>
    decreases j,
{
    if j <= 0 {
        Seq::empty()
    } else {
        round_events(messages, rhos, j - 1).push(Event::Observe(messages[j - 1].0)).push(
            Event::Observe(messages[j - 1].1),
        ).push(Event::Sample(rhos[j - 1]))
    }
}

/// The first `j` folding calls of the provider, all answered.
pub open spec fn advance_calls(
    r: Seq<F128>,
    messages: Seq<(F128, F128)>,
    rhos: Seq<F128>,
    j: int,
) -> Seq<AbCall>
    decreases j,
{
    if j <= 0 {
        Seq::empty()
    } else {
        advance_calls(r, messages, rhos, j - 1).push(
            AbCall::Advance { rho: rhos[j - 1], r: round_point(r, j), reply: Ok(messages[j]) },
        )
    }
}

/// A tail plane folded at challenges `from..to`.
pub open spec fn tail_plane(plane: Seq<F128>, rhos: Seq<F128>, from: int, to: int) -> Seq<F128>
    decreases to - from,
{
    if to <= from {
        plane
    } else {
        fold(tail_plane(plane, rhos, from, to - 1), rhos[to - 1])
    }
}

/// Everything that came from outside in one run of the prover.
pub struct AbRun {
    /// Sampled challenges of the skipped variables.
    pub r_skip: Seq<F128>,
    /// Sampled challenges of the outer variables.
    pub r_outer: Seq<F128>,
    /// First-round sums, as the kernel returned them.
    pub round1: Round1Output,
    /// The univariate challenge.
    pub z: F128,
    /// The first-round C vector interpolated at `z`.
    pub c_eval: F128,
    /// The fold tables for `z`.
    pub table: UniSkipFoldTable,
    /// The round messages.
    pub messages: Seq<(F128, F128)>,
    /// The fold challenges.
    pub rhos: Seq<F128>,
    /// The planes at the tail boundary.
    pub a_tail: Seq<F128>,
    pub b_tail: Seq<F128>,
}

impl AbRun {
    /// The full equality point: sampled, fixed, sampled.
    pub open spec fn point(self, constants: ProtocolConstants) -> Seq<F128> {
        self.r_skip + constants.small@ + constants.medium@ + self.r_outer
    }

    /// The transcript up to the univariate challenge.
    pub open spec fn head_events(self, constants: ProtocolConstants) -> Seq<Event> {
        seq![
            Event::Label("flock-zerocheck-v0"@),
            Event::SampleVec(self.r_skip),
            Event::SampleVec(self.r_outer),
            Event::ObserveSlice(scaled(constants.c_s, self.round1.ab@)),
            Event::ObserveSlice(scaled(constants.c_s, self.round1.c@)),
            Event::Sample(self.z),
        ]
    }

    /// The transcript up to and including the first `j` multilinear rounds.
    pub open spec fn events(self, constants: ProtocolConstants, j: int) -> Seq<Event> {
        self.head_events(constants) + round_events(self.messages, self.rhos, j)
    }

    /// The opening call of the provider.
    pub open spec fn produce_call(
        self,
        constants: ProtocolConstants,
        a: Seq<u8>,
        b: Seq<u8>,
        m: usize,
        padding: PaddingSpec,
        reply: Result<(F128, F128), String>,
    ) -> AbCall {
        AbCall::Produce {
            a,
            b,
            m,
            k: K_SKIP,
            table: self.table,
            r: round_point(self.point(constants), 0),
            padding,
            reply,
        }
    }

    /// The opening call and the first `j` folding calls, all answered.
    pub open spec fn answered_calls(
        self,
        constants: ProtocolConstants,
        a: Seq<u8>,
        b: Seq<u8>,
        m: usize,
        padding: PaddingSpec,
        j: int,
    ) -> Seq<AbCall> {
        seq![self.produce_call(constants, a, b, m, padding, Ok(self.messages[0]))] + advance_calls(
            self.point(constants),
            self.messages,
            self.rhos,
            j,
        )
    }

    /// Messages after the tail boundary are those of the tail planes.
    pub open spec fn tail_messages_hold(self, constants: ProtocolConstants, m: usize) -> bool {
        forall|i: int|
            resident_rounds(m) < i < m - K_SKIP ==> #[trigger] self.messages[i] == round_message(
                tail_plane(self.a_tail, self.rhos, resident_rounds(m), i),
                tail_plane(self.b_tail, self.rhos, resident_rounds(m), i),
                round_point(self.point(constants), i),
            )
    }
}

/// How many rounds the provider folds.
pub open spec fn resident_rounds(m: usize) -> int {
    m - K_SKIP - TAIL_LOG
}

} // verus!
