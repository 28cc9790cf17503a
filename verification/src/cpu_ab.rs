//! An AB provider that computes on the host's own processor.
use crate::field::F128;
use crate::ligerito::{exact_log2, law_log2_of_power};
use crate::multilinear::{fold, power_of_two, round_message};
use crate::padding::{PaddingSpec, K_SKIP};
use crate::rounds::{fold_in_place_pair, planes_match, round_pair_naive};
use crate::univariate::{
    folded_plane, uni_skip_fold_and_round_pair_optimized_packed_padded, UniSkipFoldTable,
};
use crate::zerocheck::{message_reply, planes_reply, AbBackend, AbCall};
use vstd::arithmetic::power2::pow2;
use vstd::prelude::*;

verus! {

/// A fault that the provider can be told to have.
#[derive(Clone, Copy, Debug, PartialEq, Eq, Structural)]
pub enum Fault {
    Absent,
    Produce,
    Advance,
    Finish,
    ShortA,
    ShortB,
}

/// Folds the two planes with the in-place fold and the direct message, apart from
/// the fused kernels of the host.
pub struct CpuBackend {
    pub rows: usize,
    pub a: Vec<F128>,
    pub b: Vec<F128>,
    /// How often each of the three operations was asked for, as far as it can be
    /// counted.
    pub counts: [usize; 3],
    pub fault: Fault,
    pub log: Ghost<Seq<AbCall>>,
}

/// One more, unless that cannot be counted.
pub open spec fn counted(n: usize) -> usize {
    if n < usize::MAX {
        (n + 1) as usize
    } else {
        n
    }
}

/// Counts one more.
pub(crate) fn count(n: usize) -> (next: usize)
    ensures
        next == counted(n),
{
    if n < usize::MAX {
        n + 1
    } else {
        n
    }
}

/// A number for each fault.
pub open spec fn fault_number(fault: Fault) -> int {
    match fault {
        Fault::Absent => 0,
        Fault::Produce => 1,
        Fault::Advance => 2,
        Fault::Finish => 3,
        Fault::ShortA => 4,
        Fault::ShortB => 5,
    }
}

/// What the log of the provider says of its planes and its counters.
pub struct AbState {
    pub a: Seq<F128>,
    pub b: Seq<F128>,
    pub produced: usize,
    pub advanced: usize,
    pub finished: usize,
}

impl AbState {
    /// After one more call to a provider with this fault.
    pub open spec fn step(self, call: AbCall, fault: Fault) -> AbState {
        match call {
            AbCall::Produce { a, b, table, padding, .. } => {
                let counted_state = AbState { produced: counted(self.produced), ..self };
                if fault == Fault::Produce {
                    counted_state
                } else {
                    AbState {
                        a: folded_plane(table.data@, a, padding),
                        b: folded_plane(table.data@, b, padding),
                        ..counted_state
                    }
                }
            },
            AbCall::Advance { rho, .. } => {
                let counted_state = AbState { advanced: counted(self.advanced), ..self };
                if fault == Fault::Advance {
                    counted_state
                } else {
                    AbState { a: fold(self.a, rho), b: fold(self.b, rho), ..counted_state }
                }
            },
            AbCall::Finish { .. } => {
                let counted_state = AbState { finished: counted(self.finished), ..self };
                if fault == Fault::Finish {
                    counted_state
                } else {
                    AbState { a: Seq::empty(), b: Seq::empty(), ..counted_state }
                }
            },
        }
    }

    /// A call is answered as the provider with this fault answers it.
    pub open spec fn fits(self, call: AbCall, fault: Fault) -> bool {
        let next = self.step(call, fault);
        match call {
            AbCall::Produce { r, reply, .. } => if fault == Fault::Produce {
                reply matches Err(e) && e@ == "injected produce"@
            } else {
                reply == Ok::<(F128, F128), String>(round_message(next.a, next.b, r))
            },
            AbCall::Advance { r, reply, .. } => if fault == Fault::Advance {
                reply matches Err(e) && e@ == "injected advance"@
            } else if planes_match(next.a, next.b, r) {
                reply == Ok::<(F128, F128), String>(round_message(next.a, next.b, r))
            } else {
                reply matches Err(e) && e@ == "plane geometry"@
            },
            AbCall::Finish { planes } => if fault == Fault::Finish {
                planes matches Err(e) && e@ == "injected finish"@
            } else {
                planes == Ok::<(Seq<F128>, Seq<F128>), String>(
                    (
                        shortened(self.a, fault == Fault::ShortA),
                        shortened(self.b, fault == Fault::ShortB),
                    ),
                )
            },
        }
    }
}

/// The state after a whole log.
pub open spec fn ab_state(log: Seq<AbCall>, fault: Fault) -> AbState
    decreases log.len(),
{
    if log.len() == 0 {
        AbState { a: Seq::empty(), b: Seq::empty(), produced: 0, advanced: 0, finished: 0 }
    } else {
        ab_state(log.drop_last(), fault).step(log.last(), fault)
    }
}

/// Every call of a log is answered as the provider answers it.
pub open spec fn ab_log_fits(log: Seq<AbCall>, fault: Fault) -> bool
    decreases log.len(),
{
    if log.len() == 0 {
        true
    } else {
        &&& ab_log_fits(log.drop_last(), fault)
        &&& ab_state(log.drop_last(), fault).fits(log.last(), fault)
    }
}

/// One more call.
pub proof fn lemma_ab_log_push(log: Seq<AbCall>, call: AbCall, fault: Fault)
    ensures
        ab_state(log.push(call), fault) == ab_state(log, fault).step(call, fault),
        ab_log_fits(log.push(call), fault) == (ab_log_fits(log, fault) && ab_state(
            log,
            fault,
        ).fits(call, fault)),
{
    assert(log.push(call).drop_last() =~= log);
}

impl CpuBackend {
    /// A provider for inputs of `2^m` bits.
    pub fn new(m: usize, fault: Fault) -> (backend: CpuBackend)
        requires
            m >= K_SKIP,
            pow2((m - K_SKIP) as nat) <= usize::MAX,
        ensures
            backend.rows == pow2((m - K_SKIP) as nat),
            backend.a@ == Seq::<F128>::empty(),
            backend.b@ == Seq::<F128>::empty(),
            backend.counts@ == seq![0usize, 0, 0],
            backend.fault == fault,
            backend.calls() == Seq::<AbCall>::empty(),
            backend.consistent(),
    {
        let counts: [usize; 3] = [0, 0, 0];
        assert(counts@ =~= seq![0usize, 0, 0]);
        CpuBackend {
            rows: power_of_two(m - K_SKIP),
            a: Vec::new(),
            b: Vec::new(),
            counts,
            fault,
            log: Ghost(Seq::empty()),
        }
    }

    /// Everything but the planes, the counts and the log stays as it was.
    pub open spec fn same_setup(self, other: CpuBackend) -> bool {
        self.rows == other.rows && self.fault == other.fault
    }
}

/// A plane without its last entry.
pub open spec fn shortened(plane: Seq<F128>, short: bool) -> Seq<F128> {
    if short && plane.len() > 0 {
        plane.drop_last()
    } else {
        plane
    }
}

impl AbBackend for CpuBackend {
    open spec fn calls(&self) -> Seq<AbCall> {
        self.log@
    }

    open spec fn setup(&self) -> Seq<int> {
        seq![self.rows as int, fault_number(self.fault)]
    }

    /// The planes and the counters are what the log says, and so is every reply.
    open spec fn consistent(&self) -> bool {
        let state = ab_state(self.log@, self.fault);
        &&& self.a@ == state.a
        &&& self.b@ == state.b
        &&& self.counts@[0] == state.produced
        &&& self.counts@[1] == state.advanced
        &&& self.counts@[2] == state.finished
        &&& ab_log_fits(self.log@, self.fault)
    }

    open spec fn row_count(&self) -> usize {
        self.rows
    }

    fn rows(&self) -> (n: usize) {
        self.rows
    }

    fn produce(
        &mut self,
        a: &[u8],
        b: &[u8],
        m: usize,
        k: usize,
        table: &UniSkipFoldTable,
        r: &[F128],
        padding: &PaddingSpec,
    ) -> (res: Result<[F128; 2], String>)
        ensures
            final(self).same_setup(*old(self)),
            final(self).counts@ == old(self).counts@.update(0, counted(old(self).counts@[0])),
            if old(self).fault == Fault::Produce {
                &&& res matches Err(e) && e@ == "injected produce"@
                &&& final(self).a@ == old(self).a@
                &&& final(self).b@ == old(self).b@
            } else {
                &&& final(self).a@ == folded_plane(table.data@, a@, *padding)
                &&& final(self).b@ == folded_plane(table.data@, b@, *padding)
                &&& message_reply(res) == Ok::<(F128, F128), String>(
                    round_message(final(self).a@, final(self).b@, r@),
                )
            },
    {
        self.counts[0] = count(self.counts[0]);
        let res: Result<[F128; 2], String> = if self.fault == Fault::Produce {
            Err("injected produce".to_string())
        } else {
            let (pa, pb, one, inf) = uni_skip_fold_and_round_pair_optimized_packed_padded(
                a,
                b,
                m,
                k,
                table,
                r,
                padding,
            );
            self.a = pa;
            self.b = pb;
            Ok([one, inf])
        };
        let ghost call = AbCall::Produce {
            a: a@,
            b: b@,
            m,
            k,
            table: *table,
            r: r@,
            padding: *padding,
            reply: message_reply(res),
        };
        proof {
            lemma_ab_log_push(self.log@, call, self.fault);
        }
        self.log = Ghost(self.log@.push(call));
        res
    }

    /// A point that does not fit the folded planes is an error.
    fn advance(&mut self, rho: F128, r: &[F128]) -> (res: Result<[F128; 2], String>)
        ensures
            final(self).same_setup(*old(self)),
            final(self).counts@ == old(self).counts@.update(1, counted(old(self).counts@[1])),
            if old(self).fault == Fault::Advance {
                &&& res matches Err(e) && e@ == "injected advance"@
                &&& final(self).a@ == old(self).a@
                &&& final(self).b@ == old(self).b@
            } else {
                &&& final(self).a@ == fold(old(self).a@, rho)
                &&& final(self).b@ == fold(old(self).b@, rho)
                &&& if planes_match(final(self).a@, final(self).b@, r@) {
                    message_reply(res) == Ok::<(F128, F128), String>(
                        round_message(final(self).a@, final(self).b@, r@),
                    )
                } else {
                    res matches Err(e) && e@ == "plane geometry"@
                }
            },
    {
        self.counts[1] = count(self.counts[1]);
        let res: Result<[F128; 2], String> = if self.fault == Fault::Advance {
            Err("injected advance".to_string())
        } else {
            fold_in_place_pair(&mut self.a, &mut self.b, rho);
            let fits = match exact_log2(self.a.len()) {
                Some(n) => n == r.len() && n >= 1 && self.b.len() == self.a.len(),
                None => false,
            };
            proof {
                law_log2_of_power(r@.len());
            }
            if fits {
                let (one, inf) = round_pair_naive(self.a.as_slice(), self.b.as_slice(), r);
                Ok([one, inf])
            } else {
                Err("plane geometry".to_string())
            }
        };
        let ghost call = AbCall::Advance { rho, r: r@, reply: message_reply(res) };
        proof {
            lemma_ab_log_push(self.log@, call, self.fault);
        }
        self.log = Ghost(self.log@.push(call));
        res
    }

    fn finish(&mut self) -> (res: Result<(Vec<F128>, Vec<F128>), String>)
        ensures
            final(self).same_setup(*old(self)),
            final(self).counts@ == old(self).counts@.update(2, counted(old(self).counts@[2])),
            if old(self).fault == Fault::Finish {
                &&& res matches Err(e) && e@ == "injected finish"@
                &&& final(self).a@ == old(self).a@
                &&& final(self).b@ == old(self).b@
            } else {
                &&& res matches Ok(planes) && planes.0@ == shortened(
                    old(self).a@,
                    old(self).fault == Fault::ShortA,
                ) && planes.1@ == shortened(old(self).b@, old(self).fault == Fault::ShortB)
                &&& final(self).a@ == Seq::<F128>::empty()
                &&& final(self).b@ == Seq::<F128>::empty()
            },
    {
        self.counts[2] = count(self.counts[2]);
        let res: Result<(Vec<F128>, Vec<F128>), String> = if self.fault == Fault::Finish {
            Err("injected finish".to_string())
        } else {
            let mut a: Vec<F128> = Vec::new();
            let mut b: Vec<F128> = Vec::new();
            std::mem::swap(&mut a, &mut self.a);
            std::mem::swap(&mut b, &mut self.b);
            if self.fault == Fault::ShortA {
                let _ = a.pop();
            }
            if self.fault == Fault::ShortB {
                let _ = b.pop();
            }
            Ok((a, b))
        };
        let ghost call = AbCall::Finish { planes: planes_reply(res) };
        proof {
            lemma_ab_log_push(self.log@, call, self.fault);
        }
        self.log = Ghost(self.log@.push(call));
        res
    }
}

/// The processor answers its log. A faultless one folds the rows of both planes and answers
/// their message, folds what it holds at every challenge and answers the message of that, and
/// hands over what it holds; a short plane lacks its last entry and nothing else; and a call
/// that was told to fail leaves the planes alone.
pub proof fn law_processor_ab_answers(log: Seq<AbCall>, call: AbCall, fault: Fault)
    requires
        ab_log_fits(log.push(call), fault),
    ensures
        ({
            let held = ab_state(log, fault);
            let next = ab_state(log.push(call), fault);
            match call {
                AbCall::Produce { a, b, table, r, padding, reply, .. } => {
                    &&& reply is Err <==> fault == Fault::Produce
                    &&& reply is Err ==> next.a == held.a && next.b == held.b
                    &&& reply matches Ok(message) ==> {
                        &&& next.a == folded_plane(table.data@, a, padding)
                        &&& next.b == folded_plane(table.data@, b, padding)
                        &&& message == round_message(next.a, next.b, r)
                    }
                },
                AbCall::Advance { rho, r, reply } => {
                    &&& fault == Fault::Advance ==> reply is Err && next.a == held.a && next.b
                        == held.b
                    &&& fault != Fault::Advance ==> next.a == fold(held.a, rho) && next.b == fold(
                        held.b,
                        rho,
                    )
                    &&& fault != Fault::Advance ==> (reply is Ok <==> r.len() >= 1 && next.a.len()
                        == pow2(r.len()) && next.b.len() == next.a.len())
                    &&& reply matches Ok(message) ==> message == round_message(next.a, next.b, r)
                },
                AbCall::Finish { planes } => {
                    &&& planes is Err <==> fault == Fault::Finish
                    &&& planes is Err ==> next.a == held.a && next.b == held.b
                    &&& planes matches Ok((a, b)) ==> {
                        &&& next.a.len() == 0 && next.b.len() == 0
                        &&& a.is_prefix_of(held.a)
                        &&& b.is_prefix_of(held.b)
                        &&& held.a.len() - a.len() == (if fault == Fault::ShortA && held.a.len()
                            > 0 {
                            1int
                        } else {
                            0
                        })
                        &&& held.b.len() - b.len() == (if fault == Fault::ShortB && held.b.len()
                            > 0 {
                            1int
                        } else {
                            0
                        })
                    }
                },
            }
        }),
        ({
            let held = ab_state(log, fault);
            let next = ab_state(log.push(call), fault);
            let one = |yes: bool|
                if yes {
                    1int
                } else {
                    0
                };
            &&& held.produced < usize::MAX ==> next.produced == held.produced + one(call is Produce)
            &&& held.advanced < usize::MAX ==> next.advanced == held.advanced + one(call is Advance)
            &&& held.finished < usize::MAX ==> next.finished == held.finished + one(call is Finish)
        }),
{
    lemma_ab_log_push(log, call, fault);
}

} // verus!
