//! Providers that fold on the host's own processor.
use crate::cpu_ab::{count, counted, shortened};
use crate::field::F128;
use crate::ligerito::{exact_log2, is_power, log2_of};
use crate::multilinear::fold;
use crate::resident_prefix::{refusal, InitialFoldBackend, PrefixCall};
use crate::rounds::fold_in_place;
use crate::started_prefix::StartedFoldBackend;
use crate::sumcheck::{compute_message, message_of, SumcheckMessage};
use crate::zerocheck::planes_reply;
use vstd::prelude::*;

verus! {

/// The message of two planes over the pairs that both of them have.
pub open spec fn common_message(a: Seq<F128>, b: Seq<F128>) -> SumcheckMessage {
    let n = if a.len() <= b.len() {
        a.len() as int
    } else {
        b.len() as int
    };
    message_of(a.take(n), b.take(n))
}

/// On planes of one length the message is the ordinary one.
pub proof fn law_common_message(a: Seq<F128>, b: Seq<F128>)
    requires
        a.len() == b.len(),
    ensures
        common_message(a, b) == message_of(a, b),
{
    assert(a.take(a.len() as int) =~= a);
    assert(b.take(b.len() as int) =~= b);
}

/// A fault that a started provider can be told to have.
#[derive(Clone, Copy, Debug, PartialEq, Eq, Structural)]
pub enum StartedFault {
    Absent,
    Admission,
    /// The second fold fails.
    Advance,
    Finish,
    ShortA,
    ShortB,
}

/// A number for each fault.
pub open spec fn fault_number(fault: StartedFault) -> int {
    match fault {
        StartedFault::Absent => 0,
        StartedFault::Admission => 1,
        StartedFault::Advance => 2,
        StartedFault::Finish => 3,
        StartedFault::ShortA => 4,
        StartedFault::ShortB => 5,
    }
}

/// What the log of a processor provider says of its planes and its counters.
pub struct PrefixState {
    pub a: Seq<F128>,
    pub b: Seq<F128>,
    pub advances: usize,
    pub finishes: usize,
}

impl PrefixState {
    /// After one more call.
    pub open spec fn step(self, call: PrefixCall) -> PrefixState {
        match call {
            PrefixCall::Begin { f, basis, .. } => PrefixState { a: f, b: basis, ..self },
            PrefixCall::Advance { rho, reply } => if reply is Ok {
                PrefixState {
                    a: fold(self.a, rho),
                    b: fold(self.b, rho),
                    advances: counted(self.advances),
                    ..self
                }
            } else {
                PrefixState { advances: counted(self.advances), ..self }
            },
            PrefixCall::Finish { planes } => if planes is Ok {
                PrefixState {
                    a: Seq::empty(),
                    b: Seq::empty(),
                    finishes: counted(self.finishes),
                    ..self
                }
            } else {
                PrefixState { finishes: counted(self.finishes), ..self }
            },
        }
    }

    /// A call is answered as a processor provider with this fault answers it.
    pub open spec fn fits(self, call: PrefixCall, fault: StartedFault) -> bool {
        match call {
            PrefixCall::Begin { refusal, .. } => refusal is None,
            PrefixCall::Advance { rho, reply } => if fault == StartedFault::Advance
                && self.advances == 1 {
                reply matches Err(e) && e@ == "advance"@
            } else {
                reply == Ok::<SumcheckMessage, String>(
                    common_message(fold(self.a, rho), fold(self.b, rho)),
                )
            },
            PrefixCall::Finish { planes } => if fault == StartedFault::Finish {
                planes matches Err(e) && e@ == "finish"@
            } else {
                planes == Ok::<(Seq<F128>, Seq<F128>), String>(
                    (
                        shortened(self.a, fault == StartedFault::ShortA),
                        shortened(self.b, fault == StartedFault::ShortB),
                    ),
                )
            },
        }
    }
}

/// The state after a whole log.
pub open spec fn prefix_state(log: Seq<PrefixCall>) -> PrefixState
    decreases log.len(),
{
    if log.len() == 0 {
        PrefixState { a: Seq::empty(), b: Seq::empty(), advances: 0, finishes: 0 }
    } else {
        prefix_state(log.drop_last()).step(log.last())
    }
}

/// Every call of a log is answered as a processor provider answers it.
pub open spec fn prefix_log_fits(log: Seq<PrefixCall>, fault: StartedFault) -> bool
    decreases log.len(),
{
    if log.len() == 0 {
        true
    } else {
        &&& prefix_log_fits(log.drop_last(), fault)
        &&& prefix_state(log.drop_last()).fits(log.last(), fault)
    }
}

/// One more call.
pub proof fn lemma_prefix_log_push(log: Seq<PrefixCall>, call: PrefixCall, fault: StartedFault)
    ensures
        prefix_state(log.push(call)) == prefix_state(log).step(call),
        prefix_log_fits(log.push(call), fault) == (prefix_log_fits(log, fault) && prefix_state(
            log,
        ).fits(call, fault)),
{
    assert(log.push(call).drop_last() =~= log);
}

/// Folds both planes at `r`, and returns the next message.
fn fold_both(a: &mut Vec<F128>, b: &mut Vec<F128>, r: F128) -> (message: SumcheckMessage)
    ensures
        final(a)@ == fold(old(a)@, r),
        final(b)@ == fold(old(b)@, r),
        message == common_message(final(a)@, final(b)@),
{
    fold_in_place(a, r);
    fold_in_place(b, r);
    let n = if a.len() <= b.len() {
        a.len()
    } else {
        b.len()
    };
    let short_a = vstd::slice::slice_subrange(a.as_slice(), 0, n);
    let short_b = vstd::slice::slice_subrange(b.as_slice(), 0, n);
    assert(short_a@ =~= a@.take(n as int));
    assert(short_b@ =~= b@.take(n as int));
    compute_message(short_a, short_b)
}

/// Folds planes that the host hands over.
pub struct CpuPrefix {
    pub a: Vec<F128>,
    pub b: Vec<F128>,
    /// The number of folds, as far as it can be counted.
    pub advances: usize,
    pub log: Ghost<Seq<PrefixCall>>,
}

impl CpuPrefix {
    /// A provider without planes.
    pub fn new() -> (prefix: CpuPrefix)
        ensures
            prefix.a@ == Seq::<F128>::empty(),
            prefix.b@ == Seq::<F128>::empty(),
            prefix.advances == 0,
            prefix.calls() == Seq::<PrefixCall>::empty(),
            prefix.consistent(),
    {
        CpuPrefix { a: Vec::new(), b: Vec::new(), advances: 0, log: Ghost(Seq::empty()) }
    }
}

impl InitialFoldBackend for CpuPrefix {
    open spec fn calls(&self) -> Seq<PrefixCall> {
        self.log@
    }

    open spec fn setup(&self) -> Seq<int> {
        Seq::empty()
    }

    /// The planes and the counter are what the log says, and so is every reply.
    open spec fn consistent(&self) -> bool {
        let state = prefix_state(self.log@);
        &&& self.a@ == state.a
        &&& self.b@ == state.b
        &&& self.advances == state.advances
        &&& prefix_log_fits(self.log@, StartedFault::Absent)
    }

    open spec fn admission(&self, rows: usize, rounds: usize) -> Option<Seq<char>> {
        if is_power(rows as nat) && 0 < rounds < log2_of(rows as nat) {
            None
        } else {
            Some("shape"@)
        }
    }

    fn admit_prefix(&self, rows: usize, rounds: usize) -> (res: Result<(), String>) {
        match exact_log2(rows) {
            Some(log_n) => {
                if rounds == 0 || rounds >= log_n {
                    Err("shape".to_string())
                } else {
                    Ok(())
                }
            },
            None => Err("shape".to_string()),
        }
    }

    fn begin(&mut self, f: Vec<F128>, basis: Vec<F128>) -> (res: Result<(), String>)
        ensures
            res is Ok,
            final(self).a == f,
            final(self).b == basis,
            final(self).advances == old(self).advances,
    {
        let ghost call = PrefixCall::Begin { f: f@, basis: basis@, refusal: None };
        proof {
            lemma_prefix_log_push(self.log@, call, StartedFault::Absent);
        }
        self.log = Ghost(self.log@.push(call));
        self.a = f;
        self.b = basis;
        Ok(())
    }

    fn advance(&mut self, rho: F128) -> (res: Result<SumcheckMessage, String>)
        ensures
            final(self).a@ == fold(old(self).a@, rho),
            final(self).b@ == fold(old(self).b@, rho),
            res == Ok::<SumcheckMessage, String>(common_message(final(self).a@, final(self).b@)),
            final(self).advances == counted(old(self).advances),
    {
        let message = fold_both(&mut self.a, &mut self.b, rho);
        self.advances = count(self.advances);
        let res: Result<SumcheckMessage, String> = Ok(message);
        proof {
            let call = PrefixCall::Advance { rho, reply: res };
            lemma_prefix_log_push(self.log@, call, StartedFault::Absent);
        }
        self.log = Ghost(self.log@.push(PrefixCall::Advance { rho, reply: res }));
        res
    }

    fn finish(&mut self) -> (res: Result<(Vec<F128>, Vec<F128>), String>)
        ensures
            res matches Ok(planes) && planes.0@ == old(self).a@ && planes.1@ == old(self).b@,
            final(self).a@ == Seq::<F128>::empty(),
            final(self).b@ == Seq::<F128>::empty(),
            final(self).advances == old(self).advances,
    {
        let mut a: Vec<F128> = Vec::new();
        let mut b: Vec<F128> = Vec::new();
        std::mem::swap(&mut a, &mut self.a);
        std::mem::swap(&mut b, &mut self.b);
        let res: Result<(Vec<F128>, Vec<F128>), String> = Ok((a, b));
        proof {
            let call = PrefixCall::Finish { planes: planes_reply(res) };
            lemma_prefix_log_push(self.log@, call, StartedFault::Absent);
        }
        self.log = Ghost(self.log@.push(PrefixCall::Finish { planes: planes_reply(res) }));
        res
    }
}

/// Folds planes that it holds from the start.
pub struct StartedCpu {
    pub a: Vec<F128>,
    pub b: Vec<F128>,
    /// The number of folds, as far as it can be counted.
    pub advances: usize,
    pub finishes: usize,
    pub fault: StartedFault,
    pub log: Ghost<Seq<PrefixCall>>,
}

impl StartedCpu {
    /// A provider that holds two planes. They stand first in its log.
    pub fn new(a: Vec<F128>, b: Vec<F128>, fault: StartedFault) -> (provider: StartedCpu)
        ensures
            provider.a == a,
            provider.b == b,
            provider.advances == 0,
            provider.finishes == 0,
            provider.fault == fault,
            provider.calls() == seq![PrefixCall::Begin { f: a@, basis: b@, refusal: None }],
            provider.consistent(),
    {
        let ghost given = PrefixCall::Begin { f: a@, basis: b@, refusal: None };
        let ghost log = Seq::<PrefixCall>::empty().push(given);
        proof {
            lemma_prefix_log_push(Seq::empty(), given, fault);
            assert(log =~= seq![given]);
        }
        StartedCpu { a, b, advances: 0, finishes: 0, fault, log: Ghost(log) }
    }
}

impl StartedFoldBackend for StartedCpu {
    open spec fn calls(&self) -> Seq<PrefixCall> {
        self.log@
    }

    open spec fn setup(&self) -> Seq<int> {
        seq![fault_number(self.fault)]
    }

    /// The planes and the counters are what the log says, and so is every reply.
    open spec fn consistent(&self) -> bool {
        let state = prefix_state(self.log@);
        &&& self.a@ == state.a
        &&& self.b@ == state.b
        &&& self.advances == state.advances
        &&& self.finishes == state.finishes
        &&& prefix_log_fits(self.log@, self.fault)
    }

    open spec fn admission(&self, rows: usize, rounds: usize) -> Option<Seq<char>> {
        if self.fault == StartedFault::Admission {
            Some("admission"@)
        } else if self.a@.len() != rows || self.b@.len() != rows || self.advances != 0
            || self.finishes != 0 || rounds == 0 {
            Some("state"@)
        } else {
            None
        }
    }

    fn admit_initialized(&self, rows: usize, rounds: usize) -> (res: Result<(), String>) {
        if self.fault == StartedFault::Admission {
            return Err("admission".to_string());
        }
        if self.a.len() != rows || self.b.len() != rows || self.advances != 0 || self.finishes != 0
            || rounds == 0 {
            return Err("state".to_string());
        }
        Ok(())
    }

    fn advance(&mut self, rho: F128) -> (res: Result<SumcheckMessage, String>)
        ensures
            final(self).advances == counted(old(self).advances),
            final(self).finishes == old(self).finishes,
            final(self).fault == old(self).fault,
            if old(self).fault == StartedFault::Advance && old(self).advances == 1 {
                &&& res matches Err(e) && e@ == "advance"@
                &&& final(self).a == old(self).a
                &&& final(self).b == old(self).b
            } else {
                &&& final(self).a@ == fold(old(self).a@, rho)
                &&& final(self).b@ == fold(old(self).b@, rho)
                &&& res == Ok::<SumcheckMessage, String>(
                    common_message(final(self).a@, final(self).b@),
                )
            },
    {
        self.advances = count(self.advances);
        let res: Result<SumcheckMessage, String> = if self.fault == StartedFault::Advance
            && self.advances == 2 {
            Err("advance".to_string())
        } else {
            Ok(fold_both(&mut self.a, &mut self.b, rho))
        };
        proof {
            lemma_prefix_log_push(self.log@, PrefixCall::Advance { rho, reply: res }, self.fault);
        }
        self.log = Ghost(self.log@.push(PrefixCall::Advance { rho, reply: res }));
        res
    }

    fn finish(&mut self) -> (res: Result<(Vec<F128>, Vec<F128>), String>)
        ensures
            final(self).advances == old(self).advances,
            final(self).fault == old(self).fault,
            if old(self).fault == StartedFault::Finish {
                &&& res matches Err(e) && e@ == "finish"@
                &&& final(self).a == old(self).a
                &&& final(self).b == old(self).b
            } else {
                &&& res matches Ok(planes) && planes.0@ == shortened(
                    old(self).a@,
                    old(self).fault == StartedFault::ShortA,
                ) && planes.1@ == shortened(
                    old(self).b@,
                    old(self).fault == StartedFault::ShortB,
                )
                &&& final(self).a@ == Seq::<F128>::empty()
                &&& final(self).b@ == Seq::<F128>::empty()
            },
            final(self).finishes == counted(old(self).finishes),
    {
        self.finishes = count(self.finishes);
        let res: Result<(Vec<F128>, Vec<F128>), String> = if self.fault == StartedFault::Finish {
            Err("finish".to_string())
        } else {
            let mut a: Vec<F128> = Vec::new();
            let mut b: Vec<F128> = Vec::new();
            std::mem::swap(&mut a, &mut self.a);
            std::mem::swap(&mut b, &mut self.b);
            if self.fault == StartedFault::ShortA {
                let _ = a.pop();
            }
            if self.fault == StartedFault::ShortB {
                let _ = b.pop();
            }
            Ok((a, b))
        };
        proof {
            let call = PrefixCall::Finish { planes: planes_reply(res) };
            lemma_prefix_log_push(self.log@, call, self.fault);
        }
        self.log = Ghost(self.log@.push(PrefixCall::Finish { planes: planes_reply(res) }));
        res
    }
}

/// Of planes that are not of one length, the message is that of the part they share: what one
/// of them has beyond the other does not count.
pub proof fn law_message_ends_with_the_shorter(a: Seq<F128>, b: Seq<F128>, more: Seq<F128>)
    requires
        a.len() == b.len(),
    ensures
        common_message(a + more, b) == message_of(a, b),
        common_message(a, b + more) == message_of(a, b),
{
    let n = a.len() as int;
    assert(a.take(n) =~= a && b.take(n) =~= b);
    assert((a + more).take(n) =~= a && (b + more).take(n) =~= b);
}

/// A processor provider answers its log: a fold at `rho` leaves the two planes folded and
/// answers their message, a plane that is handed over short lacks its last entry and nothing
/// else, and a faultless one hands over what it holds.
pub proof fn law_processor_answers(
    log: Seq<PrefixCall>,
    fault: StartedFault,
    rho: F128,
    reply: Result<SumcheckMessage, String>,
    planes: Result<(Seq<F128>, Seq<F128>), String>,
)
    ensures
        ({
            let held = prefix_state(log);
            let next = log.push(PrefixCall::Advance { rho, reply });
            prefix_log_fits(next, fault) && (fault != StartedFault::Advance || held.advances != 1)
                && held.a.len() == held.b.len() ==> {
                &&& reply == Ok::<SumcheckMessage, String>(
                    message_of(fold(held.a, rho), fold(held.b, rho)),
                )
                &&& prefix_state(next).a == fold(held.a, rho)
                &&& prefix_state(next).b == fold(held.b, rho)
            }
        }),
        ({
            let held = prefix_state(log);
            let next = log.push(PrefixCall::Advance { rho, reply });
            prefix_log_fits(next, fault) && fault == StartedFault::Advance && held.advances == 1
                ==> {
                &&& reply is Err
                &&& prefix_state(next).a == held.a
                &&& prefix_state(next).b == held.b
            }
        }),
        ({
            let held = prefix_state(log);
            let next = log.push(PrefixCall::Finish { planes });
            prefix_log_fits(next, fault) ==> {
                &&& planes is Err <==> fault == StartedFault::Finish
                &&& planes matches Ok((a, b)) ==> {
                    &&& a.is_prefix_of(held.a)
                    &&& b.is_prefix_of(held.b)
                    &&& held.a.len() - a.len() == (if fault == StartedFault::ShortA
                        && held.a.len() > 0 {
                        1int
                    } else {
                        0
                    })
                    &&& held.b.len() - b.len() == (if fault == StartedFault::ShortB
                        && held.b.len() > 0 {
                        1int
                    } else {
                        0
                    })
                }
            }
        }),
{
    let held = prefix_state(log);
    lemma_prefix_log_push(log, PrefixCall::Advance { rho, reply }, fault);
    lemma_prefix_log_push(log, PrefixCall::Finish { planes }, fault);
    if held.a.len() == held.b.len() {
        law_common_message(fold(held.a, rho), fold(held.b, rho));
    }
}

} // verus!
