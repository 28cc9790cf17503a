//! Where the transcript of an opening stands when its provider brings it down.
use crate::field::F128;
use crate::host::first_oracle;
use crate::ligerito::{
    entry, log2_of, Digest, FoldStep, LastRun, LigeritoProof, LigeroWitness, PcsKernels, PhaseRun,
    ProverConfig, Session,
};
use crate::replay::fold_place;
use crate::resident_prefix::{
    after_provided, begun_outcome, first_message, fold_calls, prefix_outcome, prefix_proved,
    prefix_start, prefix_stopped, PrefixCall, ProviderStep,
};
use crate::sumcheck::SumcheckMessage;
use crate::transcript::Event;
use vstd::arithmetic::power2::pow2;
use vstd::prelude::*;

verus! {

/// The statement and the first message in a transcript, from event `at` on.
pub open spec fn statement_told(
    history: Seq<Event>,
    at: int,
    target: F128,
    root: Digest,
    first: SumcheckMessage,
) -> bool {
    &&& history[at] == Event::Label("flock-ligerito-basis-v0"@)
    &&& history[at + 1] == Event::Observe(target)
    &&& history[at + 2] == Event::Bytes(root@)
    &&& history[at + 3] == Event::Observe(first.u_0)
    &&& history[at + 4] == Event::Observe(first.u_2)
}

/// The draw of fold `j` in a transcript whose folds start at event `at`: the work that is left
/// of `bits`, if any, and the challenge.
pub open spec fn draw_told(
    history: Seq<Event>,
    at: int,
    bits: int,
    j: int,
    rho: F128,
) -> bool {
    let place = at + fold_place(bits, j);
    if j < bits {
        &&& history[place] matches Event::Grind(work, _) && work == bits - j
        &&& history[place + 1] == Event::Sample(rho)
    } else {
        history[place] == Event::Sample(rho)
    }
}

/// Fold `j` in a transcript: its draw, and the answer of the provider.
pub open spec fn fold_told(
    history: Seq<Event>,
    at: int,
    bits: int,
    j: int,
    rho: F128,
    message: SumcheckMessage,
) -> bool {
    let sent = at + fold_place(bits, j) + (if j < bits {
        2int
    } else {
        1
    });
    &&& draw_told(history, at, bits, j, rho)
    &&& history[sent] == Event::Observe(message.u_0)
    &&& history[sent + 1] == Event::Observe(message.u_2)
}

proof fn lemma_folds_told(
    s: Session,
    bits: u32,
    steps: Seq<ProviderStep>,
    j: int,
)
    ensures
        ({
            let events = after_provided(s, bits, steps).events;
            let at = s.events.len() as int;
            &&& events.len() == at + fold_place(bits as int, steps.len() as int)
            &&& events.take(at) == s.events
            &&& 0 <= j < steps.len() ==> fold_told(
                events,
                at,
                bits as int,
                j,
                steps[j].r,
                steps[j].message,
            )
        }),
    decreases steps.len(),
{
    let at = s.events.len() as int;
    if steps.len() == 0 {
        assert(s.events.take(at) =~= s.events);
    } else {
        let fewer = steps.drop_last();
        let n = fewer.len() as int;
        lemma_folds_told(s, bits, fewer, j);
        let before = after_provided(s, bits, fewer).events;
        let after = after_provided(s, bits, steps).events;
        assert(after.take(before.len() as int) =~= before);
        assert(after.take(at) =~= before.take(at));
        if 0 <= j < n {
            assert(fewer[j] == steps[j]);
            let place = at + fold_place(bits as int, j);
            assert(place + 3 < before.len() || (j >= bits && place + 2 < before.len()));
            assert(after[place] == before[place] && after[place + 1] == before[place + 1]
                && after[place + 2] == before[place + 2]);
            if j < bits {
                assert(after[place + 3] == before[place + 3]);
            }
        }
    }
}

/// An opening that its provider brings down stops at once. The transcript holds the
/// statement, the first message, and for every answered fold the work that was due, the
/// challenge that the provider was given and the answer that it gave; if a fold failed, also
/// the work and the challenge of that fold; and nothing else. The error is the provider's, or
/// names a tail of the wrong length.
pub proof fn law_stopped_opening_stops_at_once(
    history_before: Seq<Event>,
    target: F128,
    root: Digest,
    first: SumcheckMessage,
    bits: u32,
    k: usize,
    tail: nat,
    calls_before: Seq<PrefixCall>,
    steps: Seq<ProviderStep>,
    pending: FoldStep,
    history: Seq<Event>,
    calls: Seq<PrefixCall>,
    e: String,
)
    requires
        prefix_stopped(
            prefix_start(history_before, target, root, first),
            bits,
            k,
            tail,
            calls_before,
            steps,
            pending,
            history,
            calls,
            e,
        ),
    ensures
        ({
            let answered = calls.len() - calls_before.len() - 1;
            let at = history_before.len() + 5int;
            let b = bits as int;
            &&& 0 <= answered <= k
            &&& history.take(history_before.len() as int) == history_before
            &&& statement_told(history, history_before.len() as int, target, root, first)
            &&& forall|j: int|
                0 <= j < answered ==> {
                    &&& #[trigger] calls[calls_before.len() + j] matches PrefixCall::Advance {
                        rho,
                        reply: Ok(message),
                    } && fold_told(history, at, b, j, rho, message)
                }
            &&& match calls.last() {
                PrefixCall::Advance { rho, reply } => {
                    &&& answered < k
                    &&& reply == Err::<SumcheckMessage, String>(e)
                    &&& draw_told(history, at, b, answered, rho)
                    &&& history.len() == at + fold_place(b, answered) + (if answered < b {
                        2int
                    } else {
                        1
                    })
                },
                PrefixCall::Finish { planes } => {
                    &&& answered == k
                    &&& history.len() == at + fold_place(b, answered)
                    &&& match planes {
                        Err(reported) => reported == e,
                        Ok(handed) => (handed.0.len() != tail || handed.1.len() != tail) && e@
                            == "resident PCS tail shape"@,
                    }
                },
                PrefixCall::Begin { .. } => false,
            }
        }),
{
    let s = prefix_start(history_before, target, root, first);
    let at = s.events.len() as int;
    let b = bits as int;
    let n = steps.len() as int;
    let reached = after_provided(s, bits, steps).events;
    lemma_folds_told(s, bits, steps, 0);
    assert(at == history_before.len() + 5);
    assert(history.take(reached.len() as int) =~= reached);
    assert(history.take(at) =~= reached.take(at));
    assert(history.take(history_before.len() as int) =~= history_before) by {
        assert forall|i: int| 0 <= i < history_before.len() implies history[i]
            == history_before[i] by {
            assert(history[i] == s.events[i]);
        }
    }
    let h = history_before.len() as int;
    assert(history[h] == s.events[h] && history[h + 1] == s.events[h + 1] && history[h + 2]
        == s.events[h + 2] && history[h + 3] == s.events[h + 3] && history[h + 4] == s.events[h
        + 4]);
    assert(calls.drop_last() =~= calls_before + fold_calls(steps));
    assert forall|j: int| 0 <= j < n implies {
        &&& #[trigger] calls[calls_before.len() + j] matches PrefixCall::Advance {
            rho,
            reply: Ok(message),
        } && fold_told(history, at, b, j, rho, message)
    } by {
        lemma_folds_told(s, bits, steps, j);
        assert(calls[calls_before.len() + j] == fold_calls(steps)[j]);
        let place = at + fold_place(b, j);
        assert(place + 3 < reached.len() || (j >= b && place + 2 < reached.len()));
        assert(history[place] == reached[place] && history[place + 1] == reached[place + 1]
            && history[place + 2] == reached[place + 2]);
        if j < b {
            assert(history[place + 3] == reached[place + 3]);
        }
    }
}

/// A statement is a label, the target and the root, and an opening whose provider refuses to
/// begin has sent nothing else.
pub proof fn law_statement(history: Seq<Event>, target: F128, root: Digest)
    ensures
        crate::ligerito::statement(history, target, root) == history + seq![
            Event::Label("flock-ligerito-basis-v0"@),
            Event::Observe(target),
            Event::Bytes(root@),
        ],
{
    assert(crate::ligerito::statement(history, target, root) =~= history + seq![
        Event::Label("flock-ligerito-basis-v0"@),
        Event::Observe(target),
        Event::Bytes(root@),
    ]);
}

/// A provider that is admitted is given the witness first and the basis second, before anything
/// else is asked of it; if it refuses them, nothing but the statement has been sent.
pub proof fn law_provider_is_given_the_planes<M, P, A, D>(
    kernels: PcsKernels<M, P, A, D>,
    config: ProverConfig,
    f: Seq<F128>,
    basis: Seq<F128>,
    target: F128,
    codeword: Seq<F128>,
    tree: Seq<Digest>,
    given: Option<SumcheckMessage>,
    history_before: Seq<Event>,
    calls_before: Seq<PrefixCall>,
    history: Seq<Event>,
    calls: Seq<PrefixCall>,
    res: Result<LigeritoProof, String>,
) where
    M: Fn(&[F128], usize, usize, usize) -> LigeroWitness,
    P: Fn(&[Digest], usize, &[usize]) -> Vec<Digest>,
    A: Fn(usize, usize, &[Vec<F128>], &[F128], &[usize], &[F128]) -> (Vec<F128>, F128),
    D: Fn(usize, &[Vec<F128>], &[F128], &[usize], &[F128]) -> (Vec<F128>, F128),

    requires
        begun_outcome(
            kernels,
            config,
            f,
            basis,
            target,
            codeword,
            tree,
            given,
            history_before,
            calls_before,
            history,
            calls,
            res,
        ),
    ensures
        calls.len() > calls_before.len(),
        calls.take(calls_before.len() as int) == calls_before,
        calls[calls_before.len() as int] matches PrefixCall::Begin { f: x, basis: y, refusal } && {
            &&& x == f
            &&& y == basis
            &&& refusal is Some ==> {
                &&& res matches Err(e) && refusal == Some(e)
                &&& calls.len() == calls_before.len() + 1
                &&& history == history_before + seq![
                    Event::Label("flock-ligerito-basis-v0"@),
                    Event::Observe(target),
                    Event::Bytes(tree.last()@),
                ]
            }
            &&& refusal is None ==> calls.len() >= calls_before.len() + 2
        },
{
    let at = calls_before.len() as int;
    let begun = calls_before.push(PrefixCall::Begin { f, basis, refusal: None });
    let log_n = log2_of(f.len()) as int;
    let first = first_oracle(config, log_n, codeword, tree);
    let s = prefix_start(history_before, target, first.root(), first_message(f, basis, given));
    law_statement(history_before, target, tree.last());
    assert(first.root() == tree.last());
    if prefix_outcome(kernels, config, log_n, first, s, begun, history, calls, res) {
        match res {
            Ok(proof) => {
                let (steps, planes, phases, last) = choose|
                    steps: Seq<ProviderStep>,
                    planes: (Seq<F128>, Seq<F128>),
                    phases: Seq<PhaseRun>,
                    last: LastRun,
                | #[trigger]
                    prefix_proved(
                        kernels,
                        config,
                        log_n,
                        first,
                        s,
                        begun,
                        steps,
                        planes,
                        phases,
                        last,
                        history,
                        calls,
                        proof,
                    );
                assert(calls[at] == begun[at]);
            },
            Err(e) => {
                let bits = entry(config.fold_grinding_bits@, 0) as u32;
                let tail = pow2((log_n - config.initial_k) as nat);
                let k = config.initial_k;
                let (steps, pending) = choose|steps: Seq<ProviderStep>, pending: FoldStep|
                    #[trigger]
                    prefix_stopped(s, bits, k, tail, begun, steps, pending, history, calls, e);
                assert(calls.drop_last() =~= begun + fold_calls(steps));
                assert(calls[at] == calls.drop_last()[at]);
            },
        }
        assert(calls.take(at) =~= calls_before);
    } else {
        assert(calls.take(at) =~= calls_before);
    }
}

} // verus!
