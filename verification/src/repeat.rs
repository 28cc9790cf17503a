//! Attempts that a provider brings down end alike each time.
use crate::cpu_prefix::{prefix_log_fits, prefix_state, StartedFault};
use crate::ligerito::{taper, FoldStep, Session};
use crate::resident_prefix::{
    after_provided, fold_calls, prefix_failed, prefix_stopped, provided, PrefixCall, ProviderStep,
};
use crate::transcript::{lemma_obeys_prefix, obeys, Event, Rule};
use crate::unique::{lemma_challenge_unique, lemma_prefix_push, lemma_prefix_trans};
use vstd::prelude::*;

verus! {

/// What a provider's step draws from the transcript.
spec fn draw(step: ProviderStep) -> FoldStep {
    FoldStep { nonce: step.nonce, r: step.r }
}

proof fn lemma_call_fits(log: Seq<PrefixCall>, i: int, fault: StartedFault)
    requires
        0 <= i < log.len(),
        prefix_log_fits(log, fault),
    ensures
        prefix_state(log.take(i)).fits(log[i], fault),
    decreases log.len(),
{
    if i == log.len() - 1 {
        assert(log.take(i) =~= log.drop_last());
    } else {
        lemma_call_fits(log.drop_last(), i, fault);
        assert(log.drop_last().take(i) =~= log.take(i));
    }
}

proof fn lemma_provided_grows(s: Session, bits: u32, step: ProviderStep)
    ensures
        s.events.is_prefix_of(s.challenged(bits, draw(step)).events),
        s.challenged(bits, draw(step)).events.is_prefix_of(provided(s, bits, step).events),
{
    let h = s.events;
    let d = s.challenged(bits, draw(step)).events;
    assert(h.is_prefix_of(h) && d.is_prefix_of(d));
    if bits > 0 {
        lemma_prefix_push(h, h, Event::Grind(bits, step.nonce));
        lemma_prefix_push(h, h.push(Event::Grind(bits, step.nonce)), Event::Sample(step.r));
    } else {
        lemma_prefix_push(h, h, Event::Sample(step.r));
    }
    lemma_prefix_push(d, d, Event::Observe(step.message.u_0));
    lemma_prefix_push(
        d,
        d.push(Event::Observe(step.message.u_0)),
        Event::Observe(step.message.u_2),
    );
}

/// The transcript after `n` of the folds, and after the next challenge, is part of the
/// transcript after all of them.
proof fn lemma_folds_extend(s: Session, bits: u32, steps: Seq<ProviderStep>, n: int)
    requires
        0 <= n <= steps.len(),
    ensures
        s.events.is_prefix_of(after_provided(s, bits, steps.take(n)).events),
        after_provided(s, bits, steps.take(n)).events.is_prefix_of(
            after_provided(s, bits, steps).events,
        ),
        n < steps.len() ==> after_provided(s, bits, steps.take(n)).challenged(
            taper(bits, n),
            draw(steps[n]),
        ).events.is_prefix_of(after_provided(s, bits, steps).events),
    decreases steps.len(),
{
    let all = after_provided(s, bits, steps).events;
    if steps.len() == 0 {
        assert(steps.take(n) =~= steps);
        assert(all.is_prefix_of(all));
    } else {
        let fewer = steps.drop_last();
        let before = after_provided(s, bits, fewer);
        let t = taper(bits, steps.len() - 1);
        lemma_provided_grows(before, t, steps.last());
        let drawn = before.challenged(t, draw(steps.last())).events;
        lemma_prefix_trans(before.events, drawn, all);
        if n == steps.len() {
            lemma_folds_extend(s, bits, fewer, n - 1);
            assert(steps.take(n) =~= steps);
            assert(fewer.take(n - 1) =~= fewer);
            assert(all.is_prefix_of(all));
            lemma_prefix_trans(s.events, before.events, all);
        } else {
            lemma_folds_extend(s, bits, fewer, n);
            assert(fewer.take(n) =~= steps.take(n));
            let reached = after_provided(s, bits, steps.take(n));
            lemma_prefix_trans(reached.events, before.events, all);
            if n < fewer.len() {
                assert(fewer[n] == steps[n]);
                lemma_prefix_trans(
                    reached.challenged(taper(bits, n), draw(steps[n])).events,
                    before.events,
                    all,
                );
            } else {
                assert(fewer.take(n) =~= fewer);
            }
        }
    }
}

/// An attempt that folded `steps` and whose logs went on from there.
spec fn went_on(
    s: Session,
    bits: u32,
    calls_before: Seq<PrefixCall>,
    fault: StartedFault,
    from: nat,
    rule: Rule,
    steps: Seq<ProviderStep>,
    history: Seq<Event>,
    calls: Seq<PrefixCall>,
) -> bool {
    &&& from <= s.events.len()
    &&& after_provided(s, bits, steps).events.is_prefix_of(history)
    &&& calls.len() > calls_before.len() + steps.len()
    &&& calls.take((calls_before.len() + steps.len()) as int) == calls_before + fold_calls(steps)
    &&& prefix_log_fits(calls, fault)
    &&& obeys(history, from, rule)
}

/// The first folds of two such attempts are the same.
proof fn lemma_folds_agree(
    s: Session,
    bits: u32,
    calls_before: Seq<PrefixCall>,
    fault: StartedFault,
    from: nat,
    rule: Rule,
    xs: Seq<ProviderStep>,
    x_history: Seq<Event>,
    x_calls: Seq<PrefixCall>,
    ys: Seq<ProviderStep>,
    y_history: Seq<Event>,
    y_calls: Seq<PrefixCall>,
    n: int,
)
    requires
        went_on(s, bits, calls_before, fault, from, rule, xs, x_history, x_calls),
        went_on(s, bits, calls_before, fault, from, rule, ys, y_history, y_calls),
        0 <= n <= xs.len(),
        n <= ys.len(),
    ensures
        after_provided(s, bits, xs.take(n)) == after_provided(s, bits, ys.take(n)),
        fold_calls(xs.take(n)) == fold_calls(ys.take(n)),
    decreases n,
{
    if n == 0 {
        assert(xs.take(0) =~= ys.take(0));
    } else {
        let i = n - 1;
        lemma_folds_agree(
            s,
            bits,
            calls_before,
            fault,
            from,
            rule,
            xs,
            x_history,
            x_calls,
            ys,
            y_history,
            y_calls,
            i,
        );
        lemma_draws_agree(s, bits, from, rule, xs, x_history, ys, y_history, i);
        lemma_reply(calls_before, fault, xs, x_calls, i);
        lemma_reply(calls_before, fault, ys, y_calls, i);
        assert(xs.take(n).drop_last() =~= xs.take(i));
        assert(ys.take(n).drop_last() =~= ys.take(i));
        assert(xs[i].message == ys[i].message);
        assert(fold_calls(xs.take(n)) =~= fold_calls(xs.take(i)).push(
            PrefixCall::Advance { rho: xs[i].r, reply: Ok(xs[i].message) },
        ));
        assert(fold_calls(ys.take(n)) =~= fold_calls(ys.take(i)).push(
            PrefixCall::Advance { rho: ys[i].r, reply: Ok(ys[i].message) },
        ));
    }
}

/// After the same folds the same challenge is drawn.
proof fn lemma_draws_agree(
    s: Session,
    bits: u32,
    from: nat,
    rule: Rule,
    xs: Seq<ProviderStep>,
    x_history: Seq<Event>,
    ys: Seq<ProviderStep>,
    y_history: Seq<Event>,
    i: int,
)
    requires
        from <= s.events.len(),
        0 <= i < xs.len(),
        i < ys.len(),
        after_provided(s, bits, xs).events.is_prefix_of(x_history),
        after_provided(s, bits, ys).events.is_prefix_of(y_history),
        obeys(x_history, from, rule),
        obeys(y_history, from, rule),
        after_provided(s, bits, xs.take(i)) == after_provided(s, bits, ys.take(i)),
    ensures
        xs[i].r == ys[i].r,
        after_provided(s, bits, xs.take(i)).challenged(taper(bits, i), draw(xs[i]))
            == after_provided(s, bits, ys.take(i)).challenged(taper(bits, i), draw(ys[i])),
{
    let reached = after_provided(s, bits, xs.take(i));
    let t = taper(bits, i);
    lemma_folds_extend(s, bits, xs, i);
    lemma_folds_extend(s, bits, ys, i);
    lemma_prefix_trans(
        reached.challenged(t, draw(xs[i])).events,
        after_provided(s, bits, xs).events,
        x_history,
    );
    lemma_prefix_trans(
        reached.challenged(t, draw(ys[i])).events,
        after_provided(s, bits, ys).events,
        y_history,
    );
    lemma_obeys_prefix(reached.challenged(t, draw(xs[i])).events, x_history, from, rule);
    lemma_obeys_prefix(reached.challenged(t, draw(ys[i])).events, y_history, from, rule);
    lemma_challenge_unique(reached, t, draw(xs[i]), draw(ys[i]), from, rule);
}

/// What the provider answered to fold `i`.
proof fn lemma_reply(
    calls_before: Seq<PrefixCall>,
    fault: StartedFault,
    steps: Seq<ProviderStep>,
    calls: Seq<PrefixCall>,
    i: int,
)
    requires
        0 <= i < steps.len(),
        calls.len() > calls_before.len() + steps.len(),
        calls.take((calls_before.len() + steps.len()) as int) == calls_before + fold_calls(steps),
        prefix_log_fits(calls, fault),
    ensures
        prefix_state(calls_before + fold_calls(steps.take(i))).fits(
            PrefixCall::Advance { rho: steps[i].r, reply: Ok(steps[i].message) },
            fault,
        ),
{
    let at = calls_before.len() + i;
    lemma_call_fits(calls, at, fault);
    let known = calls.take((calls_before.len() + steps.len()) as int);
    assert(calls[at] == known[at]);
    assert(calls.take(at) =~= known.take(at));
    assert(known.take(at) =~= calls_before + fold_calls(steps.take(i)));
}

/// An attempt that stopped did so after folds that went on.
proof fn lemma_stopped_went_on(
    s: Session,
    bits: u32,
    k: usize,
    tail: nat,
    calls_before: Seq<PrefixCall>,
    fault: StartedFault,
    from: nat,
    rule: Rule,
    steps: Seq<ProviderStep>,
    pending: FoldStep,
    history: Seq<Event>,
    calls: Seq<PrefixCall>,
    e: String,
)
    requires
        prefix_stopped(s, bits, k, tail, calls_before, steps, pending, history, calls, e),
        from <= s.events.len(),
        prefix_log_fits(calls, fault),
        obeys(history, from, rule),
    ensures
        went_on(s, bits, calls_before, fault, from, rule, steps, history, calls),
        prefix_state(calls_before + fold_calls(steps)).fits(calls.last(), fault),
{
    let reached = after_provided(s, bits, steps);
    let answered = calls_before + fold_calls(steps);
    assert(calls.drop_last() =~= answered);
    assert(calls.take(answered.len() as int) =~= answered);
    if steps.len() < k && calls.last() is Advance {
        let step = ProviderStep { nonce: pending.nonce, r: pending.r, message: arbitrary() };
        assert(draw(step) == pending);
        lemma_provided_grows(reached, taper(bits, steps.len() as int), step);
    } else {
        assert(history.is_prefix_of(history));
    }
}

/// A provider brings an attempt down at the same point each time: two failed attempts on
/// equal transcripts, with processor providers that have the same fault and were called
/// alike before, leave equal transcripts, equally many calls, equal planes and counters,
/// and equal errors.
pub proof fn law_failed_attempts_end_alike(
    s: Session,
    bits: u32,
    k: usize,
    tail: nat,
    calls_before: Seq<PrefixCall>,
    fault: StartedFault,
    from: nat,
    rule: Rule,
    x_history: Seq<Event>,
    x_calls: Seq<PrefixCall>,
    x_error: String,
    y_history: Seq<Event>,
    y_calls: Seq<PrefixCall>,
    y_error: String,
)
    requires
        from <= s.events.len(),
        prefix_failed(s, bits, k, tail, calls_before, x_history, x_calls, x_error),
        prefix_failed(s, bits, k, tail, calls_before, y_history, y_calls, y_error),
        prefix_log_fits(x_calls, fault),
        prefix_log_fits(y_calls, fault),
        obeys(x_history, from, rule),
        obeys(y_history, from, rule),
    ensures
        x_history == y_history,
        x_calls.len() == y_calls.len(),
        prefix_state(x_calls) == prefix_state(y_calls),
        x_error@ == y_error@,
{
    let (xs, xp) = choose|steps: Seq<ProviderStep>, pending: FoldStep| #[trigger]
        prefix_stopped(
            s,
            bits,
            k,
            tail,
            calls_before,
            steps,
            pending,
            x_history,
            x_calls,
            x_error,
        );
    let (ys, yp) = choose|steps: Seq<ProviderStep>, pending: FoldStep| #[trigger]
        prefix_stopped(
            s,
            bits,
            k,
            tail,
            calls_before,
            steps,
            pending,
            y_history,
            y_calls,
            y_error,
        );
    lemma_stopped_went_on(
        s,
        bits,
        k,
        tail,
        calls_before,
        fault,
        from,
        rule,
        xs,
        xp,
        x_history,
        x_calls,
        x_error,
    );
    lemma_stopped_went_on(
        s,
        bits,
        k,
        tail,
        calls_before,
        fault,
        from,
        rule,
        ys,
        yp,
        y_history,
        y_calls,
        y_error,
    );
    let n: int = if xs.len() <= ys.len() {
        xs.len() as int
    } else {
        ys.len() as int
    };
    lemma_folds_agree(
        s,
        bits,
        calls_before,
        fault,
        from,
        rule,
        xs,
        x_history,
        x_calls,
        ys,
        y_history,
        y_calls,
        n,
    );
    if xs.len() < ys.len() {
        lemma_reply(calls_before, fault, ys, y_calls, n);
        assert(xs.take(n) =~= xs);
        assert(false);
    }
    if ys.len() < xs.len() {
        lemma_reply(calls_before, fault, xs, x_calls, n);
        assert(ys.take(n) =~= ys);
        assert(false);
    }
    assert(xs.take(n) =~= xs);
    assert(ys.take(n) =~= ys);
    let reached = after_provided(s, bits, xs);
    lemma_folds_extend(s, bits, xs, n);
    if n < k {
        lemma_challenge_unique(reached, taper(bits, n), xp, yp, from, rule);
    }
    assert(x_calls.drop_last() =~= calls_before + fold_calls(xs));
    assert(y_calls.drop_last() =~= calls_before + fold_calls(ys));
}

} // verus!
