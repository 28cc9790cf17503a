//! The transcript interface of the provers.
use crate::field::F128;
use vstd::prelude::*;

verus! {

/// One operation on a transcript, with what it absorbed or gave out.
pub enum Event {
    /// A domain label was absorbed.
    Label(Seq<char>),
    /// Raw bytes were absorbed.
    Bytes(Seq<u8>),
    /// One element was absorbed.
    Observe(F128),
    /// A slice of elements was absorbed.
    ObserveSlice(Seq<F128>),
    /// A challenge was given out.
    Sample(F128),
    /// A vector of challenges was given out.
    SampleVec(Seq<F128>),
    /// A proof of work of so many bits was found, with this nonce.
    Grind(u32, u64),
    /// So many distinct positions below a bound were given out.
    Queries(usize, Seq<usize>),
}

/// What a transcript is asked for: to take something in, or to give something out.
pub enum Request {
    Take,
    Sample,
    SampleVec(nat),
    Grind(u32),
    Queries(usize, nat),
}

/// What was asked for in an operation.
pub open spec fn request_of(event: Event) -> Request {
    match event {
        Event::Sample(_) => Request::Sample,
        Event::SampleVec(v) => Request::SampleVec(v.len()),
        Event::Grind(bits, _) => Request::Grind(bits),
        Event::Queries(range, picks) => Request::Queries(range, picks.len()),
        _ => Request::Take,
    }
}

/// How a deterministic transcript answers: the operation that a request becomes after
/// a history.
pub type Rule = spec_fn(Seq<Event>, Request) -> Event;

/// The operation `event` after `history` gives out nothing, or what `rule` says.
pub open spec fn answered(history: Seq<Event>, event: Event, rule: Rule) -> bool {
    request_of(event) is Take || event == rule(history, request_of(event))
}

/// Every operation from place `from` on was answered by `rule`.
pub open spec fn obeys(history: Seq<Event>, from: nat, rule: Rule) -> bool
    decreases history.len(),
{
    if history.len() <= from {
        true
    } else {
        &&& obeys(history.drop_last(), from, rule)
        &&& answered(history.drop_last(), history.last(), rule)
    }
}

/// One more operation.
pub proof fn lemma_obeys_push(history: Seq<Event>, event: Event, from: nat, rule: Rule)
    requires
        from <= history.len(),
    ensures
        obeys(history.push(event), from, rule) == (obeys(history, from, rule) && answered(
            history,
            event,
            rule,
        )),
{
    assert(history.push(event).drop_last() =~= history);
}

/// What is answered by a rule was answered by it at every earlier time.
pub proof fn lemma_obeys_prefix(
    earlier: Seq<Event>,
    history: Seq<Event>,
    from: nat,
    rule: Rule,
)
    requires
        earlier.is_prefix_of(history),
        obeys(history, from, rule),
    ensures
        obeys(earlier, from, rule),
    decreases history.len(),
{
    if earlier.len() < history.len() && history.len() > from {
        assert(earlier.is_prefix_of(history.drop_last()));
        lemma_obeys_prefix(earlier, history.drop_last(), from, rule);
    } else if earlier.len() == history.len() {
        assert(earlier =~= history);
    }
}

/// What is answered by a rule from some operation on is so from every later one on.
pub proof fn lemma_obeys_later(history: Seq<Event>, from: nat, later: nat, rule: Rule)
    requires
        from <= later,
        obeys(history, from, rule),
    ensures
        obeys(history, later, rule),
    decreases history.len(),
{
    if history.len() > later {
        lemma_obeys_later(history.drop_last(), from, later, rule);
    }
}

/// A single operation of a history that is answered by a rule.
pub proof fn lemma_obeys_at(history: Seq<Event>, from: nat, rule: Rule, i: int)
    requires
        from <= i < history.len(),
        obeys(history, from, rule),
    ensures
        answered(history.take(i), history[i], rule),
    decreases history.len(),
{
    if i == history.len() - 1 {
        assert(history.take(i) =~= history.drop_last());
    } else {
        lemma_obeys_at(history.drop_last(), from, rule, i);
        assert(history.drop_last().take(i) =~= history.take(i));
    }
}

/// A Fiat-Shamir transcript.
pub trait Challenger {
    /// Every operation on this transcript, in order.
    closed spec fn history(&self) -> Seq<Event> {
        arbitrary()
    }

    /// What this transcript keeps true of itself and its history from operation to
    /// operation.
    closed spec fn consistent(&self) -> bool {
        arbitrary()
    }

    /// Absorbs a domain label.
    fn observe_label(&mut self, label: &str)
        ensures
            final(self).history() == old(self).history().push(Event::Label(label@)),
            old(self).consistent() ==> final(self).consistent(),
    ;

    /// Absorbs raw bytes.
    fn observe_bytes(&mut self, bytes: &[u8])
        ensures
            final(self).history() == old(self).history().push(Event::Bytes(bytes@)),
            old(self).consistent() ==> final(self).consistent(),
    ;

    /// Absorbs one element.
    fn observe_f128(&mut self, x: F128)
        ensures
            final(self).history() == old(self).history().push(Event::Observe(x)),
            old(self).consistent() ==> final(self).consistent(),
    ;

    /// Absorbs a slice of elements.
    fn observe_f128_slice(&mut self, xs: &[F128])
        ensures
            final(self).history() == old(self).history().push(Event::ObserveSlice(xs@)),
            old(self).consistent() ==> final(self).consistent(),
    ;

    /// Gives out a challenge.
    fn sample_f128(&mut self) -> (x: F128)
        ensures
            final(self).history() == old(self).history().push(Event::Sample(x)),
            old(self).consistent() ==> final(self).consistent(),
    ;

    /// Gives out `n` challenges.
    fn sample_f128_vec(&mut self, n: usize) -> (v: Vec<F128>)
        ensures
            v@.len() == n,
            final(self).history() == old(self).history().push(Event::SampleVec(v@)),
            old(self).consistent() ==> final(self).consistent(),
    ;

    /// Finds and absorbs a proof of work of `bits` bits, and returns its nonce.
    fn grind_pow(&mut self, bits: u32) -> (nonce: u64)
        ensures
            final(self).history() == old(self).history().push(Event::Grind(bits, nonce)),
            old(self).consistent() ==> final(self).consistent(),
    ;

    /// Gives out `count` distinct positions below `range`.
    fn sample_distinct_queries(&mut self, range: usize, count: usize) -> (picks: Vec<usize>)
        requires
            count <= range,
        ensures
            picks@.len() == count,
            picks@.no_duplicates(),
            forall|i: int| 0 <= i < picks@.len() ==> picks@[i] < range,
            final(self).history() == old(self).history().push(Event::Queries(range, picks@)),
            old(self).consistent() ==> final(self).consistent(),
    ;
}

} // verus!
