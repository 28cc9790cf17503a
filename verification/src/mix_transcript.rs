//! A deterministic transcript for exercising provers.
//!
//! It mixes what it absorbs into one element. It is not collision resistant, and
//! its proofs of work cost nothing.
use crate::field::F128;
use crate::keccak3::pack_words;
use crate::transcript::{
    answered, lemma_obeys_later, lemma_obeys_push, obeys, Challenger, Event, Request, Rule,
};
use vstd::prelude::*;

verus! {

/// The multiplier of the mixing step.
pub open spec fn multiplier() -> F128 {
    pack_words(0x9e3779b97f4a7c15, 0xbf58476d1ce4e5b9)
}

/// The state after one element was mixed in.
pub open spec fn mixed(state: F128, x: F128) -> F128 {
    (state + x) * multiplier() + F128::one()
}

/// The state after some elements were mixed in.
pub open spec fn absorbed(state: F128, xs: Seq<F128>) -> F128
    decreases xs.len(),
{
    if xs.len() == 0 {
        state
    } else {
        mixed(absorbed(state, xs.drop_last()), xs.last())
    }
}

/// A number as an element, under a tag that tells the kinds of numbers apart.
pub open spec fn number(tag: u64, x: u64) -> F128 {
    pack_words(x, tag)
}

/// The state after a challenge was drawn.
pub open spec fn stirred(state: F128) -> F128 {
    mixed(state, number(1, 0))
}

/// The challenge that a state gives out.
pub open spec fn challenge(state: F128) -> F128 {
    let s = stirred(state);
    s * s * s + s
}

/// The state after `n` challenges were drawn.
pub open spec fn stirred_times(state: F128, n: int) -> F128
    decreases n,
{
    if n <= 0 {
        state
    } else {
        stirred(stirred_times(state, n - 1))
    }
}

/// `n` challenges drawn one after the other.
pub open spec fn challenge_list(state: F128, n: int) -> Seq<F128> {
    Seq::new(n as nat, |i: int| challenge(stirred_times(state, i)))
}

/// What a label puts into the state.
pub open spec fn label_items(label: Seq<char>) -> Seq<F128> {
    seq![number(2, label.len() as u64)] + Seq::new(
        label.len(),
        |i: int| number(3, label[i] as u64),
    )
}

/// What bytes put into the state.
pub open spec fn byte_items(bytes: Seq<u8>) -> Seq<F128> {
    seq![number(4, bytes.len() as u64)] + Seq::new(
        bytes.len(),
        |i: int| number(5, bytes[i] as u64),
    )
}

/// What a slice of elements puts into the state.
pub open spec fn slice_items(xs: Seq<F128>) -> Seq<F128> {
    seq![number(7, xs.len() as u64)] + xs
}

/// Position `j` from `start` on, around the end of the range.
pub open spec fn neighbour(start: int, range: usize, j: int) -> usize {
    if start + j < range {
        (start + j) as usize
    } else {
        (start + j - range) as usize
    }
}

/// The state after one operation.
pub open spec fn state_step(state: F128, event: Event) -> F128 {
    match event {
        Event::Label(label) => absorbed(state, label_items(label)),
        Event::Bytes(bytes) => absorbed(state, byte_items(bytes)),
        Event::Observe(x) => absorbed(state, seq![number(6, 1), x]),
        Event::ObserveSlice(xs) => absorbed(state, slice_items(xs)),
        Event::Sample(_) => stirred(state),
        Event::SampleVec(v) => stirred_times(state, v.len() as int),
        Event::Grind(bits, _) => stirred(mixed(state, number(8, bits as u64))),
        Event::Queries(range, _) => stirred(mixed(state, number(9, range as u64))),
    }
}

/// The state after a whole history.
pub open spec fn state_after(history: Seq<Event>) -> F128
    decreases history.len(),
{
    if history.len() == 0 {
        F128::one()
    } else {
        state_step(state_after(history.drop_last()), history.last())
    }
}

/// How the transcript answers: every answer is computed from the state, and the
/// state from the history.
pub open spec fn mix_rule() -> Rule {
    |history: Seq<Event>, request: Request|
        {
            let state = state_after(history);
            match request {
                Request::SampleVec(n) => Event::SampleVec(challenge_list(state, n as int)),
                Request::Grind(bits) => {
                    let asked = mixed(state, number(8, bits as u64));
                    Event::Grind(
                        bits,
                        (challenge(asked).bits & 0xffff_ffff_ffff_ffff) as u64,
                    )
                },
                Request::Queries(range, count) => {
                    let asked = mixed(state, number(9, range as u64));
                    let start = challenge(asked).bits as int % (range as int);
                    Event::Queries(range, Seq::new(count, |j: int| neighbour(start, range, j)))
                },
                _ => Event::Sample(challenge(state)),
            }
        }
}

/// A transcript in a consistent state has answered by its rule, from the start and from
/// every later operation on.
pub proof fn law_mix_transcript_is_deterministic(t: MixTranscript, from: nat)
    requires
        t.consistent(),
    ensures
        obeys(t.history(), from, mix_rule()),
{
    lemma_obeys_later(t.history(), 0, from, mix_rule());
}

/// A transcript whose challenges depend on everything absorbed before them.
pub struct MixTranscript {
    pub state: F128,
    pub log: Ghost<Seq<Event>>,
}

/// One more operation, in the state and in the answers.
proof fn lemma_push(history: Seq<Event>, event: Event)
    ensures
        state_after(history.push(event)) == state_step(state_after(history), event),
        obeys(history.push(event), 0, mix_rule()) == (obeys(history, 0, mix_rule()) && answered(
            history,
            event,
            mix_rule(),
        )),
{
    assert(history.push(event).drop_last() =~= history);
    lemma_obeys_push(history, event, 0, mix_rule());
}

proof fn lemma_absorb_push(state: F128, xs: Seq<F128>, x: F128)
    ensures
        absorbed(state, xs.push(x)) == mixed(absorbed(state, xs), x),
{
    assert(xs.push(x).drop_last() =~= xs);
}

impl MixTranscript {
    /// A transcript that starts with a domain label.
    pub fn new(domain: &str) -> (t: MixTranscript)
        ensures
            t.state == absorbed(F128::one(), label_items(domain@)),
            t.history() == seq![Event::Label(domain@)],
            t.consistent(),
    {
        let mut t = MixTranscript { state: F128::one(), log: Ghost(Seq::empty()) };
        t.observe_label(domain);
        assert(t.history() =~= seq![Event::Label(domain@)]);
        t
    }

    /// Mixes one element in, after those in `before`.
    fn mix(&mut self, x: F128, Ghost(start): Ghost<F128>, Ghost(before): Ghost<Seq<F128>>)
        requires
            old(self).state == absorbed(start, before),
        ensures
            final(self).state == absorbed(start, before.push(x)),
            final(self).log == old(self).log,
    {
        proof {
            lemma_absorb_push(start, before, x);
        }
        self.state = (self.state + x) * F128::new(0x9e3779b97f4a7c15, 0xbf58476d1ce4e5b9)
            + F128::one();
    }

    /// Stirs the state and gives a challenge out.
    fn squeeze(&mut self) -> (x: F128)
        ensures
            x == challenge(old(self).state),
            final(self).state == stirred(old(self).state),
            final(self).log == old(self).log,
    {
        let ghost start = self.state;
        assert(Seq::<F128>::empty().push(number(1, 0)).drop_last() =~= Seq::empty());
        self.mix(F128::new(0, 1), Ghost(start), Ghost(Seq::empty()));
        let s = self.state;
        s * s * s + s
    }
}

impl Challenger for MixTranscript {
    open spec fn history(&self) -> Seq<Event> {
        self.log@
    }

    open spec fn consistent(&self) -> bool {
        &&& self.state == state_after(self.log@)
        &&& obeys(self.log@, 0, mix_rule())
    }

    fn observe_label(&mut self, label: &str)
        ensures
            final(self).state == absorbed(old(self).state, label_items(label@)),
    {
        let ghost start = self.state;
        let len = label.unicode_len();
        self.mix(F128::new(len as u64, 2), Ghost(start), Ghost(Seq::empty()));
        let mut i: usize = 0;
        assert(Seq::<F128>::empty().push(number(2, len as u64)) =~= label_items(label@).take(1));
        while i < len
            invariant
                i <= len,
                len == label@.len(),
                self.log == old(self).log,
                self.state == absorbed(start, label_items(label@).take(i + 1)),
            decreases len - i,
        {
            let c = label.get_char(i) as u64;
            self.mix(F128::new(c, 3), Ghost(start), Ghost(label_items(label@).take(i + 1)));
            assert(label_items(label@).take(i + 1).push(number(3, c)) =~= label_items(
                label@,
            ).take(i + 2));
            i = i + 1;
        }
        assert(label_items(label@).take(i + 1) =~= label_items(label@));
        proof {
            lemma_push(self.log@, Event::Label(label@));
        }
        self.log = Ghost(self.log@.push(Event::Label(label@)));
    }

    fn observe_bytes(&mut self, bytes: &[u8])
        ensures
            final(self).state == absorbed(old(self).state, byte_items(bytes@)),
    {
        let ghost start = self.state;
        let len = bytes.len();
        self.mix(F128::new(len as u64, 4), Ghost(start), Ghost(Seq::empty()));
        let mut i: usize = 0;
        assert(Seq::<F128>::empty().push(number(4, len as u64)) =~= byte_items(bytes@).take(1));
        while i < len
            invariant
                i <= len,
                len == bytes@.len(),
                self.log == old(self).log,
                self.state == absorbed(start, byte_items(bytes@).take(i + 1)),
            decreases len - i,
        {
            let b = bytes[i] as u64;
            self.mix(F128::new(b, 5), Ghost(start), Ghost(byte_items(bytes@).take(i + 1)));
            assert(byte_items(bytes@).take(i + 1).push(number(5, b)) =~= byte_items(bytes@).take(
                i + 2,
            ));
            i = i + 1;
        }
        assert(byte_items(bytes@).take(i + 1) =~= byte_items(bytes@));
        proof {
            lemma_push(self.log@, Event::Bytes(bytes@));
        }
        self.log = Ghost(self.log@.push(Event::Bytes(bytes@)));
    }

    fn observe_f128(&mut self, x: F128)
        ensures
            final(self).state == absorbed(old(self).state, seq![number(6, 1), x]),
    {
        let ghost start = self.state;
        self.mix(F128::new(1, 6), Ghost(start), Ghost(Seq::empty()));
        let ghost tag = seq![number(6, 1)];
        assert(Seq::<F128>::empty().push(number(6, 1)) =~= tag);
        self.mix(x, Ghost(start), Ghost(tag));
        assert(seq![number(6, 1)].push(x) =~= seq![number(6, 1), x]);
        proof {
            lemma_push(self.log@, Event::Observe(x));
        }
        self.log = Ghost(self.log@.push(Event::Observe(x)));
    }

    fn observe_f128_slice(&mut self, xs: &[F128])
        ensures
            final(self).state == absorbed(old(self).state, slice_items(xs@)),
    {
        let ghost start = self.state;
        let len = xs.len();
        self.mix(F128::new(len as u64, 7), Ghost(start), Ghost(Seq::empty()));
        let mut i: usize = 0;
        assert(Seq::<F128>::empty().push(number(7, len as u64)) =~= slice_items(xs@).take(1));
        while i < len
            invariant
                i <= len,
                len == xs@.len(),
                self.log == old(self).log,
                self.state == absorbed(start, slice_items(xs@).take(i + 1)),
            decreases len - i,
        {
            self.mix(xs[i], Ghost(start), Ghost(slice_items(xs@).take(i + 1)));
            assert(slice_items(xs@).take(i + 1).push(xs@[i as int]) =~= slice_items(xs@).take(
                i + 2,
            ));
            i = i + 1;
        }
        assert(slice_items(xs@).take(i + 1) =~= slice_items(xs@));
        proof {
            lemma_push(self.log@, Event::ObserveSlice(xs@));
        }
        self.log = Ghost(self.log@.push(Event::ObserveSlice(xs@)));
    }

    fn sample_f128(&mut self) -> (x: F128)
        ensures
            x == challenge(old(self).state),
            final(self).state == stirred(old(self).state),
    {
        let x = self.squeeze();
        proof {
            lemma_push(self.log@, Event::Sample(x));
        }
        self.log = Ghost(self.log@.push(Event::Sample(x)));
        x
    }

    fn sample_f128_vec(&mut self, n: usize) -> (v: Vec<F128>)
        ensures
            v@ == challenge_list(old(self).state, n as int),
            final(self).state == stirred_times(old(self).state, n as int),
    {
        let ghost start = self.state;
        let mut v: Vec<F128> = Vec::new();
        let mut i: usize = 0;
        while i < n
            invariant
                i <= n,
                v@ == challenge_list(start, i as int),
                self.state == stirred_times(start, i as int),
                self.log == old(self).log,
            decreases n - i,
        {
            let x = self.squeeze();
            v.push(x);
            i = i + 1;
            assert(v@ =~= challenge_list(start, i as int));
        }
        proof {
            lemma_push(self.log@, Event::SampleVec(v@));
        }
        self.log = Ghost(self.log@.push(Event::SampleVec(v@)));
        v
    }

    fn grind_pow(&mut self, bits: u32) -> (nonce: u64)
        ensures
            ({
                let asked = mixed(old(self).state, number(8, bits as u64));
                &&& nonce == (challenge(asked).bits & 0xffff_ffff_ffff_ffff) as u64
                &&& final(self).state == stirred(asked)
            }),
    {
        let ghost start = self.state;
        assert(Seq::<F128>::empty().push(number(8, bits as u64)).drop_last() =~= Seq::empty());
        self.mix(F128::new(bits as u64, 8), Ghost(start), Ghost(Seq::empty()));
        proof {
            lemma_absorb_push(start, Seq::empty(), number(8, bits as u64));
        }
        assert(self.state == mixed(start, number(8, bits as u64)));
        let nonce = (self.squeeze().bits & 0xffff_ffff_ffff_ffff) as u64;
        proof {
            lemma_push(self.log@, Event::Grind(bits, nonce));
        }
        self.log = Ghost(self.log@.push(Event::Grind(bits, nonce)));
        nonce
    }

    /// Neighbouring positions from a drawn start on, around the end.
    fn sample_distinct_queries(&mut self, range: usize, count: usize) -> (picks: Vec<usize>)
        ensures
            ({
                let asked = mixed(old(self).state, number(9, range as u64));
                let start = challenge(asked).bits as int % (range as int);
                &&& final(self).state == stirred(asked)
                &&& forall|j: int|
                    0 <= j < count ==> #[trigger] picks@[j] == neighbour(start, range, j)
            }),
    {
        let ghost before = self.state;
        assert(Seq::<F128>::empty().push(number(9, range as u64)).drop_last() =~= Seq::empty());
        self.mix(F128::new(range as u64, 9), Ghost(before), Ghost(Seq::empty()));
        proof {
            lemma_absorb_push(before, Seq::empty(), number(9, range as u64));
        }
        let ghost asked = mixed(before, number(9, range as u64));
        assert(self.state == asked);
        let mut picks: Vec<usize> = Vec::new();
        let drawn = self.squeeze();
        if range > 0 {
            let start = (drawn.bits % (range as u128)) as usize;
            let mut i: usize = 0;
            while i < count
                invariant
                    i <= count <= range,
                    start < range,
                    picks@.len() == i,
                    forall|j: int|
                        0 <= j < i ==> #[trigger] picks@[j] == neighbour(
                            start as int,
                            range,
                            j,
                        ),
                decreases count - i,
            {
                let q = if i < range - start {
                    start + i
                } else {
                    i - (range - start)
                };
                picks.push(q);
                i = i + 1;
            }
        }
        assert(picks@ =~= Seq::new(
            count as nat,
            |j: int| neighbour(challenge(asked).bits as int % (range as int), range, j),
        ));
        proof {
            lemma_push(self.log@, Event::Queries(range, picks@));
        }
        self.log = Ghost(self.log@.push(Event::Queries(range, picks@)));
        picks
    }
}

/// A number under a tag is its value beside the tag.
proof fn lemma_number(tag: u64, x: u64)
    ensures
        number(tag, x).bits == 0x1_0000_0000_0000_0000 * tag + x,
{
    crate::field::law_word_pair(x, tag);
}

proof fn lemma_char(c: char)
    ensures
        c as u64 == c as int,
{
    assert(0 <= c as int <= 0x10ffff);
}

/// One element is mixed in by adding it, multiplying by the fixed element and adding one, and a
/// list is mixed in from its first element to its last.
pub proof fn law_mixing(state: F128, xs: Seq<F128>, x: F128, ys: Seq<F128>)
    ensures
        multiplier().bits == 0x1_0000_0000_0000_0000 * 0xbf58476d1ce4e5b9 + 0x9e3779b97f4a7c15,
        absorbed(state, Seq::empty()) == state,
        absorbed(state, seq![x]) == (state + x) * multiplier() + F128::one(),
        absorbed(state, xs + ys) == absorbed(absorbed(state, xs), ys),
    decreases ys.len(),
{
    crate::field::law_word_pair(0x9e3779b97f4a7c15, 0xbf58476d1ce4e5b9);
    assert(seq![x].drop_last() =~= Seq::empty());
    if ys.len() > 0 {
        law_mixing(state, xs, x, ys.drop_last());
        assert((xs + ys).drop_last() =~= xs + ys.drop_last());
    } else {
        assert(xs + ys =~= xs);
    }
}

/// What is absorbed tells what was observed: labels, bytes and slices that put the same items
/// into the state are the same, and those of different kinds never do.
pub proof fn law_items_tell_observations_apart(
    x: Seq<char>,
    y: Seq<char>,
    u: Seq<u8>,
    v: Seq<u8>,
    f: Seq<F128>,
    g: Seq<F128>,
)
    ensures
        label_items(x) == label_items(y) ==> x == y,
        byte_items(u) == byte_items(v) ==> u == v,
        slice_items(f) == slice_items(g) ==> f == g,
        label_items(x) != byte_items(u),
        label_items(x) != slice_items(f),
        byte_items(u) != slice_items(f),
{
    lemma_number(2, x.len() as u64);
    lemma_number(4, u.len() as u64);
    lemma_number(7, f.len() as u64);
    assert(label_items(x)[0] == number(2, x.len() as u64));
    assert(byte_items(u)[0] == number(4, u.len() as u64));
    assert(slice_items(f)[0] == number(7, f.len() as u64));
    if label_items(x) == label_items(y) {
        assert(label_items(x).len() == x.len() + 1 && label_items(y).len() == y.len() + 1);
        assert forall|i: int| 0 <= i < x.len() implies x[i] == y[i] by {
            let (c, d) = (x[i], y[i]);
            lemma_char(c);
            lemma_char(d);
            lemma_number(3, c as u64);
            lemma_number(3, d as u64);
            assert(label_items(x)[i + 1] == number(3, c as u64));
            assert(label_items(y)[i + 1] == number(3, d as u64));
        }
        assert(x =~= y);
    }
    if byte_items(u) == byte_items(v) {
        assert(byte_items(u).len() == u.len() + 1 && byte_items(v).len() == v.len() + 1);
        assert forall|i: int| 0 <= i < u.len() implies u[i] == v[i] by {
            lemma_number(5, u[i] as u64);
            lemma_number(5, v[i] as u64);
            assert(byte_items(u)[i + 1] == number(5, u[i] as u64));
            assert(byte_items(v)[i + 1] == number(5, v[i] as u64));
        }
        assert(u =~= v);
    }
    if slice_items(f) == slice_items(g) {
        assert(slice_items(f).len() == f.len() + 1 && slice_items(g).len() == g.len() + 1);
        assert forall|i: int| 0 <= i < f.len() implies f[i] == g[i] by {
            assert(slice_items(f)[i + 1] == f[i]);
            assert(slice_items(g)[i + 1] == g[i]);
        }
        assert(f =~= g);
    }
}

/// Challenges that are drawn together are those that are drawn one after the other, and leave
/// the same state.
pub proof fn law_challenges_drawn_together(state: F128, n: int)
    requires
        0 <= n,
    ensures
        challenge_list(state, n + 1) == seq![challenge(state)] + challenge_list(stirred(state), n),
        stirred_times(state, n + 1) == stirred_times(stirred(state), n),
        stirred_times(state, 0) == state,
    decreases n,
{
    assert(stirred_times(state, 1) == stirred(stirred_times(state, 0)));
    if n > 0 {
        law_challenges_drawn_together(state, n - 1);
        assert(stirred_times(stirred(state), n) == stirred(stirred_times(stirred(state), n - 1)));
        assert(challenge_list(state, n)[n - 1] == challenge(stirred_times(state, n - 1)));
    }
    let (whole, parts) = (
        challenge_list(state, n + 1),
        seq![challenge(state)] + challenge_list(stirred(state), n),
    );
    assert forall|i: int| 0 <= i < n + 1 implies whole[i] == parts[i] by {
        if 0 < i < n {
            let fewer = seq![challenge(state)] + challenge_list(stirred(state), n - 1);
            assert(challenge_list(state, n)[i] == fewer[i]);
            assert(fewer[i] == challenge_list(stirred(state), n - 1)[i - 1]);
        } else if i == n && n > 0 {
            assert(parts[i] == challenge_list(stirred(state), n)[n - 1]);
        }
    }
    assert(whole =~= parts);
}

/// Every operation shows in the state: what was observed is mixed in, a challenge stirs once, a
/// list of challenges once for each, and work and positions mix in what was asked for.
pub proof fn law_state_follows_operations(history: Seq<Event>, event: Event)
    ensures
        state_after(Seq::empty()) == F128::one(),
        ({
            let s = state_after(history);
            let next = state_after(history.push(event));
            match event {
                Event::Label(label) => next == absorbed(s, label_items(label)),
                Event::Bytes(bytes) => next == absorbed(s, byte_items(bytes)),
                Event::ObserveSlice(xs) => next == absorbed(s, slice_items(xs)),
                Event::Observe(x) => next == (((s + number(6, 1)) * multiplier() + F128::one()) + x)
                    * multiplier() + F128::one(),
                Event::Sample(_) => next == (s + number(1, 0)) * multiplier() + F128::one(),
                Event::SampleVec(v) => next == stirred_times(s, v.len() as int),
                Event::Grind(bits, _) => next == (((s + number(8, bits as u64)) * multiplier()
                    + F128::one()) + number(1, 0)) * multiplier() + F128::one(),
                Event::Queries(range, _) => next == (((s + number(9, range as u64)) * multiplier()
                    + F128::one()) + number(1, 0)) * multiplier() + F128::one(),
            }
        }),
{
    let s = state_after(history);
    assert(history.push(event).drop_last() =~= history);
    if let Event::Observe(x) = event {
        let tag = number(6, 1);
        law_mixing(s, seq![tag], tag, seq![x]);
        law_mixing(absorbed(s, seq![tag]), Seq::empty(), x, Seq::empty());
        assert(seq![tag] + seq![x] =~= seq![tag, x]);
    }
}

} // verus!
