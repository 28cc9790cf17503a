//! Reproducible inputs for exercising the provers.
use crate::extension::extension;
use crate::field::F128;
use crate::keccak::Lanes;
use crate::keccak3::{block_lanes, pack_words};
use crate::ligerito::eq_table;
use crate::multilinear::{build_eq, power_of_two};
use crate::opening::PackedDirectClaim;
use crate::padding::{bit_of, PaddingSpec};
use crate::sumcheck::compute_inner;
use vstd::arithmetic::power2::pow2;
use vstd::prelude::*;

verus! {

/// The step of the counter, and the multiplier of the element patterns.
pub const GOLDEN: u64 = 0x9e3779b97f4a7c15;

/// The counter after `n` steps from `seed`.
pub open spec fn counter(seed: u64, n: int) -> u64
    decreases n,
{
    if n <= 0 {
        seed
    } else {
        counter(seed, n - 1).wrapping_add(GOLDEN)
    }
}

/// The bits of a counter value scattered.
pub open spec fn scattered(word: u64) -> u64 {
    let x = (word ^ (word >> 30)).wrapping_mul(0xbf58476d1ce4e5b9);
    let y = (x ^ (x >> 27)).wrapping_mul(0x94d049bb133111eb);
    y ^ (y >> 31)
}

/// Multiplication by a unit modulo `2^64` loses nothing.
proof fn lemma_unit_times(x: int, y: int, c: int, inverse: int, t: int)
    requires
        0 <= x < 0x1_0000_0000_0000_0000,
        0 <= y < 0x1_0000_0000_0000_0000,
        c * inverse == 1 + t * 0x1_0000_0000_0000_0000,
        (x * c) % 0x1_0000_0000_0000_0000 == (y * c) % 0x1_0000_0000_0000_0000,
    ensures
        x == y,
{
    let m: int = 0x1_0000_0000_0000_0000;
    let (a, b) = (x * c, y * c);
    let k = a / m - b / m;
    vstd::arithmetic::div_mod::lemma_fundamental_div_mod(a, m);
    vstd::arithmetic::div_mod::lemma_fundamental_div_mod(b, m);
    assert(a - b == k * m) by (nonlinear_arith)
        requires
            a == m * (a / m) + a % m,
            b == m * (b / m) + b % m,
            a % m == b % m,
            k == a / m - b / m,
    ;
    let d = x - y;
    assert(d * c == a - b) by (nonlinear_arith)
        requires
            d == x - y,
            a == x * c,
            b == y * c,
    ;
    assert(d * (c * inverse) == (d * c) * inverse) by (nonlinear_arith);
    assert((k * m) * inverse == (k * inverse) * m) by (nonlinear_arith);
    assert(d * (1 + t * m) == d + (d * t) * m) by (nonlinear_arith);
    let q = k * inverse - d * t;
    assert(d == q * m) by (nonlinear_arith)
        requires
            d + (d * t) * m == (k * inverse) * m,
            q == k * inverse - d * t,
    ;
    assert(q == 0) by (nonlinear_arith)
        requires
            d == q * m,
            -m < d < m,
            m > 0,
    ;
}

proof fn lemma_counter_value(seed: u64, n: int)
    requires
        0 <= n,
    ensures
        counter(seed, n) == (seed + n * GOLDEN) % 0x1_0000_0000_0000_0000,
    decreases n,
{
    let m: int = 0x1_0000_0000_0000_0000;
    if n > 0 {
        lemma_counter_value(seed, n - 1);
        let before = seed + (n - 1) * GOLDEN;
        assert(seed + n * GOLDEN == before + GOLDEN) by (nonlinear_arith)
            requires
                before == seed + (n - 1) * GOLDEN,
        ;
        vstd::arithmetic::div_mod::lemma_fundamental_div_mod(before, m);
        let w = counter(seed, n - 1) as int;
        if w + GOLDEN >= m {
            vstd::arithmetic::div_mod::lemma_fundamental_div_mod_converse(
                before + GOLDEN,
                m,
                before / m + 1,
                w + GOLDEN - m,
            );
        } else {
            vstd::arithmetic::div_mod::lemma_fundamental_div_mod_converse(
                before + GOLDEN,
                m,
                before / m,
                w + GOLDEN,
            );
        }
    } else {
        assert(0 * GOLDEN == 0);
    }
}

/// The counter goes up by the same step, modulo `2^64`.
pub proof fn law_counter(seed: u64, n: int)
    requires
        0 <= n,
    ensures
        counter(seed, n) == (seed + n * 0x9e3779b97f4a7c15) % 0x1_0000_0000_0000_0000,
{
    lemma_counter_value(seed, n);
}

/// The counter value that a word was scattered from.
pub open spec fn gathered(word: u64) -> u64 {
    let y = word ^ (word >> 31) ^ (word >> 62);
    let x = y.wrapping_mul(0x319642b2d24d8ec3);
    let w = x ^ (x >> 27) ^ (x >> 54);
    let v = w.wrapping_mul(0x96de1b173f119089);
    v ^ (v >> 30) ^ (v >> 60)
}

proof fn lemma_times_back(x: u64, c: u64, inverse: u64, t: int)
    requires
        c * inverse == 1 + t * 0x1_0000_0000_0000_0000,
    ensures
        x.wrapping_mul(c).wrapping_mul(inverse) == x,
{
    let m: int = 0x1_0000_0000_0000_0000;
    let p = x * c;
    let r = p % m;
    vstd::arithmetic::div_mod::lemma_fundamental_div_mod(p, m);
    let q = x * t - (p / m) * inverse;
    assert(r * inverse == m * q + x) by (nonlinear_arith)
        requires
            p == x * c,
            p == m * (p / m) + r,
            c * inverse == 1 + t * m,
            q == x * t - (p / m) * inverse,
    ;
    vstd::arithmetic::div_mod::lemma_mod_multiples_vanish(q, x as int, m);
    vstd::arithmetic::div_mod::lemma_small_mod(x as nat, m as nat);
}

/// Scattering can be undone: the counter value comes back from the word.
pub proof fn law_scattering_is_undone(x: u64)
    ensures
        gathered(scattered(x)) == x,
{
    let x0 = x ^ (x >> 30);
    let x1 = x0.wrapping_mul(0xbf58476d1ce4e5b9);
    let x2 = x1 ^ (x1 >> 27);
    let x3 = x2.wrapping_mul(0x94d049bb133111eb);
    let x4 = x3 ^ (x3 >> 31);
    assert(x4 ^ (x4 >> 31) ^ (x4 >> 62) == x3 && x2 ^ (x2 >> 27) ^ (x2 >> 54) == x1 && x0 ^ (x0
        >> 30) ^ (x0 >> 60) == x) by (bit_vector)
        requires
            x4 == x3 ^ (x3 >> 31),
            x2 == x1 ^ (x1 >> 27),
            x0 == x ^ (x >> 30),
    ;
    lemma_times_back(x2, 0x94d049bb133111eb, 0x319642b2d24d8ec3, 2077064247507883091);
    lemma_times_back(x0, 0xbf58476d1ce4e5b9, 0x96de1b173f119089, 8125545580553827436);
}

/// Scattering loses nothing: different counter values give different words.
pub proof fn law_scattering_is_injective(x: u64, y: u64)
    requires
        scattered(x) == scattered(y),
    ensures
        x == y,
{
    law_scattering_is_undone(x);
    law_scattering_is_undone(y);
}

proof fn lemma_counter_injective(seed: u64, i: int, j: int)
    requires
        0 <= i < 0x1_0000_0000_0000_0000,
        0 <= j < 0x1_0000_0000_0000_0000,
        counter(seed, i) == counter(seed, j),
    ensures
        i == j,
{
    let m: int = 0x1_0000_0000_0000_0000;
    lemma_counter_value(seed, i);
    lemma_counter_value(seed, j);
    let (a, b) = (i * GOLDEN, j * GOLDEN);
    assert(a % m == b % m) by {
        vstd::arithmetic::div_mod::lemma_fundamental_div_mod(seed + a, m);
        vstd::arithmetic::div_mod::lemma_fundamental_div_mod(seed + b, m);
        vstd::arithmetic::div_mod::lemma_fundamental_div_mod(b, m);
        let k = (seed + a) / m - (seed + b) / m;
        assert(a == b + k * m) by (nonlinear_arith)
            requires
                seed + a == m * ((seed + a) / m) + (seed + a) % m,
                seed + b == m * ((seed + b) / m) + (seed + b) % m,
                (seed + a) % m == (seed + b) % m,
                k == (seed + a) / m - (seed + b) / m,
        ;
        vstd::arithmetic::div_mod::lemma_mod_multiples_vanish(k, b, m);
        assert(m * k + b == a) by (nonlinear_arith)
            requires
                a == b + k * m,
        ;
    }
    lemma_unit_times(i, j, GOLDEN as int, 0xf1de83e19937733d, 10771413168148108919);
}

/// Word `i` of state `s` for a seed.
pub open spec fn input_word(seed: u64, s: int, i: int) -> u64 {
    scattered(counter(seed, 25 * s + i + 1))
}

/// The three states for a seed.
pub open spec fn input_states(seed: u64) -> Seq<Seq<u64>> {
    Seq::new(3, |s: int| Seq::new(25, |i: int| input_word(seed, s, i)))
}

/// The states for a seed are one stream: gathered in order, their words are the counter's
/// values from the first step on.
pub proof fn law_states_are_one_stream(seed: u64, s: int, i: int)
    requires
        0 <= s < 3,
        0 <= i < 25,
    ensures
        input_states(seed).len() == 3,
        input_states(seed)[s].len() == 25,
        gathered(input_states(seed)[s][i]) == (seed + (25 * s + i + 1) * 0x9e3779b97f4a7c15)
            % 0x1_0000_0000_0000_0000,
{
    law_scattering_is_undone(counter(seed, 25 * s + i + 1));
    law_counter(seed, 25 * s + i + 1);
}

/// No word occurs twice in the states for a seed.
pub proof fn law_input_words_are_distinct(seed: u64, s: int, i: int, t: int, j: int)
    requires
        0 <= s < 3,
        0 <= t < 3,
        0 <= i < 25,
        0 <= j < 25,
        (s, i) != (t, j),
    ensures
        input_word(seed, s, i) != input_word(seed, t, j),
{
    if input_word(seed, s, i) == input_word(seed, t, j) {
        law_scattering_is_injective(
            counter(seed, 25 * s + i + 1),
            counter(seed, 25 * t + j + 1),
        );
        lemma_counter_injective(seed, 25 * s + i + 1, 25 * t + j + 1);
    }
}

fn scatter(word: u64) -> (r: u64)
    ensures
        r == scattered(word),
{
    let x = (word ^ (word >> 30)).wrapping_mul(0xbf58476d1ce4e5b9);
    let y = (x ^ (x >> 27)).wrapping_mul(0x94d049bb133111eb);
    y ^ (y >> 31)
}

/// The lanes scattered from the counter values after `start`.
fn lanes_from(word: &mut u64, Ghost(seed): Ghost<u64>, Ghost(start): Ghost<int>) -> (lanes: Lanes)
    requires
        0 <= start,
        *old(word) == counter(seed, start),
    ensures
        *final(word) == counter(seed, start + 25),
        lanes@ == Seq::new(25, |i: int| scattered(counter(seed, start + i + 1))),
{
    let mut lanes: Lanes = [0; 25];
    let mut i: usize = 0;
    while i < 25
        invariant
            i <= 25,
            0 <= start,
            *word == counter(seed, start + i),
            forall|j: int| 0 <= j < i ==> lanes@[j] == scattered(counter(seed, start + j + 1)),
        decreases 25 - i,
    {
        *word = (*word).wrapping_add(GOLDEN);
        lanes[i] = scatter(*word);
        i = i + 1;
    }
    assert(lanes@ =~= Seq::new(25, |i: int| scattered(counter(seed, start + i + 1))));
    lanes
}

/// Three states of scattered lanes, which depend on the seed alone.
pub fn inputs(seed: u64) -> (lanes: [Lanes; 3])
    ensures
        block_lanes(lanes) == input_states(seed),
{
    let mut word = seed;
    let first = lanes_from(&mut word, Ghost(seed), Ghost(0));
    let second = lanes_from(&mut word, Ghost(seed), Ghost(25));
    let third = lanes_from(&mut word, Ghost(seed), Ghost(50));
    let lanes = [first, second, third];
    assert forall|s: int| 0 <= s < 3 implies #[trigger] block_lanes(lanes)[s] == input_states(
        seed,
    )[s] by {
        assert(lanes@[s]@ =~= input_states(seed)[s]);
    }
    assert(block_lanes(lanes) =~= input_states(seed));
    lanes
}

/// Element `i` of a pattern: a multiple of the golden step, and a complement.
pub open spec fn pattern(i: int, low_shift: u64, high_shift: u64) -> F128 {
    pack_words(
        ((i + low_shift) as u64).wrapping_mul(GOLDEN),
        !((i + high_shift) as u64),
    )
}

/// The low word of an element counts up in golden steps, modulo `2^64`, and its high word
/// counts down from the largest word.
pub proof fn law_pattern(i: int, low_shift: u64, high_shift: u64)
    requires
        0 <= i,
        i + low_shift <= u64::MAX,
        i + high_shift <= u64::MAX,
    ensures
        pattern(i, low_shift, high_shift).bits == ((i + low_shift) * 0x9e3779b97f4a7c15)
            % 0x1_0000_0000_0000_0000 + 0x1_0000_0000_0000_0000 * (0xffff_ffff_ffff_ffff - i
            - high_shift),
{
    let high = (i + high_shift) as u64;
    assert(!high == 0xffff_ffff_ffff_ffffu64 - high) by (bit_vector);
    crate::field::law_word_pair(((i + low_shift) as u64).wrapping_mul(GOLDEN), !high);
}

fn pattern_of(n: usize, low_shift: u64, high_shift: u64) -> (v: Vec<F128>)
    requires
        n + low_shift <= u64::MAX,
        n + high_shift <= u64::MAX,
    ensures
        v@ == Seq::new(n as nat, |i: int| pattern(i, low_shift, high_shift)),
{
    let mut v: Vec<F128> = Vec::new();
    let mut i: usize = 0;
    while i < n
        invariant
            i <= n,
            n + low_shift <= u64::MAX,
            n + high_shift <= u64::MAX,
            v@ == Seq::new(i as nat, |j: int| pattern(j, low_shift, high_shift)),
        decreases n - i,
    {
        v.push(F128::new((i as u64 + low_shift).wrapping_mul(GOLDEN), !(i as u64 + high_shift)));
        i = i + 1;
        assert(v@ =~= Seq::new(i as nat, |j: int| pattern(j, low_shift, high_shift)));
    }
    v
}

/// `n` distinct looking elements.
pub fn values(n: usize) -> (v: Vec<F128>)
    requires
        n + 31 <= u64::MAX,
    ensures
        v@ == Seq::new(n as nat, |i: int| pattern(i, 17, 31)),
{
    pattern_of(n, 17, 31)
}

/// A witness of `2^log_n` elements.
pub fn fixture(log_n: usize, shift: u64) -> (witness: Vec<F128>)
    requires
        pow2(log_n as nat) <= usize::MAX,
        pow2(log_n as nat) + shift <= u64::MAX,
    ensures
        witness@ == Seq::new(pow2(log_n as nat), |i: int| pattern(i, shift, 0)),
{
    pattern_of(power_of_two(log_n), shift, 0)
}

/// The claim of a witness at a point.
pub fn claim_at(w: &[F128], point: Vec<F128>) -> (claim: PackedDirectClaim)
    requires
        w@.len() == pow2(point@.len()),
    ensures
        claim.point == point,
        claim.eq_ind@ == eq_table(point@),
        claim.value == extension(w@, point@),
{
    let len = w.len();
    assert(len == pow2(point@.len()));
    let eq_ind = build_eq(point.as_slice());
    assert(eq_ind@ =~= eq_table(point@));
    let value = compute_inner(w, eq_ind.as_slice());
    PackedDirectClaim { point, value, eq_ind }
}

/// The claim of a witness of `2^log` elements at a patterned point. In the sparse
/// case the first coordinate is zero and the last one is one, so that three
/// quarters of the table vanish.
pub fn direct(w: &[F128], log: usize, sparse: bool) -> (claim: PackedDirectClaim)
    requires
        w@.len() == pow2(log as nat),
        log >= 1,
        log + 31 <= u64::MAX,
    ensures
        claim.point@ == ({
            let point = Seq::new(log as nat, |i: int| pattern(i, 17, 31));
            if sparse {
                point.update(0, F128::zero()).update(log - 1, F128::one())
            } else {
                point
            }
        }),
        claim.eq_ind@ == eq_table(claim.point@),
        claim.value == extension(w@, claim.point@),
{
    let mut point = values(log);
    if sparse {
        point.set(0, F128::zero());
        point.set(log - 1, F128::one());
    }
    claim_at(w, point)
}

/// One step of a shift register.
pub open spec fn register_step(x: u64) -> u64 {
    let a = x ^ (x << 13);
    let b = a ^ (a >> 7);
    b ^ (b << 17)
}

/// The shift register after `n` steps from `seed`.
pub open spec fn register(seed: u64, n: int) -> u64
    decreases n,
{
    if n <= 0 {
        seed
    } else {
        register_step(register(seed, n - 1))
    }
}

/// The register's state before a step.
pub open spec fn register_back(x: u64) -> u64 {
    let b = x ^ (x << 17) ^ (x << 34) ^ (x << 51);
    let a = b ^ (b >> 7) ^ (b >> 14) ^ (b >> 21) ^ (b >> 28) ^ (b >> 35) ^ (b >> 42) ^ (b >> 49) ^ (
    b >> 56) ^ (b >> 63);
    a ^ (a << 13) ^ (a << 26) ^ (a << 39) ^ (a << 52)
}

/// Every step of the register can be undone.
pub proof fn law_register_goes_back(x: u64)
    ensures
        register_back(register_step(x)) == x,
{
    assert(register_back(register_step(x)) == x) by (bit_vector);
}

/// Whether bit `x` of the padded stream of a seed is set: if the register sets it
/// and it is useful.
pub open spec fn padded_bit(seed: u64, padding: PaddingSpec, x: int) -> bool {
    &&& bit_of(register(seed, x / 8 + 1) as u8, x % 8)
    &&& x % (pow2(padding.k_log as nat) as int) < padding.useful_bits_per_block
}

proof fn lemma_register_shifts(seed: u64, n: int)
    requires
        0 <= n,
    ensures
        register(register_step(seed), n) == register(seed, n + 1),
    decreases n,
{
    if n > 0 {
        lemma_register_shifts(seed, n - 1);
    } else {
        assert(register(seed, 1) == register_step(register(seed, 0)));
    }
}

/// A padded stream is the stream of its register, a byte for every step, without the bits that
/// are not useful: its first byte is that of the first step, and the stream from the second
/// byte on is the stream of the register one step later.
pub proof fn law_padded_stream(seed: u64, padding: PaddingSpec, x: int)
    requires
        0 <= x,
    ensures
        x % (pow2(padding.k_log as nat) as int) >= padding.useful_bits_per_block ==> !padded_bit(
            seed,
            padding,
            x,
        ),
        x % (pow2(padding.k_log as nat) as int) < padding.useful_bits_per_block && x < 8 ==> (
        padded_bit(seed, padding, x) <==> bit_of(register_step(seed) as u8, x)),
        x % (pow2(padding.k_log as nat) as int) < padding.useful_bits_per_block && (x + 8) % (pow2(
            padding.k_log as nat,
        ) as int) < padding.useful_bits_per_block ==> (padded_bit(seed, padding, x + 8)
            <==> padded_bit(register_step(seed), padding, x)),
{
    assert(register(seed, 1) == register_step(register(seed, 0)));
    assert((x + 8) / 8 == x / 8 + 1 && (x + 8) % 8 == x % 8);
    lemma_register_shifts(seed, x / 8 + 1);
}

proof fn lemma_clear_bit(byte: u8, j: u8)
    requires
        j < 8,
    ensures
        forall|k: int|
            0 <= k < 8 ==> #[trigger] bit_of(byte & !(1u8 << j), k) == (bit_of(byte, k) && k != j),
{
    assert forall|k: int| 0 <= k < 8 implies #[trigger] bit_of(byte & !(1u8 << j), k) == (bit_of(
        byte,
        k,
    ) && k != j) by {
        let i = k as u8;
        assert((((byte & !(1u8 << j)) >> i) & 1u8 == 1u8) == ((byte >> i) & 1u8 == 1u8 && i != j))
            by (bit_vector)
            requires
                i < 8,
                j < 8,
        ;
    }
}

/// The padded stream of a seed, as bytes.
fn padded_stream(bytes: usize, seed: u64, padding: &PaddingSpec) -> (stream: Vec<u8>)
    requires
        8 * bytes <= usize::MAX,
        pow2(padding.k_log as nat) <= usize::MAX,
    ensures
        stream@.len() == bytes,
        forall|x: int|
            0 <= x < 8 * bytes ==> #[trigger] bit_of(stream@[x / 8], x % 8) == padded_bit(
                seed,
                *padding,
                x,
            ),
{
    let period = power_of_two(padding.k_log);
    let mut state = seed;
    let mut stream: Vec<u8> = Vec::new();
    let mut i: usize = 0;
    while i < bytes
        invariant
            i <= bytes,
            8 * bytes <= usize::MAX,
            period == pow2(padding.k_log as nat),
            period >= 1,
            state == register(seed, i as int),
            stream@.len() == i,
            forall|x: int|
                0 <= x < 8 * i ==> #[trigger] bit_of(stream@[x / 8], x % 8) == padded_bit(
                    seed,
                    *padding,
                    x,
                ),
        decreases bytes - i,
    {
        let a = state ^ (state << 13);
        let b = a ^ (a >> 7);
        state = b ^ (b << 17);
        let raw = state as u8;
        let mut byte = raw;
        let mut j: u8 = 0;
        while j < 8
            invariant
                j <= 8,
                i < bytes,
                8 * bytes <= usize::MAX,
                period >= 1,
                forall|k: int|
                    0 <= k < 8 ==> #[trigger] bit_of(byte, k) == (bit_of(raw, k) && (k < j ==> (8
                        * i + k) % (period as int) < padding.useful_bits_per_block)),
            decreases 8 - j,
        {
            if (8 * i + j as usize) % period >= padding.useful_bits_per_block {
                proof {
                    lemma_clear_bit(byte, j);
                }
                byte = byte & !(1u8 << j);
            }
            j = j + 1;
        }
        let ghost before = stream@;
        stream.push(byte);
        proof {
            assert forall|x: int| 0 <= x < 8 * (i + 1) implies #[trigger] bit_of(
                stream@[x / 8],
                x % 8,
            ) == padded_bit(seed, *padding, x) by {
                if x < 8 * i {
                    assert(stream@[x / 8] == before[x / 8]);
                } else {
                    assert(x / 8 == i && x == 8 * i + x % 8);
                    assert(bit_of(byte, x % 8) == (bit_of(raw, x % 8) && (8 * i + x % 8) % (
                    period as int) < padding.useful_bits_per_block));
                }
            }
        }
        i = i + 1;
    }
    stream
}

/// Two padded streams, and their bitwise product.
pub struct PaddedInputs {
    pub a: Vec<u8>,
    pub b: Vec<u8>,
    pub c: Vec<u8>,
    pub padding: PaddingSpec,
}

/// Zerocheck inputs of `2^m` bits whose blocks have `useful` useful bits.
pub fn padded_inputs(m: usize, useful: usize) -> (inputs: PaddedInputs)
    requires
        m >= 3,
        pow2(m as nat) <= usize::MAX,
    ensures
        inputs.padding.k_log == 13,
        inputs.padding.useful_bits_per_block == useful,
        inputs.a@.len() == pow2((m - 3) as nat),
        inputs.b@.len() == pow2((m - 3) as nat),
        inputs.c@.len() == pow2((m - 3) as nat),
        forall|x: int|
            0 <= x < pow2(m as nat) ==> #[trigger] bit_of(inputs.a@[x / 8], x % 8) == padded_bit(
                17,
                inputs.padding,
                x,
            ),
        forall|x: int|
            0 <= x < pow2(m as nat) ==> #[trigger] bit_of(inputs.b@[x / 8], x % 8) == padded_bit(
                571,
                inputs.padding,
                x,
            ),
        forall|i: int|
            0 <= i < inputs.c@.len() ==> #[trigger] inputs.c@[i] == inputs.a@[i] & inputs.b@[i],
{
    let padding = PaddingSpec { k_log: 13, useful_bits_per_block: useful };
    proof {
        vstd::arithmetic::power2::lemma_pow2_adds((m - 3) as nat, 3);
        vstd::arithmetic::power2::lemma2_to64();
    }
    let bytes = power_of_two(m - 3);
    let a = padded_stream(bytes, 17, &padding);
    let b = padded_stream(bytes, 571, &padding);
    let mut c: Vec<u8> = Vec::new();
    let mut i: usize = 0;
    while i < bytes
        invariant
            i <= bytes,
            a@.len() == bytes,
            b@.len() == bytes,
            c@.len() == i,
            forall|j: int| 0 <= j < i ==> #[trigger] c@[j] == a@[j] & b@[j],
        decreases bytes - i,
    {
        c.push(a[i] & b[i]);
        i = i + 1;
    }
    PaddedInputs { a, b, c, padding }
}

} // verus!
