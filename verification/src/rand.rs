//! Linear congruential pseudo-random generator and the traits around it.
//!
//! Every draw is a pure function of the generator state, so a seed determines
//! the whole word sequence; workers each own their generator and never share.

use vstd::prelude::*;
use vstd::arithmetic::div_mod::{lemma_add_mod_noop, lemma_mod_mod};

verus! {

/// Multiplier of the linear congruential generator (the constants Java uses).
pub const LCG_MULTIPLIER: u64 = 0x5DEECE66D;

/// Additive increment of the generator.
pub const LCG_INCREMENT: u64 = 11;

/// The generator state is kept below this 48-bit modulus.
pub const LCG_MODULUS: u64 = 0x1_0000_0000_0000;

/// Successor of a generator state: one congruential step.
pub open spec fn lcg_next_state(s: u64) -> u64 {
    ((s * LCG_MULTIPLIER + LCG_INCREMENT) % (LCG_MODULUS as int)) as u64
}

/// The 32-bit word one draw yields: bits 16 and up of the successor state.
pub open spec fn lcg_output(s: u64) -> u32 {
    ((lcg_next_state(s) >> 16) % 0x1_0000_0000) as u32
}

/// State after `n` congruential steps from `s`.
pub open spec fn lcg_state_n(s: u64, n: nat) -> u64
    decreases n,
{
    if n == 0 {
        s
    } else {
        lcg_next_state(lcg_state_n(s, (n - 1) as nat))
    }
}

/// A deterministic source of 32-bit words: each draw is a pure function of an
/// abstract 64-bit state, stated by the two spec functions.
pub trait RandSource: Sized {
    /// The abstract state the next draw is computed from.
    spec fn state(&self) -> u64;

    /// Successor state of one draw.
    spec fn step(s: u64) -> u64;

    /// The word one draw yields from state `s`.
    spec fn word(s: u64) -> u32;

    fn next(&mut self) -> (r: u32)
        ensures
            final(self).state() == Self::step(old(self).state()),
            r == Self::word(old(self).state()),
    ;

}

/// One value of type `R`, drawn from `rng`.
pub fn rand<R: Rand, S: RandSource>(rng: &mut S) -> (r: R)
    ensures
        final(rng).state() == source_state_n::<S>(old(rng).state(), R::draws()),
        r == R::value_of(source_words::<S>(old(rng).state(), R::draws())),
{
    R::get(rng)
}

/// A value derivable from the words of a random source by masking and
/// scaling; `draws` says how many words it takes, `value_of` what they encode.
pub trait Rand: Sized {
    /// How many words one value consumes from the source.
    spec fn draws() -> nat;

    /// The value the drawn words encode.
    spec fn value_of(words: Seq<u32>) -> Self;

    fn get<S: RandSource>(rng: &mut S) -> (r: Self)
        ensures
            final(rng).state() == source_state_n::<S>(old(rng).state(), Self::draws()),
            r == Self::value_of(source_words::<S>(old(rng).state(), Self::draws())),
    ;
}

/// Unfoldings of the draw sequence for one and two draws.
pub proof fn lemma_source_unfold<S: RandSource>(s: u64)
    ensures
        source_state_n::<S>(s, 1) == S::step(s),
        source_state_n::<S>(s, 2) == S::step(S::step(s)),
        source_words::<S>(s, 1) == seq![S::word(s)],
        source_words::<S>(s, 2) == seq![S::word(s), S::word(S::step(s))],
{
    assert(source_state_n::<S>(s, 0) == s);
    assert(source_state_n::<S>(s, 1) == S::step(source_state_n::<S>(s, 0)));
    assert(source_state_n::<S>(s, 2) == S::step(source_state_n::<S>(s, 1)));
    assert(source_words::<S>(s, 1) =~= seq![S::word(s)]);
    assert(source_words::<S>(s, 2) =~= seq![S::word(s), S::word(S::step(s))]);
}

impl Rand for bool {
    open spec fn draws() -> nat {
        1
    }

    open spec fn value_of(words: Seq<u32>) -> bool {
        words[0] & 1 == 1
    }

    fn get<S: RandSource>(rng: &mut S) -> (r: bool) {
        let w = rng.next();
        proof {
            lemma_source_unfold::<S>(old(rng).state());
        }
        (w & 1) == 1
    }
}

impl Rand for u8 {
    open spec fn draws() -> nat {
        1
    }

    open spec fn value_of(words: Seq<u32>) -> u8 {
        (words[0] & 0xFF) as u8
    }

    fn get<S: RandSource>(rng: &mut S) -> (r: u8) {
        let w = rng.next();
        proof {
            lemma_source_unfold::<S>(old(rng).state());
            assert(w & 0xFF < 0x100) by (bit_vector);
        }
        (w & 0xFF) as u8
    }
}

impl Rand for u16 {
    open spec fn draws() -> nat {
        1
    }

    open spec fn value_of(words: Seq<u32>) -> u16 {
        (words[0] & 0xFFFF) as u16
    }

    fn get<S: RandSource>(rng: &mut S) -> (r: u16) {
        let w = rng.next();
        proof {
            lemma_source_unfold::<S>(old(rng).state());
            assert(w & 0xFFFF < 0x1_0000) by (bit_vector);
        }
        (w & 0xFFFF) as u16
    }
}

impl Rand for u32 {
    open spec fn draws() -> nat {
        1
    }

    open spec fn value_of(words: Seq<u32>) -> u32 {
        words[0]
    }

    fn get<S: RandSource>(rng: &mut S) -> (r: u32) {
        let w = rng.next();
        proof {
            lemma_source_unfold::<S>(old(rng).state());
        }
        w
    }
}

impl Rand for u64 {
    open spec fn draws() -> nat {
        2
    }

    open spec fn value_of(words: Seq<u32>) -> u64 {
        (words[0] + words[1] * 0x1_0000_0000) as u64
    }

    fn get<S: RandSource>(rng: &mut S) -> (r: u64) {
        let a = rng.next();
        let b = rng.next();
        proof {
            lemma_source_unfold::<S>(old(rng).state());
        }
        u64_from_u32s(a, b)
    }
}

impl Rand for i8 {
    open spec fn draws() -> nat {
        1
    }

    open spec fn value_of(words: Seq<u32>) -> i8 {
        let m = words[0] & 0xFF;
        if m < 0x80 {
            m as i8
        } else {
            (m - 0x100) as i8
        }
    }

    fn get<S: RandSource>(rng: &mut S) -> (r: i8) {
        let w = rng.next();
        proof {
            lemma_source_unfold::<S>(old(rng).state());
            assert(w & 0xFF < 0x100) by (bit_vector);
        }
        let m = w & 0xFF;
        if m < 0x80 {
            m as i8
        } else {
            ((m as i16) - 0x100) as i8
        }
    }
}

impl Rand for i16 {
    open spec fn draws() -> nat {
        1
    }

    open spec fn value_of(words: Seq<u32>) -> i16 {
        let m = words[0] & 0xFFFF;
        if m < 0x8000 {
            m as i16
        } else {
            (m - 0x1_0000) as i16
        }
    }

    fn get<S: RandSource>(rng: &mut S) -> (r: i16) {
        let w = rng.next();
        proof {
            lemma_source_unfold::<S>(old(rng).state());
            assert(w & 0xFFFF < 0x1_0000) by (bit_vector);
        }
        let m = w & 0xFFFF;
        if m < 0x8000 {
            m as i16
        } else {
            ((m as i32) - 0x1_0000) as i16
        }
    }
}

impl Rand for i32 {
    open spec fn draws() -> nat {
        1
    }

    open spec fn value_of(words: Seq<u32>) -> i32 {
        if words[0] < 0x8000_0000 {
            words[0] as i32
        } else {
            (words[0] - 0x1_0000_0000) as i32
        }
    }

    fn get<S: RandSource>(rng: &mut S) -> (r: i32) {
        let w = rng.next();
        proof {
            lemma_source_unfold::<S>(old(rng).state());
        }
        if w < 0x8000_0000 {
            w as i32
        } else {
            ((w as i64) - 0x1_0000_0000) as i32
        }
    }
}

impl Rand for i64 {
    open spec fn draws() -> nat {
        2
    }

    open spec fn value_of(words: Seq<u32>) -> i64 {
        let v = (words[0] + words[1] * 0x1_0000_0000) as u64;
        if v < 0x8000_0000_0000_0000 {
            v as i64
        } else {
            (v - 0x1_0000_0000_0000_0000) as i64
        }
    }

    fn get<S: RandSource>(rng: &mut S) -> (r: i64) {
        let a = rng.next();
        let b = rng.next();
        proof {
            lemma_source_unfold::<S>(old(rng).state());
        }
        let v = u64_from_u32s(a, b);
        if v < 0x8000_0000_0000_0000 {
            v as i64
        } else {
            i64::MIN + ((v - 0x8000_0000_0000_0000) as i64)
        }
    }
}

/// State after `n` draws from a source of type `S`.
pub open spec fn source_state_n<S: RandSource>(s: u64, n: nat) -> u64
    decreases n,
{
    if n == 0 {
        s
    } else {
        S::step(source_state_n::<S>(s, (n - 1) as nat))
    }
}

/// The `n` words a source of type `S` draws from state `s`.
pub open spec fn source_words<S: RandSource>(s: u64, n: nat) -> Seq<u32> {
    Seq::new(n, |i: int| S::word(source_state_n::<S>(s, i as nat)))
}

/// The congruential generator itself: a 64-bit state advanced per draw.
#[derive(Debug, Clone, Copy)]
pub struct Lcg {
    state: u64,
}

impl View for Lcg {
    type V = u64;

    closed spec fn view(&self) -> u64 {
        self.state
    }
}

impl Lcg {
    /// A generator seeded from the system clock: two sub-second clock
    /// readings combined into one seed and stirred as `from_seed` does.
    pub fn from_time() -> (r: Lcg)
        ensures
            exists|a: u32, b: u32|
                a < 1_000_000_000 && b < 1_000_000_000 && r@ == #[trigger] lcg_state_n(
                    (a + b * 0x1_0000_0000) as u64,
                    3,
                ),
    {
        let a = sysnanos();
        let b = sysnanos();
        let r = Lcg::from_seed(u64_from_u32s(a, b));
        proof {
            assert(r@ == lcg_state_n((a + b * 0x1_0000_0000) as u64, 3));
        }
        r
    }

    /// A generator seeded with `seed`; the seed is stirred by three draws.
    pub fn from_seed(seed: u64) -> (r: Lcg)
        ensures
            r@ == lcg_state_n(seed, 3),
    {
        let mut lcg = Lcg { state: seed };
        lcg.next();
        lcg.next();
        lcg.next();
        assert(lcg@ == lcg_state_n(seed, 3)) by {
            assert(lcg_state_n(seed, 0) == seed);
            assert(lcg_state_n(seed, 1) == lcg_next_state(lcg_state_n(seed, 0)));
            assert(lcg_state_n(seed, 2) == lcg_next_state(lcg_state_n(seed, 1)));
            assert(lcg_state_n(seed, 3) == lcg_next_state(lcg_state_n(seed, 2)));
        }
        lcg
    }

    #[verifier::rlimit(50)]
    fn advance_state(&mut self)
        ensures
            final(self).state == lcg_next_state(old(self).state),
    {
        let s = self.state;
        let t1 = s.wrapping_mul(LCG_MULTIPLIER);
        let t2 = t1.wrapping_add(LCG_INCREMENT);
        self.state = t2 % LCG_MODULUS;
        proof {
            let wide: int = 0x1_0000_0000_0000_0000int;
            let x: int = s * LCG_MULTIPLIER;
            assert(t1 == x % wide);
            assert(t2 == ((x % wide) + LCG_INCREMENT) % wide);
            lemma_wrapped_step_reduces(x);
            assert(self.state == (x + LCG_INCREMENT) % (LCG_MODULUS as int));
        }
    }
}

impl RandSource for Lcg {
    open spec fn state(&self) -> u64 {
        self@
    }

    open spec fn step(s: u64) -> u64 {
        lcg_next_state(s)
    }

    open spec fn word(s: u64) -> u32 {
        lcg_output(s)
    }

    fn next(&mut self) -> (r: u32) {
        self.advance_state();
        ((self.state >> 16) % 0x1_0000_0000) as u32
    }
}

/// Wrapping 64-bit arithmetic does not disturb a result taken modulo the
/// generator modulus, because the modulus divides 2^64.
proof fn lemma_wrapped_step_reduces(x: int)
    ensures
        (((x % 0x1_0000_0000_0000_0000int) + LCG_INCREMENT) % 0x1_0000_0000_0000_0000int) % (
        LCG_MODULUS as int) == (x + LCG_INCREMENT) % (LCG_MODULUS as int),
{
    let wide: int = 0x1_0000_0000_0000_0000int;
    let q: int = LCG_MODULUS as int;
    assert((LCG_INCREMENT as int) % wide == 11);
    lemma_add_mod_noop(x, LCG_INCREMENT as int, wide);
    assert(((x % wide) + LCG_INCREMENT) % wide == (x + LCG_INCREMENT) % wide);
    assert(q * 0x1_0000 == wide);
    lemma_mod_mod(x + LCG_INCREMENT, q, 0x1_0000);
    assert((x + LCG_INCREMENT) % (q * 0x1_0000) == (x + LCG_INCREMENT) % wide);
}

/// Generators in equal states draw the same words through the same states,
/// so two generators seeded alike yield identical word sequences.
pub proof fn lemma_lcg_deterministic(a: Lcg, b: Lcg, n: nat)
    requires
        a@ == b@,
    ensures
        forall|i: nat| i <= n ==> lcg_state_n(a@, i) == lcg_state_n(b@, i),
        forall|i: nat| i <= n ==> lcg_output(lcg_state_n(a@, i)) == lcg_output(lcg_state_n(b@, i)),
{
}

/// Relies on std::time::SystemTime::now and Duration::subsec_nanos: the
/// sub-second part of the clock reading, which is under a billion; a clock
/// before the epoch reads as zero.
#[verifier::external_body]
pub fn sysnanos() -> (r: u32)
    ensures
        r < 1_000_000_000,
{
    std::time::SystemTime::now()
        .duration_since(std::time::UNIX_EPOCH)
        .map(|d| d.subsec_nanos())
        .unwrap_or(0)
}

fn u64_from_u32s(a: u32, b: u32) -> (r: u64)
    ensures
        r == a + b * 0x1_0000_0000,
{
    let r = (a as u64) | ((b as u64) << 32u64);
    assert(r == a + b * 0x1_0000_0000) by (bit_vector)
        requires
            r == (a as u64) | ((b as u64) << 32u64),
    ;
    r
}

} // verus!
