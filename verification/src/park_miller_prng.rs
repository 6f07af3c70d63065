//! The Park-Miller generator that produces the spreading key.
//!
//! The generator is a multiplicative congruential sequence modulo the
//! Mersenne prime 2^31 - 1. Every step emits one chip, +1 or -1, by
//! comparing the new state, scaled into the unit interval, with one half.

use crate::clock::micros_since_epoch;
use vstd::prelude::*;

verus! {

/// Multiplier of the congruential update.
pub const MULTIPLIER: i64 = 16807;

/// Modulus of the congruential update, 2^31 - 1.
pub const MODULUS: i64 = 2147483647;

/// Number of distinct states a generator can start from.
pub const SEED_SPACE: u128 = 100;

/// Numerator of the bias added to the scaled state before it is compared
/// with one half; the denominator is `BIAS_DENOMINATOR`.
pub const BIAS_NUMERATOR: i64 = 233;

/// Denominator of the bias, 10^12.
pub const BIAS_DENOMINATOR: i64 = 1_000_000_000_000;

/// Smallest state whose chip is +1.
pub const CHIP_THRESHOLD: i64 = 1073741823;

/// One update of the state.
pub open spec fn lehmer_step(state: int) -> int {
    (state * MULTIPLIER as int) % (MODULUS as int)
}

/// The state reached from `state` by `steps` updates.
pub open spec fn state_after(state: int, steps: nat) -> int
    decreases steps,
{
    if steps == 0 {
        state
    } else {
        lehmer_step(state_after(state, (steps - 1) as nat))
    }
}

/// The chip read off a state: +1 where `state / MODULUS + BIAS` exceeds one
/// half, -1 otherwise. The comparison is written over integers, both sides
/// multiplied by `2 * MODULUS * BIAS_DENOMINATOR`.
pub open spec fn chip_of(state: int) -> int {
    if 2 * (BIAS_DENOMINATOR as int * state + BIAS_NUMERATOR as int * MODULUS as int)
        > BIAS_DENOMINATOR as int * MODULUS as int {
        1
    } else {
        -1
    }
}

/// The first `count` chips that a generator in state `state` emits.
pub open spec fn key_from(state: int, count: nat) -> Seq<i16> {
    Seq::new(count, |i: int| chip_of(state_after(state, (i + 1) as nat)) as i16)
}

/// Whether every element of a key is +1 or -1.
pub open spec fn is_spreading_key(key: Seq<i16>) -> bool {
    forall|i: int| 0 <= i < key.len() ==> key[i] == 1 || key[i] == -1
}

/// A chip is +1 exactly from `CHIP_THRESHOLD` upwards.
pub proof fn lemma_chip_threshold(state: int)
    ensures
        chip_of(state) == 1 <==> state >= CHIP_THRESHOLD,
        chip_of(state) == 1 || chip_of(state) == -1,
{
}

/// A generator of spreading keys. Its state stays in `0 .. MODULUS`.
pub struct ParkMiller {
    state: i64,
}

impl ParkMiller {
    #[verifier::type_invariant]
    spec fn state_in_range(self) -> bool {
        0 <= self.state < MODULUS
    }

    /// The current state.
    pub closed spec fn state(&self) -> int {
        self.state as int
    }

    /// A generator whose first state is `seed` reduced modulo `SEED_SPACE`.
    pub fn with_seed(seed: u128) -> (generator: ParkMiller)
        ensures
            generator.state() == seed as int % SEED_SPACE as int,
    {
        let reduced: u128 = seed % SEED_SPACE;
        ParkMiller { state: reduced as i64 }
    }

    /// A generator seeded from the wall clock: the microseconds since the
    /// start of 1970, reduced modulo `SEED_SPACE`. A clock that reads earlier
    /// than 1970 seeds it with 0.
    ///
    /// The reduction leaves `SEED_SPACE` starting states, so a key made this
    /// way is one of that many: it keeps nothing from someone who tries
    /// them all.
    pub fn new() -> (generator: ParkMiller)
        ensures
            0 <= generator.state() < SEED_SPACE,
    {
        ParkMiller::from_reading(micros_since_epoch())
    }

    /// A generator seeded from a reading of the clock in microseconds since
    /// the start of 1970, `None` standing for a clock that reads earlier: it
    /// starts in `seed_state(reading)`.
    pub fn from_reading(reading: Option<u128>) -> (generator: ParkMiller)
        ensures
            generator.state() == seed_state(reading),
    {
        match reading {
            Some(micros) => ParkMiller::with_seed(micros),
            None => ParkMiller::with_seed(0),
        }
    }

    /// Advances the state by one update and returns the chip of the new state.
    pub fn next(&mut self) -> (chip: i16)
        ensures
            final(self).state() == lehmer_step(old(self).state()),
            chip as int == chip_of(final(self).state()),
    {
        proof {
            use_type_invariant(&*self);
            lemma_chip_threshold(lehmer_step(self.state as int));
        }
        let product: i64 = self.state * MULTIPLIER;
        self.state = product % MODULUS;
        if self.state >= CHIP_THRESHOLD {
            1
        } else {
            -1
        }
    }

    /// Emits the next `num` chips, in the order they are generated.
    pub fn generate_prs(&mut self, num: usize) -> (prs: Vec<i16>)
        ensures
            prs@ == key_from(old(self).state(), num as nat),
            final(self).state() == state_after(old(self).state(), num as nat),
            is_spreading_key(prs@),
    {
        let ghost start: int = self.state();
        let mut prs: Vec<i16> = Vec::new();
        let mut produced: usize = 0;
        while produced < num
            invariant
                produced <= num,
                prs@ == key_from(start, produced as nat),
                self.state() == state_after(start, produced as nat),
            decreases num - produced,
        {
            let chip: i16 = self.next();
            prs.push(chip);
            produced = produced + 1;
            assert(prs@ =~= key_from(start, produced as nat));
        }
        proof {
            lemma_key_is_spreading(start, num as nat);
        }
        prs
    }
}

/// The state that a generator seeded from the clock starts in: the reading
/// reduced modulo `SEED_SPACE`, and 0 where there is no reading.
pub open spec fn seed_state(reading: Option<u128>) -> int {
    match reading {
        Some(micros) => micros as int % SEED_SPACE as int,
        None => 0,
    }
}

/// Two runs of updates in a row are one run of their total length.
pub proof fn lemma_state_after_add(state: int, first: nat, second: nat)
    ensures
        state_after(state_after(state, first), second) == state_after(state, first + second),
    decreases second,
{
    if second > 0 {
        lemma_state_after_add(state, first, (second - 1) as nat);
    }
}

/// Generators in the same state emit the same key: the key is a function of
/// the state and the count alone.
pub proof fn lemma_same_state_same_key(one: ParkMiller, other: ParkMiller, count: nat)
    requires
        one.state() == other.state(),
    ensures
        key_from(one.state(), count) == key_from(other.state(), count),
        state_after(one.state(), count) == state_after(other.state(), count),
{
}

/// Asking for `first` chips and then for `second` chips gives the key of
/// `first + second` chips, cut after the first `first`.
pub proof fn lemma_generate_in_two_calls(state: int, first: nat, second: nat)
    ensures
        key_from(state, first) + key_from(state_after(state, first), second)
            == key_from(state, first + second),
        key_from(state, first) == key_from(state, first + second).subrange(0, first as int),
        key_from(state_after(state, first), second)
            == key_from(state, first + second).subrange(first as int, (first + second) as int),
        state_after(state_after(state, first), second) == state_after(state, first + second),
{
    lemma_state_after_add(state, first, second);
    let whole = key_from(state, first + second);
    let head = key_from(state, first);
    let tail = key_from(state_after(state, first), second);
    assert forall|i: int| 0 <= i < second implies tail[i] == whole[first + i] by {
        lemma_state_after_add(state, first, (i + 1) as nat);
    }
    assert(head + tail =~= whole);
    assert(head =~= whole.subrange(0, first as int));
    assert(tail =~= whole.subrange(first as int, (first + second) as int));
}

/// Every key the generator emits is made of +1 and -1.
pub proof fn lemma_key_is_spreading(state: int, count: nat)
    ensures
        is_spreading_key(key_from(state, count)),
{
}

} // verus!
