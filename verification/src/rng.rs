//! A small linear congruential generator and the shuffles derived from it.
//!
//! The generator is deterministic: every draw is a function of the state
//! before it, so the contracts below say exactly which value comes out and
//! which state is left behind.

use std::time::UNIX_EPOCH;
use vstd::arithmetic::div_mod::{
    lemma_add_mod_noop, lemma_mod_sub_multiples_vanish, lemma_small_mod,
};
use vstd::prelude::*;

verus! {

/// Multiplier of the recurrence.
pub const MULTIPLIER: u64 = 6364136223846793005;

/// Increment of the recurrence.
pub const INCREMENT: u64 = 1442695040888963407;

/// The state that follows `state`: `state * MULTIPLIER + INCREMENT` modulo 2^64.
pub open spec fn next_state(state: u64) -> u64 {
    ((state as int * MULTIPLIER as int + INCREMENT as int) % 0x1_0000_0000_0000_0000) as u64
}

/// The value drawn from a state: its high 32 bits.
pub open spec fn output(state: u64) -> u32 {
    (state as int / 0x1_0000_0000) as u32
}

/// The state reached from `state` after `draws` draws.
pub open spec fn state_after(state: u64, draws: nat) -> u64
    decreases draws,
{
    if draws == 0 {
        state
    } else {
        state_after(next_state(state), (draws - 1) as nat)
    }
}

/// The seed that a reading of the clock gives: the low 64 bits of the
/// nanoseconds since the Unix epoch, or 0 where the clock stands before the
/// epoch and there is no such number.
pub open spec fn clock_seed(reading: Option<u128>) -> u64 {
    match reading {
        Some(nanos) => (nanos as int % 0x1_0000_0000_0000_0000) as u64,
        None => 0,
    }
}

/// `s` with the items at positions `i` and `j` exchanged.
pub open spec fn swapped<E>(s: Seq<E>, i: int, j: int) -> Seq<E> {
    s.update(i, s[j]).update(j, s[i])
}

/// The Fisher-Yates shuffle of the first `i + 1` items of `s`, driven by the
/// draws that follow `state`: position `i` is exchanged with a drawn position
/// in `0..=i`, then the same is done for `i - 1`, down to position 1.
pub open spec fn shuffled_from<E>(s: Seq<E>, state: u64, i: int) -> Seq<E>
    decreases i,
{
    if i <= 0 {
        s
    } else {
        let drawn = next_state(state);
        let j = output(drawn) as int % (i + 1);
        shuffled_from(swapped(s, i, j), drawn, i - 1)
    }
}

/// The Fisher-Yates shuffle of the whole of `s`, driven by the draws that
/// follow `state`.
pub open spec fn shuffled<E>(s: Seq<E>, state: u64) -> Seq<E> {
    shuffled_from(s, state, s.len() - 1)
}

/// The number of draws that shuffling `len` items takes.
pub open spec fn shuffle_draws(len: nat) -> nat {
    if len == 0 {
        0
    } else {
        (len - 1) as nat
    }
}

/// Exchanging two items keeps the items, each as often as before.
pub proof fn lemma_swapped_keeps_items<E>(s: Seq<E>, i: int, j: int)
    requires
        0 <= i < s.len(),
        0 <= j < s.len(),
    ensures
        swapped(s, i, j).len() == s.len(),
        swapped(s, i, j).to_multiset() == s.to_multiset(),
{
    broadcast use vstd::seq_lib::group_to_multiset_ensures;

    let a = s.update(i, s[j]);
    assert(a.to_multiset() =~= s.to_multiset().insert(s[j]).remove(s[i]));
    assert(a.update(j, s[i]).to_multiset() =~= a.to_multiset().insert(s[i]).remove(a[j]));
    assert(a[j] == s[j]);
    assert(swapped(s, i, j).to_multiset() =~= s.to_multiset());
}

/// A shuffle keeps the items, each as often as before.
pub proof fn lemma_shuffled_keeps_items<E>(s: Seq<E>, state: u64, i: int)
    requires
        i < s.len(),
    ensures
        shuffled_from(s, state, i).len() == s.len(),
        shuffled_from(s, state, i).to_multiset() == s.to_multiset(),
    decreases i,
{
    if i > 0 {
        let drawn = next_state(state);
        let j = output(drawn) as int % (i + 1);
        lemma_swapped_keeps_items(s, i, j);
        lemma_shuffled_keeps_items(swapped(s, i, j), drawn, i - 1);
    }
}

/// Drawing once more after `draws` draws is the same as drawing `draws + 1` times.
pub proof fn lemma_state_after_step(state: u64, draws: nat)
    ensures
        next_state(state_after(state, draws)) == state_after(state, draws + 1),
    decreases draws,
{
    if draws > 0 {
        lemma_state_after_step(next_state(state), (draws - 1) as nat);
        assert(state_after(state, draws + 1) == state_after(next_state(state), draws));
    } else {
        assert(state_after(state, 1) == state_after(next_state(state), 0));
    }
}

/// The wrapping multiplication and addition of one step give the state that
/// the recurrence defines.
proof fn lemma_wrapping_step(state: u64)
    ensures
        vstd::wrapping::u64_specs::wrapping_add(
            vstd::wrapping::u64_specs::wrapping_mul(state, MULTIPLIER),
            INCREMENT,
        ) == next_state(state),
{
    let modulus: int = 0x1_0000_0000_0000_0000;
    let product: int = state as int * MULTIPLIER as int;
    let low: int = product % modulus;
    let increment: int = INCREMENT as int;
    lemma_add_mod_noop(product, increment, modulus);
    lemma_small_mod(INCREMENT as nat, modulus as nat);
    assert((low + increment) % modulus == (product + increment) % modulus);
    if low + increment < modulus {
        lemma_small_mod((low + increment) as nat, modulus as nat);
    } else {
        lemma_mod_sub_multiples_vanish(low + increment, modulus);
        lemma_small_mod((low + increment - modulus) as nat, modulus as nat);
    }
    assert(vstd::wrapping::u64_specs::wrapping_mul(state, MULTIPLIER) == low);
}

/// `<[T]>::swap` of std: exchanges the items at two positions of a slice and
/// leaves the others where they are. It panics when a position is out of
/// bounds, so both must lie inside the slice.
pub assume_specification<T>[ <[T]>::swap ](slice: &mut [T], a: usize, b: usize)
    requires
        a < old(slice)@.len(),
        b < old(slice)@.len(),
    ensures
        final(slice)@ == swapped(old(slice)@, a as int, b as int),
;

/// `SystemTime::elapsed` of std, asked of the Unix epoch: the time that the
/// system clock shows, as whole nanoseconds since the epoch, or `None` where
/// the clock stands before the epoch. Nothing is promised of the number. It
/// is for targets with a system clock: where std has none to read, reading
/// it panics.
#[verifier::external_body]
fn nanos_since_epoch() -> (nanos: Option<u128>) {
    match UNIX_EPOCH.elapsed() {
        Ok(elapsed) => Some(elapsed.as_nanos()),
        Err(_) => None,
    }
}

/// A linear congruential generator with a 64-bit state.
pub struct Lcg {
    state: u64,
}

impl Lcg {
    /// The state that the next draw starts from.
    pub closed spec fn state(&self) -> u64 {
        self.state
    }

    /// A generator seeded from the system clock: the one that
    /// `from_clock_reading` gives for what the clock shows now. Nothing more
    /// is known of that reading.
    ///
    /// This needs a target with a system clock. Where std has none to read,
    /// pick a seed in another way and start from `new_with_seed`.
    pub fn new() -> (rng: Lcg)
        ensures
            exists|reading: Option<u128>| rng.state() == clock_seed(reading),
    {
        Lcg::from_clock_reading(nanos_since_epoch())
    }

    /// A generator seeded from a reading of the clock, given as nanoseconds
    /// since the Unix epoch: it starts from the low 64 bits of that number,
    /// or from 0 where there is none.
    pub fn from_clock_reading(reading: Option<u128>) -> (rng: Lcg)
        ensures
            rng.state() == clock_seed(reading),
    {
        match reading {
            Some(nanos) => {
                assert(nanos & 0xFFFF_FFFF_FFFF_FFFF == nanos % 0x1_0000_0000_0000_0000)
                    by (bit_vector);
                Lcg::new_with_seed((nanos & 0xFFFF_FFFF_FFFF_FFFF) as u64)
            },
            None => Lcg::new_with_seed(0),
        }
    }

    /// A generator that starts from `seed`.
    pub fn new_with_seed(seed: u64) -> (rng: Lcg)
        ensures
            rng.state() == seed,
    {
        Lcg { state: seed }
    }

    /// Advances the state by one step of the recurrence and returns the high
    /// 32 bits of the new state.
    pub fn next_u32(&mut self) -> (value: u32)
        ensures
            final(self).state() == next_state(old(self).state()),
            value == output(final(self).state()),
    {
        proof {
            lemma_wrapping_step(self.state);
        }
        let product: u64 = self.state.wrapping_mul(MULTIPLIER);
        self.state = product.wrapping_add(INCREMENT);
        let state: u64 = self.state;
        assert(state >> 32 == state / 0x1_0000_0000) by (bit_vector);
        (state >> 32) as u32
    }

    /// A value in `min..max`: `min` plus the next draw reduced modulo
    /// `max - min`. An empty range gives `min` and draws nothing.
    pub fn next_range(&mut self, min: usize, max: usize) -> (value: usize)
        requires
            min <= max,
        ensures
            min == max ==> value == min && final(self).state() == old(self).state(),
            min < max ==> final(self).state() == next_state(old(self).state()),
            min < max ==> value == min + output(final(self).state()) as int % (max - min),
            min < max ==> min <= value < max,
    {
        let range: usize = max - min;
        if range == 0 {
            return min;
        }
        let val: usize = self.next_u32() as usize;
        min + (val % range)
    }

    /// Shuffles `slice` in place by Fisher-Yates: for each position from the
    /// last down to 1, the item there is exchanged with the item at a drawn
    /// position not after it.
    pub fn shuffle<E>(&mut self, slice: &mut [E])
        ensures
            final(slice)@ == shuffled(old(slice)@, old(self).state()),
            final(self).state() == state_after(old(self).state(), shuffle_draws(old(slice)@.len())),
            final(slice)@.len() == old(slice)@.len(),
            final(slice)@.to_multiset() == old(slice)@.to_multiset(),
    {
        let len: usize = slice.len();
        proof {
            lemma_shuffled_keeps_items(old(slice)@, old(self).state(), len - 1);
        }
        if len < 2 {
            return;
        }
        let mut i: usize = len - 1;
        while i >= 1
            invariant
                1 <= len - 1,
                0 <= i < len,
                slice@.len() == len,
                old(slice)@.len() == len,
                shuffled_from(slice@, self.state(), i as int) == shuffled(
                    old(slice)@,
                    old(self).state(),
                ),
                self.state() == state_after(old(self).state(), (len - 1 - i) as nat),
            decreases i,
        {
            let j: usize = self.next_range(0, i + 1);
            proof {
                lemma_state_after_step(old(self).state(), (len - 1 - i) as nat);
            }
            slice.swap(i, j);
            i -= 1;
        }
    }
}

} // verus!
