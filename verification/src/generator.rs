//! The constructions of magic squares, one for each class of orders, and
//! the choice among them.

pub mod doubly_even;
pub mod odd;
pub mod singly_even;

pub use doubly_even::DoublyEvenGenerator;
pub use odd::OddGenerator;
pub use singly_even::SinglyEvenGenerator;

use crate::generator::doubly_even::{
    doubly_even_square_from, lemma_doubly_even_square_from_is_magic,
};
use crate::generator::odd::{lemma_odd_square_from_is_magic, odd_square_from, state_after_odd};
use crate::generator::singly_even::{
    lemma_singly_even_square_from_is_magic, singly_even_square_from,
};
use crate::rng::{state_after, Lcg};
use crate::square::is_magic_square;
use vstd::prelude::*;

verus! {

/// The largest order whose square fits a cell.
pub const MAX_ORDER: usize = 65535;

/// The orders of which a magic square can be built here: every order from 1
/// to `MAX_ORDER` but 2.
pub open spec fn is_valid_order(n: int) -> bool {
    1 <= n <= MAX_ORDER && n != 2
}

/// The square of order `n` that is built when the draws start from `state`:
/// by the odd construction for odd `n`, by the doubly even construction for
/// multiples of 4, and by the singly even construction for the rest.
pub open spec fn generated_square(n: int, state: u64) -> Seq<u32> {
    if n % 2 != 0 {
        odd_square_from(n, state)
    } else if n % 4 != 0 {
        singly_even_square_from(n, state)
    } else {
        doubly_even_square_from(n, state)
    }
}

/// The state that building the square of order `n` leaves behind.
pub open spec fn state_after_generation(n: int, state: u64) -> u64 {
    if n % 2 != 0 {
        state_after_odd(n, state)
    } else if n % 4 != 0 {
        state_after_odd(n / 2, state)
    } else {
        state_after(state, 3)
    }
}

/// For every valid order and whatever is drawn, the square that is built is
/// a magic square.
pub proof fn lemma_generated_square_is_magic(n: int, state: u64)
    requires
        is_valid_order(n),
    ensures
        is_magic_square(generated_square(n, state), n),
{
    if n % 2 != 0 {
        lemma_odd_square_from_is_magic(n, state);
    } else if n % 4 != 0 {
        lemma_singly_even_square_from_is_magic(n, state);
    } else {
        lemma_doubly_even_square_from_is_magic(n, state);
    }
}

/// A construction of magic squares.
pub trait MagicGenerator {
    /// Whether this construction builds squares of order `n`.
    spec fn constructs(&self, n: int) -> bool;

    /// A magic square of order `n`, as a flat grid, row after row. The
    /// construction builds the same orders afterwards as before.
    fn generate(&mut self, n: usize) -> (grid: Vec<u32>)
        requires
            old(self).constructs(n as int),
        ensures
            is_magic_square(grid@, n as int),
            forall|m: int| #[trigger] final(self).constructs(m) == old(self).constructs(m),
    ;
}

/// One of the three constructions.
pub enum Generator<'a> {
    /// The construction for odd orders.
    Odd(OddGenerator<'a>),
    /// The construction for even orders that are no multiple of 4.
    SinglyEven(SinglyEvenGenerator<'a>),
    /// The construction for multiples of 4.
    DoublyEven(DoublyEvenGenerator<'a>),
}

impl<'a> Generator<'a> {
    /// The state that the next draw of the construction starts from.
    pub open spec fn state(&self) -> u64 {
        match self {
            Generator::Odd(generator) => generator.rng.state(),
            Generator::SinglyEven(generator) => generator.rng.state(),
            Generator::DoublyEven(generator) => generator.rng.state(),
        }
    }
}

/// The construction for order `n`, drawing from `rng`: the odd one for odd
/// `n`, the doubly even one for multiples of 4, the singly even one for the
/// rest.
pub fn get_generator<'a>(n: usize, rng: &'a mut Lcg) -> (generator: Generator<'a>)
    ensures
        generator is Odd <==> n % 2 != 0,
        generator is SinglyEven <==> n % 2 == 0 && n % 4 != 0,
        generator is DoublyEven <==> n % 4 == 0,
        generator.state() == old(rng).state(),
        is_valid_order(n as int) ==> generator.constructs(n as int),
        generator matches Generator::Odd(inner) ==> *final(inner.rng) == *final(rng),
        generator matches Generator::SinglyEven(inner) ==> *final(inner.rng) == *final(rng),
        generator matches Generator::DoublyEven(inner) ==> *final(inner.rng) == *final(rng),
{
    if n % 2 != 0 {
        Generator::Odd(OddGenerator::new(rng))
    } else if n % 4 != 0 {
        Generator::SinglyEven(SinglyEvenGenerator::new(rng))
    } else {
        Generator::DoublyEven(DoublyEvenGenerator::new(rng))
    }
}

impl<'a> MagicGenerator for Generator<'a> {
    open spec fn constructs(&self, n: int) -> bool {
        match self {
            Generator::Odd(generator) => generator.constructs(n),
            Generator::SinglyEven(generator) => generator.constructs(n),
            Generator::DoublyEven(generator) => generator.constructs(n),
        }
    }

    /// The square of order `n` for the draws that come next.
    fn generate(&mut self, n: usize) -> (grid: Vec<u32>)
        ensures
            grid@ == generated_square(n as int, old(self).state()),
            final(self).state() == state_after_generation(n as int, old(self).state()),
            *old(self) matches Generator::Odd(before) ==> (
            *final(self) matches Generator::Odd(after)
                && *final(after.rng) == *final(before.rng)),
            *old(self) matches Generator::SinglyEven(before) ==> (
            *final(self) matches Generator::SinglyEven(after)
                && *final(after.rng) == *final(before.rng)),
            *old(self) matches Generator::DoublyEven(before) ==> (
            *final(self) matches Generator::DoublyEven(after)
                && *final(after.rng) == *final(before.rng)),
    {
        match self {
            Generator::Odd(generator) => generator.generate(n),
            Generator::SinglyEven(generator) => generator.generate(n),
            Generator::DoublyEven(generator) => generator.generate(n),
        }
    }
}

} // verus!
