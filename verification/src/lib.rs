//! Magic squares: grids of the numbers 1 to `n * n` in which every row,
//! every column and both diagonals have the same sum.
//!
//! [`generate_magic_square`] builds one of a given order and
//! [`verify_magic_square`] checks any grid. What a magic square is, is said
//! in [`square`]; every square that this library builds is proved to be one.

pub mod generator;
pub mod rng;
pub mod square;
pub mod sums;
pub mod validator;

use crate::generator::{
    generated_square, get_generator, is_valid_order, lemma_generated_square_is_magic,
    MagicGenerator, MAX_ORDER,
};
use crate::rng::Lcg;
use crate::square::{
    has_magic_sums, holds_each_value_once, is_magic_square, lemma_values_one_to_n_squared,
    magic_constant,
};
use crate::validator::check_magic_properties;
use vstd::prelude::*;

verus! {

/// The largest order that is built unless the caller sets another limit:
/// larger squares are refused to keep memory and time within bounds.
pub const MAX_SAFE_ORDER: usize = 7000;

/// Why no square of an order is built.
#[derive(Clone, Copy, Debug, PartialEq, Eq)]
pub enum GenerateError {
    /// Order 0 or order 2: there is no such magic square.
    InvalidOrder,
    /// The order is above `MAX_ORDER`: its square does not fit a cell.
    OrderTooLarge,
    /// The order is above the resource limit.
    ResourceLimitExceeded,
}

/// The error with which order `n` is refused under the resource limit
/// `limit`, if it is: order 0 and order 2 are invalid, an order above
/// `MAX_ORDER` is too large, and any other order above `limit` exceeds the
/// resource limit.
pub open spec fn order_error_within(n: int, limit: int) -> Option<GenerateError> {
    if n == 0 || n == 2 {
        Some(GenerateError::InvalidOrder)
    } else if n > MAX_ORDER {
        Some(GenerateError::OrderTooLarge)
    } else if n > limit {
        Some(GenerateError::ResourceLimitExceeded)
    } else {
        None
    }
}

/// The error with which order `n` is refused under the resource limit
/// `MAX_SAFE_ORDER`, if it is.
pub open spec fn order_error(n: int) -> Option<GenerateError> {
    order_error_within(n, MAX_SAFE_ORDER as int)
}

/// A magic square and its order.
#[derive(Debug)]
pub struct MagicSquareResult {
    grid: Vec<u32>,
    n: usize,
}

impl MagicSquareResult {
    /// The grid is a magic square of the order.
    #[verifier::type_invariant]
    pub closed spec fn is_magic(&self) -> bool {
        is_magic_square(self.grid@, self.n as int)
    }

    /// The cells of the square, row after row.
    pub closed spec fn cells(&self) -> Seq<u32> {
        self.grid@
    }

    /// The order of the square.
    pub closed spec fn order(&self) -> int {
        self.n as int
    }

    /// `grid` with its order, if it is a magic square of order `n`.
    pub fn new(grid: Vec<u32>, n: usize) -> (result: Option<MagicSquareResult>)
        ensures
            result is Some <==> is_magic_square(grid@, n as int),
            result matches Some(square) ==> square.cells() == grid@ && square.order() == n,
    {
        if check_magic_properties(grid.as_slice(), n) {
            Some(MagicSquareResult { grid, n })
        } else {
            None
        }
    }

    /// The cells of the square, row after row.
    pub fn into_grid(self) -> (grid: Vec<u32>)
        ensures
            grid@ == self.cells(),
            is_magic_square(grid@, self.order()),
    {
        proof {
            use_type_invariant(&self);
        }
        self.grid
    }

    /// The cells of the square, row after row.
    pub fn grid(&self) -> (grid: &Vec<u32>)
        ensures
            grid@ == self.cells(),
            is_magic_square(grid@, self.order()),
    {
        proof {
            use_type_invariant(self);
        }
        &self.grid
    }

    /// The number of cells of the square.
    pub fn get_grid_len(&self) -> (len: usize)
        ensures
            len == self.cells().len(),
            len == self.order() * self.order(),
    {
        proof {
            use_type_invariant(self);
        }
        self.grid.len()
    }

    /// The order of the square.
    pub fn n(&self) -> (n: usize)
        ensures
            n == self.order(),
            n >= 1,
    {
        proof {
            use_type_invariant(self);
        }
        self.n
    }
}

/// Accepts the orders of which a square is built under the resource limit
/// `limit` and names the error for every other.
pub fn validate_order_within(n: usize, limit: usize) -> (result: Result<(), GenerateError>)
    ensures
        order_error_within(n as int, limit as int) matches Some(error) ==> result == Err::<
            (),
            GenerateError,
        >(error),
        order_error_within(n as int, limit as int) is None ==> result is Ok,
        result is Ok ==> is_valid_order(n as int),
{
    if n == 2 {
        return Err(GenerateError::InvalidOrder);
    }
    if n == 0 {
        return Err(GenerateError::InvalidOrder);
    }
    if n > MAX_ORDER {
        return Err(GenerateError::OrderTooLarge);
    }
    if n > limit {
        return Err(GenerateError::ResourceLimitExceeded);
    }
    Ok(())
}

/// Accepts the orders of which a square is built under the resource limit
/// `MAX_SAFE_ORDER` and names the error for every other.
pub fn validate_order(n: usize) -> (result: Result<(), GenerateError>)
    ensures
        order_error(n as int) matches Some(error) ==> result == Err::<(), GenerateError>(error),
        order_error(n as int) is None ==> result is Ok,
        result is Ok ==> is_valid_order(n as int),
{
    validate_order_within(n, MAX_SAFE_ORDER)
}

/// The magic square of order `n` that is built when the draws start from
/// `seed`, or the error with which the order is refused under the resource
/// limit `limit`. Nothing is allocated for a refused order.
pub fn generate_magic_square_within(n: usize, limit: usize, seed: u64) -> (result: Result<
    MagicSquareResult,
    GenerateError,
>)
    ensures
        order_error_within(n as int, limit as int) matches Some(error) ==> (result matches Err(e)
            && e == error),
        order_error_within(n as int, limit as int) is None ==> (result matches Ok(square)
            && square.order() == n && square.cells() == generated_square(n as int, seed)
            && is_magic_square(square.cells(), n as int)),
{
    match validate_order_within(n, limit) {
        Err(error) => Err(error),
        Ok(()) => {
            let mut lcg = Lcg::new_with_seed(seed);
            let mut magic_gen = get_generator(n, &mut lcg);
            let square_vec = magic_gen.generate(n);
            Ok(MagicSquareResult { grid: square_vec, n })
        },
    }
}

/// The magic square of order `n` that is built when the draws start from
/// `seed`, or the error with which the order is refused under the resource
/// limit `MAX_SAFE_ORDER`.
pub fn generate_magic_square_with_seed(n: usize, seed: u64) -> (result: Result<
    MagicSquareResult,
    GenerateError,
>)
    ensures
        order_error(n as int) matches Some(error) ==> (result matches Err(e) && e == error),
        order_error(n as int) is None ==> (result matches Ok(square) && square.order() == n
            && square.cells() == generated_square(n as int, seed) && is_magic_square(
            square.cells(),
            n as int,
        )),
{
    generate_magic_square_within(n, MAX_SAFE_ORDER, seed)
}

/// A magic square of order `n`, built with draws that start from the system
/// clock, or the error with which the order is refused under the resource
/// limit `MAX_SAFE_ORDER`. Nothing is allocated for a refused order.
///
/// This needs a target with a system clock. Where std has none to read,
/// pick a seed in another way and call `generate_magic_square_with_seed`.
pub fn generate_magic_square(n: usize) -> (result: Result<MagicSquareResult, GenerateError>)
    ensures
        order_error(n as int) matches Some(error) ==> (result matches Err(e) && e == error),
        order_error(n as int) is None ==> (result matches Ok(square) && square.order() == n
            && is_magic_square(square.cells(), n as int) && exists|seed: u64|
            square.cells() == generated_square(n as int, seed)),
{
    match validate_order(n) {
        Err(error) => Err(error),
        Ok(()) => {
            let mut lcg = Lcg::new();
            let ghost seed = lcg.state();
            let mut magic_gen = get_generator(n, &mut lcg);
            let square_vec = magic_gen.generate(n);
            assert(square_vec@ == generated_square(n as int, seed));
            Ok(MagicSquareResult { grid: square_vec, n })
        },
    }
}

/// Whether `flat_grid` is a magic square of order `n`.
pub fn verify_magic_square(n: usize, flat_grid: Vec<u32>) -> (valid: bool)
    ensures
        valid == is_magic_square(flat_grid@, n as int),
{
    check_magic_properties(flat_grid.as_slice(), n)
}

/// Every square that is built is accepted: for every valid order and
/// whatever is drawn, `verify_magic_square` says yes to what
/// `generate_magic_square` gives.
pub proof fn lemma_generated_square_verifies(n: int, seed: u64)
    requires
        is_valid_order(n),
    ensures
        is_magic_square(generated_square(n, seed), n),
{
    lemma_generated_square_is_magic(n, seed);
}

/// In every square that is built, every row, every column and both
/// diagonals sum to `n * (n * n + 1) / 2`, and that division leaves no
/// remainder.
pub proof fn lemma_generated_square_sums(n: int, seed: u64)
    requires
        is_valid_order(n),
    ensures
        has_magic_sums(generated_square(n, seed), n),
        2 * magic_constant(n) == n * (n * n + 1),
{
    lemma_generated_square_is_magic(n, seed);
    let half = n / 2;
    if n % 2 == 0 {
        assert(n * (n * n + 1) == 2 * (half * (n * n + 1))) by (nonlinear_arith)
            requires
                n == 2 * half,
        ;
    } else {
        let t = 2 * half * half + 2 * half + 1;
        assert(n * (n * n + 1) == 2 * (n * t)) by (nonlinear_arith)
            requires
                n == 2 * half + 1,
                t == 2 * half * half + 2 * half + 1,
        ;
    }
}

/// Every square that is built holds each of the values 1 to `n * n` in
/// exactly one cell, and no other value.
pub proof fn lemma_generated_square_values(n: int, seed: u64)
    requires
        is_valid_order(n),
    ensures
        holds_each_value_once(generated_square(n, seed), n),
        forall|v: u32|
            #[trigger] generated_square(n, seed).to_multiset().count(v) == if 1 <= v <= n * n {
                1nat
            } else {
                0nat
            },
{
    lemma_generated_square_is_magic(n, seed);
    lemma_values_one_to_n_squared(generated_square(n, seed), n);
}

} // verus!
