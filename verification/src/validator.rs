//! Checks whether a grid is a magic square, whatever produced it.

use crate::square::{
    anti_diagonal, column, holds_each_value_once, is_magic_square, lemma_cell_position,
    magic_constant, main_diagonal, row, sum_of,
};
use crate::sums::lemma_sum_of_take_next;
use vstd::arithmetic::mul::{
    lemma_mul_inequality, lemma_mul_is_distributive_add, lemma_mul_is_distributive_add_other_way,
    lemma_mul_is_distributive_sub,
};
use vstd::prelude::*;

verus! {

/// The `count` cells of `grid` that start at position `start` and lie `stride` apart.
spec fn strided(grid: Seq<u32>, start: int, stride: int, count: int) -> Seq<int> {
    Seq::new(count as nat, |i: int| grid[start + i * stride] as int)
}

/// The sum of the `count` cells of `grid` that start at `start` and lie `stride` apart.
fn strided_sum(grid: &[u32], start: usize, stride: usize, count: usize) -> (total: u128)
    requires
        count > 0 ==> start + (count - 1) * stride < grid@.len(),
    ensures
        total == sum_of(strided(grid@, start as int, stride as int, count as int)),
{
    let ghost line = strided(grid@, start as int, stride as int, count as int);
    let mut total: u128 = 0;
    let mut i: usize = 0;
    let mut at: usize = start;
    assert(line.take(0) =~= Seq::<int>::empty());
    while i < count
        invariant
            i <= count,
            count > 0 ==> start + (count - 1) * stride < grid@.len(),
            line == strided(grid@, start as int, stride as int, count as int),
            i < count ==> at == start + i * stride,
            total == sum_of(line.take(i as int)),
            total <= i * 0xFFFF_FFFF,
        decreases count - i,
    {
        proof {
            lemma_sum_of_take_next(line, i as int);
            lemma_mul_inequality(i as int, count - 1, stride as int);
        }
        total = total + grid[at] as u128;
        i += 1;
        if i < count {
            proof {
                lemma_mul_inequality(i as int, count - 1, stride as int);
                lemma_mul_is_distributive_add_other_way(stride as int, i - 1, 1);
            }
            at = at + stride;
        }
    }
    assert(line.take(count as int) =~= line);
    total
}

/// The magic constant of order `n`.
pub fn compute_magic_constant(n: usize) -> (constant: u128)
    requires
        n <= 0xFFFF_FFFF,
    ensures
        constant == magic_constant(n as int),
{
    let side: u128 = n as u128;
    assert(side * side <= 0xFFFF_FFFF * 0xFFFF_FFFF) by (nonlinear_arith)
        requires
            side <= 0xFFFF_FFFF,
    ;
    let square: u128 = side * side + 1;
    assert(side * square <= 0xFFFF_FFFF * 0xFFFF_FFFE_0000_0002) by (nonlinear_arith)
        requires
            side <= 0xFFFF_FFFF,
            square <= 0xFFFF_FFFE_0000_0002,
    ;
    side * square / 2
}

/// The sum of row `r` of a grid of order `n`.
pub fn row_sum(grid: &[u32], n: usize, r: usize) -> (total: u128)
    requires
        grid@.len() == n * n,
        r < n,
    ensures
        total == sum_of(row(grid@, n as int, r as int)),
{
    let cells: usize = grid.len();
    proof {
        lemma_cell_position(n as int, r as int, 0);
        lemma_cell_position(n as int, r as int, n - 1);
        assert(row(grid@, n as int, r as int) =~= strided(grid@, r * n, 1, n as int));
    }
    strided_sum(grid, r * n, 1, n)
}

/// The sum of column `c` of a grid of order `n`.
pub fn column_sum(grid: &[u32], n: usize, c: usize) -> (total: u128)
    requires
        grid@.len() == n * n,
        c < n,
    ensures
        total == sum_of(column(grid@, n as int, c as int)),
{
    proof {
        lemma_cell_position(n as int, n - 1, c as int);
        assert(column(grid@, n as int, c as int) =~= strided(grid@, c as int, n as int, n as int));
    }
    strided_sum(grid, c, n, n)
}

/// The sum of the diagonal of a grid of order `n` that starts at the top left.
pub fn main_diagonal_sum(grid: &[u32], n: usize) -> (total: u128)
    requires
        grid@.len() == n * n,
        n >= 1,
    ensures
        total == sum_of(main_diagonal(grid@, n as int)),
{
    let cells: usize = grid.len();
    proof {
        lemma_cell_position(n as int, n - 1, n - 1);
        lemma_mul_is_distributive_add(n - 1, n as int, 1);
        assert(n + 1 <= n * n || n == 1) by (nonlinear_arith)
            requires
                n >= 1,
        ;
        let line = strided(grid@, 0, n + 1, n as int);
        let diagonal = main_diagonal(grid@, n as int);
        assert forall|i: int| 0 <= i < n implies diagonal[i] == #[trigger] line[i] by {
            lemma_mul_is_distributive_add(i, n as int, 1);
        }
        assert(diagonal =~= line);
    }
    strided_sum(grid, 0, n + 1, n)
}

/// The sum of the diagonal of a grid of order `n` that starts at the top right.
pub fn anti_diagonal_sum(grid: &[u32], n: usize) -> (total: u128)
    requires
        grid@.len() == n * n,
        n >= 1,
    ensures
        total == sum_of(anti_diagonal(grid@, n as int)),
{
    proof {
        assert(n - 1 + (n - 1) * (n - 1) < n * n) by (nonlinear_arith)
            requires
                n >= 1,
        ;
        let line = strided(grid@, n - 1, n - 1, n as int);
        let diagonal = anti_diagonal(grid@, n as int);
        assert forall|i: int| 0 <= i < n implies diagonal[i] == #[trigger] line[i] by {
            lemma_mul_is_distributive_sub(i, n as int, 1);
        }
        assert(diagonal =~= line);
    }
    strided_sum(grid, n - 1, n - 1, n)
}

/// Whether the cells of a grid of order `n` hold the values 1 to `n * n`
/// once each.
pub fn check_values(grid: &[u32], n: usize) -> (valid: bool)
    requires
        grid@.len() == n * n,
    ensures
        valid == holds_each_value_once(grid@, n as int),
{
    let cells: usize = grid.len();
    let mut seen: Vec<bool> = vec![false; cells];
    let mut i: usize = 0;
    while i < cells
        invariant
            i <= cells,
            cells == grid@.len(),
            cells == n * n,
            seen@.len() == cells,
            forall|j: int| 0 <= j < i ==> 1 <= #[trigger] grid@[j] <= cells,
            forall|j: int, k: int| 0 <= j < k < i ==> grid@[j] != grid@[k],
            forall|v: int|
                0 <= v < cells ==> (#[trigger] seen@[v] <==> exists|j: int|
                    0 <= j < i && grid@[j] == v + 1),
        decreases cells - i,
    {
        let value: u32 = grid[i];
        if value == 0 || value as usize > cells {
            return false;
        }
        let slot: usize = value as usize - 1;
        if seen[slot] {
            return false;
        }
        seen.set(slot, true);
        assert forall|v: int| 0 <= v < cells implies (#[trigger] seen@[v] <==> exists|j: int|
            0 <= j < i + 1 && grid@[j] == v + 1) by {
            if v == slot {
                assert(grid@[i as int] == v + 1);
            }
        }
        i += 1;
    }
    true
}

/// Whether `grid` is a magic square of order `n`: it has `n * n` cells, every
/// row, every column and both diagonals sum to the magic constant, and the
/// cells hold the values 1 to `n * n` once each. A grid of any other length,
/// and order 0, give `false`.
pub fn check_magic_properties(grid: &[u32], n: usize) -> (valid: bool)
    ensures
        valid == is_magic_square(grid@, n as int),
{
    if n == 0 {
        return false;
    }
    let len: usize = grid.len();
    let cells: usize = match n.checked_mul(n) {
        Some(cells) => cells,
        None => {
            return false;
        },
    };
    if len != cells {
        return false;
    }
    assert(n <= 0xFFFF_FFFF) by (nonlinear_arith)
        requires
            n * n <= usize::MAX,
            usize::MAX <= 0xFFFF_FFFF_FFFF_FFFF,
    ;
    let constant: u128 = compute_magic_constant(n);

    let mut r: usize = 0;
    while r < n
        invariant
            r <= n,
            grid@.len() == n * n,
            constant == magic_constant(n as int),
            forall|k: int| 0 <= k < r ==> sum_of(#[trigger] row(grid@, n as int, k)) == constant,
        decreases n - r,
    {
        if row_sum(grid, n, r) != constant {
            return false;
        }
        r += 1;
    }

    let mut c: usize = 0;
    while c < n
        invariant
            c <= n,
            grid@.len() == n * n,
            constant == magic_constant(n as int),
            forall|k: int| 0 <= k < c ==> sum_of(#[trigger] column(grid@, n as int, k)) == constant,
        decreases n - c,
    {
        if column_sum(grid, n, c) != constant {
            return false;
        }
        c += 1;
    }

    if main_diagonal_sum(grid, n) != constant {
        return false;
    }
    if anti_diagonal_sum(grid, n) != constant {
        return false;
    }
    check_values(grid, n)
}

} // verus!
