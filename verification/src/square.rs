//! What a magic square is.
//!
//! A grid of order `n` is a flat sequence of `n * n` cells, row after row:
//! the cell in row `r` and column `c` stands at position `r * n + c`.

use vstd::arithmetic::div_mod::{
    lemma_fundamental_div_mod, lemma_fundamental_div_mod_converse, lemma_mod_pos_bound,
};
use crate::sums::{lemma_sum_of_constant, lemma_sum_of_rearranged, lemma_sum_of_remove};
use vstd::prelude::*;
use vstd::seq_lib::to_multiset_contains;

verus! {

/// The sum of the items of `s`.
pub open spec fn sum_of(s: Seq<int>) -> int
    decreases s.len(),
{
    if s.len() == 0 {
        0
    } else {
        sum_of(s.drop_last()) + s.last()
    }
}

/// The sum that every row, column and main diagonal of a magic square of
/// order `n` has: `n * (n * n + 1) / 2`.
pub open spec fn magic_constant(n: int) -> int {
    n * (n * n + 1) / 2
}

/// The cell of `grid` in row `r` and column `c`.
pub open spec fn cell(grid: Seq<u32>, n: int, r: int, c: int) -> int {
    grid[r * n + c] as int
}

/// A cell of a grid of order `n` has a position inside the grid.
pub proof fn lemma_cell_position(n: int, r: int, c: int)
    requires
        0 <= r < n,
        0 <= c < n,
    ensures
        0 <= r * n + c < n * n,
        0 <= r * n,
        r * n + n <= n * n,
{
    assert(r * n + n <= n * n && 0 <= r * n) by (nonlinear_arith)
        requires
            0 <= r < n,
    ;
}

/// Two cells of a grid of order `n` with the same position are the same cell.
pub proof fn lemma_cell_position_unique(n: int, r1: int, c1: int, r2: int, c2: int)
    requires
        0 <= r1 < n,
        0 <= c1 < n,
        0 <= r2 < n,
        0 <= c2 < n,
        r1 * n + c1 == r2 * n + c2,
    ensures
        r1 == r2,
        c1 == c2,
{
    assert(r1 == r2) by (nonlinear_arith)
        requires
            0 <= c1 < n,
            0 <= c2 < n,
            r1 * n + c1 == r2 * n + c2,
    ;
}

/// Every position of a grid of order `n` is that of the cell in row
/// `i / n` and column `i % n`.
pub proof fn lemma_position_cell(n: int, i: int)
    requires
        n >= 1,
        0 <= i < n * n,
    ensures
        0 <= i / n < n,
        0 <= i % n < n,
        (i / n) * n + i % n == i,
{
    lemma_fundamental_div_mod(i, n);
    lemma_mod_pos_bound(i, n);
    let q = i / n;
    let m = i % n;
    assert(0 <= q < n && q * n + m == i) by (nonlinear_arith)
        requires
            n >= 1,
            0 <= i < n * n,
            i == n * q + m,
            0 <= m < n,
    ;
}

/// Row `r` of `grid`, from left to right.
pub open spec fn row(grid: Seq<u32>, n: int, r: int) -> Seq<int> {
    Seq::new(n as nat, |c: int| cell(grid, n, r, c))
}

/// Column `c` of `grid`, from top to bottom.
pub open spec fn column(grid: Seq<u32>, n: int, c: int) -> Seq<int> {
    Seq::new(n as nat, |r: int| cell(grid, n, r, c))
}

/// The diagonal of `grid` from the top left to the bottom right.
pub open spec fn main_diagonal(grid: Seq<u32>, n: int) -> Seq<int> {
    Seq::new(n as nat, |i: int| cell(grid, n, i, i))
}

/// The diagonal of `grid` from the top right to the bottom left.
pub open spec fn anti_diagonal(grid: Seq<u32>, n: int) -> Seq<int> {
    Seq::new(n as nat, |i: int| cell(grid, n, i, n - 1 - i))
}

/// Every row, every column and both diagonals of `grid` sum to the magic
/// constant of `n`.
pub open spec fn has_magic_sums(grid: Seq<u32>, n: int) -> bool {
    &&& forall|r: int| 0 <= r < n ==> sum_of(#[trigger] row(grid, n, r)) == magic_constant(n)
    &&& forall|c: int| 0 <= c < n ==> sum_of(#[trigger] column(grid, n, c)) == magic_constant(n)
    &&& sum_of(main_diagonal(grid, n)) == magic_constant(n)
    &&& sum_of(anti_diagonal(grid, n)) == magic_constant(n)
}

/// Every cell of `grid` holds a value from 1 to `n * n`, and no two cells
/// hold the same value. A grid of `n * n` cells then holds each of the values
/// exactly once.
pub open spec fn holds_each_value_once(grid: Seq<u32>, n: int) -> bool {
    &&& forall|i: int| 0 <= i < grid.len() ==> 1 <= #[trigger] grid[i] <= n * n
    &&& forall|i: int, j: int| 0 <= i < j < grid.len() ==> grid[i] != grid[j]
}

/// `grid` is a magic square of order `n`: `n` is at least 1, the grid has
/// `n * n` cells that hold the values 1 to `n * n` once each, and all its
/// rows, columns and both diagonals have the same sum.
pub open spec fn is_magic_square(grid: Seq<u32>, n: int) -> bool {
    &&& n >= 1
    &&& grid.len() == n * n
    &&& has_magic_sums(grid, n)
    &&& holds_each_value_once(grid, n)
}

/// A grid whose cells, taken by row and column, hold values from 1 to
/// `n * n` and differ from cell to cell holds each value once.
pub proof fn lemma_each_value_once_by_cells(grid: Seq<u32>, n: int)
    requires
        n >= 1,
        grid.len() == n * n,
        forall|r: int, c: int|
            0 <= r < n && 0 <= c < n ==> 1 <= #[trigger] cell(grid, n, r, c) <= n * n,
        forall|r1: int, c1: int, r2: int, c2: int|
            0 <= r1 < n && 0 <= c1 < n && 0 <= r2 < n && 0 <= c2 < n && #[trigger] cell(
                grid,
                n,
                r1,
                c1,
            ) == #[trigger] cell(grid, n, r2, c2) ==> r1 == r2 && c1 == c2,
    ensures
        holds_each_value_once(grid, n),
{
    assert forall|i: int| 0 <= i < grid.len() implies 1 <= #[trigger] grid[i] <= n * n by {
        lemma_position_cell(n, i);
        assert(cell(grid, n, i / n, i % n) == grid[i]);
    }
    assert forall|i: int, j: int| 0 <= i < j < grid.len() implies grid[i] != grid[j] by {
        lemma_position_cell(n, i);
        lemma_position_cell(n, j);
        assert(cell(grid, n, i / n, i % n) == grid[i]);
        assert(cell(grid, n, j / n, j % n) == grid[j]);
    }
}

/// The grid of order `n` whose cell in row `r` and column `c` holds `value(r, c)`.
pub open spec fn grid_of(n: int, value: spec_fn(int, int) -> int) -> Seq<u32> {
    Seq::new((n * n) as nat, |i: int| value(i / n, i % n) as u32)
}

/// A grid whose cells hold what `value` says is the grid of `value`.
pub proof fn lemma_grid_of(grid: Seq<u32>, n: int, value: spec_fn(int, int) -> int)
    requires
        n >= 1,
        grid.len() == n * n,
        forall|r: int, c: int|
            0 <= r < n && 0 <= c < n ==> #[trigger] cell(grid, n, r, c) == value(r, c),
    ensures
        grid == grid_of(n, value),
{
    let built = grid_of(n, value);
    assert forall|i: int| 0 <= i < grid.len() implies grid[i] == #[trigger] built[i] by {
        lemma_position_cell(n, i);
        assert(cell(grid, n, i / n, i % n) == value(i / n, i % n));
    }
    assert(grid =~= grid_of(n, value));
}

/// The grid of `value` has `n * n` cells.
pub proof fn lemma_grid_of_len(n: int, value: spec_fn(int, int) -> int)
    ensures
        n >= 0 ==> grid_of(n, value).len() == n * n,
{
    assert(n * n >= 0) by (nonlinear_arith);
}

/// The cells of the grid of `value` hold what `value` says, as long as that
/// fits a cell.
pub proof fn lemma_grid_of_cell(n: int, value: spec_fn(int, int) -> int, r: int, c: int)
    requires
        0 <= r < n,
        0 <= c < n,
        0 <= value(r, c) <= u32::MAX,
    ensures
        grid_of(n, value).len() == n * n,
        cell(grid_of(n, value), n, r, c) == value(r, c),
{
    lemma_cell_position(n, r, c);
    lemma_fundamental_div_mod_converse(r * n + c, n, r, c);
    assert(n * n >= 0) by (nonlinear_arith);
}

/// A grid of `n * n` cells that holds each value once holds every value
/// from 1 to `n * n`.
pub proof fn lemma_every_value_occurs(grid: Seq<u32>, n: int, v: int)
    requires
        grid.len() == n * n,
        holds_each_value_once(grid, n),
        1 <= v <= n * n,
    ensures
        exists|i: int| 0 <= i < grid.len() && grid[i] == v,
{
    let len = grid.len();
    let places: Seq<int> = Seq::new(len, |i: int| grid[i] - 1);
    let marks: Seq<int> = Seq::new(len, |j: int| if j == v - 1 { 1int } else { 0int });
    let found: Seq<int> = Seq::new(len, |i: int| marks[places[i]]);
    assert forall|i: int, j: int| 0 <= i < j < places.len() implies places[i] != places[j] by {
        assert(grid[i] != grid[j]);
    }
    lemma_sum_of_rearranged(found, places, marks);
    lemma_sum_of_remove(marks, v - 1);
    lemma_sum_of_constant(marks.remove(v - 1), 0);
    assert(sum_of(found) == 1);
    if forall|i: int| 0 <= i < len ==> grid[i] != v {
        assert forall|i: int| 0 <= i < found.len() implies #[trigger] found[i] == 0 by {
            assert(grid[i] != v);
        }
        lemma_sum_of_constant(found, 0);
        assert(false);
    }
}

/// In a grid of `n * n` cells that holds each value once, every value from
/// 1 to `n * n` stands in exactly one cell, and no other value in any.
pub proof fn lemma_values_one_to_n_squared(grid: Seq<u32>, n: int)
    requires
        grid.len() == n * n,
        holds_each_value_once(grid, n),
    ensures
        forall|v: u32|
            #[trigger] grid.to_multiset().count(v) == if 1 <= v <= n * n {
                1nat
            } else {
                0nat
            },
{
    assert(grid.no_duplicates()) by {
        assert forall|i: int, j: int|
            0 <= i < grid.len() && 0 <= j < grid.len() && i != j implies grid[i] != grid[j] by {
            if i < j {
                assert(grid[i] != grid[j]);
            } else {
                assert(grid[j] != grid[i]);
            }
        }
    }
    grid.lemma_multiset_has_no_duplicates();
    assert forall|v: u32|
        #[trigger] grid.to_multiset().count(v) == if 1 <= v <= n * n {
            1nat
        } else {
            0nat
        } by {
        to_multiset_contains(grid, v);
        if 1 <= v <= n * n {
            lemma_every_value_occurs(grid, n, v as int);
            let i = choose|i: int| 0 <= i < grid.len() && grid[i] == v as int;
            assert(grid[i] == v);
            assert(grid.contains(v));
        } else {
            if grid.contains(v) {
                let i = choose|i: int| 0 <= i < grid.len() && grid[i] == v;
                assert(1 <= grid[i] <= n * n);
            }
        }
    }
}

} // verus!
