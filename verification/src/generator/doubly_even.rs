//! Squares whose order is a multiple of 4.
//!
//! The cells are numbered row after row from 1. A cell on a diagonal of one
//! of the 4 by 4 blocks of the grid gets the value that mirrors its number,
//! `n * n + 1` minus the number; every other cell gets its number. Three
//! drawn coins then decide whether the rows are reversed, whether the columns
//! are reversed and whether rows and columns change places.

use crate::generator::MagicGenerator;
use crate::rng::{next_state, output, state_after, Lcg};
use crate::square::{
    anti_diagonal, cell, column, grid_of, has_magic_sums, holds_each_value_once,
    is_magic_square, lemma_cell_position, lemma_cell_position_unique,
    lemma_each_value_once_by_cells, lemma_grid_of, lemma_grid_of_cell, lemma_grid_of_len,
    magic_constant, main_diagonal, row, sum_of,
};
use crate::sums::{
    lemma_sum_of_constant, lemma_sum_of_fours, lemma_sum_of_indices, lemma_sum_of_scaled,
};
use vstd::arithmetic::mul::{
    lemma_mul_is_distributive_add, lemma_mul_is_distributive_add_other_way,
};
use vstd::prelude::*;

verus! {

/// How the grid is turned while it is filled.
pub struct Turn {
    /// The rows are written in reverse order.
    pub flip_rows: bool,
    /// The columns are written in reverse order.
    pub flip_columns: bool,
    /// After that, rows and columns change places.
    pub transpose: bool,
}

/// Whether the cell in row `r` and column `c` lies on a diagonal of its
/// 4 by 4 block.
pub open spec fn on_block_diagonal(r: int, c: int) -> bool {
    r % 4 == c % 4 || r % 4 + c % 4 == 3
}

/// The value that the cell in row `r` and column `c` is given before the
/// grid is turned: its number, or the mirrored number on a block diagonal.
pub open spec fn source_value(n: int, r: int, c: int) -> int {
    let number = r * n + c + 1;
    if on_block_diagonal(r, c) {
        n * n + 1 - number
    } else {
        number
    }
}

/// The row or column `i` of a grid of order `n`, counted from the other end
/// where `flip` is set.
pub open spec fn flipped(n: int, flip: bool, i: int) -> int {
    if flip {
        n - 1 - i
    } else {
        i
    }
}

/// The row in which the value of the cell in row `r` and column `c` is written.
pub open spec fn target_row(n: int, turn: Turn, r: int, c: int) -> int {
    if turn.transpose {
        flipped(n, turn.flip_columns, c)
    } else {
        flipped(n, turn.flip_rows, r)
    }
}

/// The column in which the value of the cell in row `r` and column `c` is
/// written.
pub open spec fn target_column(n: int, turn: Turn, r: int, c: int) -> int {
    if turn.transpose {
        flipped(n, turn.flip_rows, r)
    } else {
        flipped(n, turn.flip_columns, c)
    }
}

/// The value of the cell in row `r` and column `c` stands in `grid` where
/// the turn sends it.
pub open spec fn placed(grid: Seq<u32>, n: int, turn: Turn, r: int, c: int) -> bool {
    cell(grid, n, target_row(n, turn, r, c), target_column(n, turn, r, c)) == source_value(
        n,
        r,
        c,
    )
}

/// `grid` is the square of order `n` that the construction gives for `turn`.
pub open spec fn is_doubly_even_fill(grid: Seq<u32>, n: int, turn: Turn) -> bool {
    &&& grid.len() == n * n
    &&& forall|r: int, c: int| 0 <= r < n && 0 <= c < n ==> #[trigger] placed(grid, n, turn, r, c)
}

/// What the cell in row `r` and column `c` of the finished grid holds: the
/// value of the cell that the turn sends there.
pub open spec fn turned_value(n: int, turn: Turn, r: int, c: int) -> int {
    if turn.transpose {
        source_value(n, flipped(n, turn.flip_rows, c), flipped(n, turn.flip_columns, r))
    } else {
        source_value(n, flipped(n, turn.flip_rows, r), flipped(n, turn.flip_columns, c))
    }
}

/// The square of order `n` that the construction gives for `turn`.
pub open spec fn doubly_even_square(n: int, turn: Turn) -> Seq<u32> {
    grid_of(n, |r: int, c: int| turned_value(n, turn, r, c))
}

/// The coin that draw number `k`, counted from 0, gives from `state`:
/// whether the drawn value is odd.
pub open spec fn drawn_coin(state: u64, k: nat) -> bool {
    output(state_after(state, k + 1)) as int % 2 == 1
}

/// The turn that the three coins drawn from `state` give: the first decides
/// whether rows and columns change places, the second whether the rows are
/// reversed, the third whether the columns are.
pub open spec fn drawn_turn(state: u64) -> Turn {
    Turn {
        flip_rows: drawn_coin(state, 1),
        flip_columns: drawn_coin(state, 2),
        transpose: drawn_coin(state, 0),
    }
}

/// The square of order `n` that the construction gives when its draws start
/// from `state`.
pub open spec fn doubly_even_square_from(n: int, state: u64) -> Seq<u32> {
    doubly_even_square(n, drawn_turn(state))
}

/// The four values of a row inside one block of columns sum to
/// `2 * (n * n + 1)`.
proof fn lemma_source_row_group(n: int, r: int, base: int)
    requires
        n % 4 == 0,
        0 <= r < n,
        0 <= base,
        base + 3 < n,
        base % 4 == 0,
    ensures
        source_value(n, r, base) + source_value(n, r, base + 1) + source_value(n, r, base + 2)
            + source_value(n, r, base + 3) == 2 * (n * n) + 2,
{
    assert((base + 1) % 4 == 1);
    assert((base + 2) % 4 == 2);
    assert((base + 3) % 4 == 3);
}

/// The four values of a column inside one block of rows sum to
/// `2 * (n * n + 1)`.
proof fn lemma_source_column_group(n: int, c: int, base: int)
    requires
        n % 4 == 0,
        0 <= c < n,
        0 <= base,
        base + 3 < n,
        base % 4 == 0,
    ensures
        source_value(n, base, c) + source_value(n, base + 1, c) + source_value(n, base + 2, c)
            + source_value(n, base + 3, c) == 2 * (n * n) + 2,
{
    assert((base + 1) % 4 == 1);
    assert((base + 2) % 4 == 2);
    assert((base + 3) % 4 == 3);
    lemma_mul_is_distributive_add_other_way(n, base, 1);
    lemma_mul_is_distributive_add_other_way(n, base, 2);
    lemma_mul_is_distributive_add_other_way(n, base, 3);
}

/// The values on the two diagonals before the grid is turned, read from
/// either end, each as a multiple of the position plus a constant.
proof fn lemma_source_diagonals(n: int, i: int)
    requires
        n % 4 == 0,
        0 <= i < n,
    ensures
        source_value(n, i, i) == -(n + 1) * i + n * n,
        source_value(n, n - 1 - i, n - 1 - i) == (n + 1) * i + 1,
        source_value(n, n - 1 - i, i) == (n - 1) * i + n,
        source_value(n, i, n - 1 - i) == -(n - 1) * i + (n * n - n + 1),
{
    assert((n - 1 - i) % 4 + i % 4 == 3);
    assert(on_block_diagonal(i, i));
    assert(on_block_diagonal(n - 1 - i, n - 1 - i));
    assert(on_block_diagonal(n - 1 - i, i));
    assert(on_block_diagonal(i, n - 1 - i));
    assert(-(n + 1) * i + n * n == n * n + 1 - (i * n + i + 1)) by (nonlinear_arith);
    assert((n + 1) * i + 1 == n * n + 1 - ((n - 1 - i) * n + (n - 1 - i) + 1))
        by (nonlinear_arith);
    assert((n - 1) * i + n == n * n + 1 - ((n - 1 - i) * n + i + 1)) by (nonlinear_arith);
    assert(-(n - 1) * i + (n * n - n + 1) == n * n + 1 - (i * n + (n - 1 - i) + 1))
        by (nonlinear_arith);
}

/// Whether `a` times the position plus `b` is one of the four forms that the
/// values on a diagonal take.
spec fn is_diagonal_form(n: int, a: int, b: int) -> bool {
    ||| (a == -(n + 1) && b == n * n)
    ||| (a == n + 1 && b == 1)
    ||| (a == n - 1 && b == n)
    ||| (a == -(n - 1) && b == n * n - n + 1)
}

/// A sequence whose item at each position has one of the four forms that
/// the diagonals take sums to the magic constant.
proof fn lemma_diagonal_sum(u: Seq<int>, n: int, a: int, b: int)
    requires
        n >= 1,
        u.len() == n,
        forall|i: int| 0 <= i < n ==> #[trigger] u[i] == a * i + b,
        is_diagonal_form(n, a, b),
    ensures
        sum_of(u) == magic_constant(n),
{
    let indices: Seq<int> = Seq::new(n as nat, |i: int| i);
    lemma_sum_of_indices(indices);
    lemma_sum_of_scaled(u, a, indices, b);
    let t = sum_of(indices);
    assert(2 * (a * t + b * n) == n * (n * n + 1)) by (nonlinear_arith)
        requires
            2 * t == n * (n - 1),
            (a == -(n + 1) && b == n * n) || (a == n + 1 && b == 1) || (a == n - 1 && b == n) || (a
                == -(n - 1) && b == n * n - n + 1),
    ;
}

/// Two cells that are given the same value are the same cell.
proof fn lemma_source_value_unique(n: int, r1: int, c1: int, r2: int, c2: int)
    requires
        n % 4 == 0,
        0 <= r1 < n,
        0 <= c1 < n,
        0 <= r2 < n,
        0 <= c2 < n,
        source_value(n, r1, c1) == source_value(n, r2, c2),
    ensures
        r1 == r2,
        c1 == c2,
{
    lemma_cell_position(n, r1, c1);
    lemma_cell_position(n, r2, c2);
    if on_block_diagonal(r1, c1) == on_block_diagonal(r2, c2) {
        lemma_cell_position_unique(n, r1, c1, r2, c2);
    } else {
        // One value is a number and the other a mirrored number: the two
        // cells would mirror each other, and then both or neither would lie
        // on a block diagonal.
        assert(r1 + r2 == n - 1 && c1 + c2 == n - 1) by (nonlinear_arith)
            requires
                0 <= r1 < n,
                0 <= c1 < n,
                0 <= r2 < n,
                0 <= c2 < n,
                r1 * n + c1 + 1 + r2 * n + c2 + 1 == n * n + 1,
        ;
        assert(r2 % 4 == 3 - r1 % 4);
        assert(c2 % 4 == 3 - c1 % 4);
    }
}

/// The value of a cell lies between 1 and `n * n`.
proof fn lemma_source_value_range(n: int, r: int, c: int)
    requires
        0 <= r < n,
        0 <= c < n,
    ensures
        1 <= source_value(n, r, c) <= n * n,
{
    lemma_cell_position(n, r, c);
}

/// A cell of the finished grid holds the value of the cell that the turn
/// sends there.
proof fn lemma_cell_of_fill(grid: Seq<u32>, n: int, turn: Turn, r: int, c: int)
    requires
        is_doubly_even_fill(grid, n, turn),
        0 <= r < n,
        0 <= c < n,
    ensures
        cell(grid, n, r, c) == turned_value(n, turn, r, c),
{
    if turn.transpose {
        assert(placed(
            grid,
            n,
            turn,
            flipped(n, turn.flip_rows, c),
            flipped(n, turn.flip_columns, r),
        ));
    } else {
        assert(placed(
            grid,
            n,
            turn,
            flipped(n, turn.flip_rows, r),
            flipped(n, turn.flip_columns, c),
        ));
    }
}

/// Four neighbours in a row of the finished grid, from a column that is a
/// multiple of 4 on, sum to `2 * (n * n + 1)`.
proof fn lemma_fill_row_group(grid: Seq<u32>, n: int, turn: Turn, r: int, base: int)
    requires
        is_doubly_even_fill(grid, n, turn),
        n % 4 == 0,
        0 <= r < n,
        0 <= base,
        base + 3 < n,
        base % 4 == 0,
    ensures
        cell(grid, n, r, base) + cell(grid, n, r, base + 1) + cell(grid, n, r, base + 2) + cell(
            grid,
            n,
            r,
            base + 3,
        ) == 2 * (n * n) + 2,
{
    lemma_cell_of_fill(grid, n, turn, r, base);
    lemma_cell_of_fill(grid, n, turn, r, base + 1);
    lemma_cell_of_fill(grid, n, turn, r, base + 2);
    lemma_cell_of_fill(grid, n, turn, r, base + 3);
    // Reversed, the four neighbours are those of another block.
    let other_base = n - 4 - base;
    assert(other_base % 4 == 0);
    if turn.transpose {
        let fixed = flipped(n, turn.flip_columns, r);
        if turn.flip_rows {
            lemma_source_column_group(n, fixed, other_base);
        } else {
            lemma_source_column_group(n, fixed, base);
        }
    } else {
        let fixed = flipped(n, turn.flip_rows, r);
        if turn.flip_columns {
            lemma_source_row_group(n, fixed, other_base);
        } else {
            lemma_source_row_group(n, fixed, base);
        }
    }
}

/// Four neighbours in a column of the finished grid, from a row that is a
/// multiple of 4 on, sum to `2 * (n * n + 1)`.
proof fn lemma_fill_column_group(grid: Seq<u32>, n: int, turn: Turn, c: int, base: int)
    requires
        is_doubly_even_fill(grid, n, turn),
        n % 4 == 0,
        0 <= c < n,
        0 <= base,
        base + 3 < n,
        base % 4 == 0,
    ensures
        cell(grid, n, base, c) + cell(grid, n, base + 1, c) + cell(grid, n, base + 2, c) + cell(
            grid,
            n,
            base + 3,
            c,
        ) == 2 * (n * n) + 2,
{
    lemma_cell_of_fill(grid, n, turn, base, c);
    lemma_cell_of_fill(grid, n, turn, base + 1, c);
    lemma_cell_of_fill(grid, n, turn, base + 2, c);
    lemma_cell_of_fill(grid, n, turn, base + 3, c);
    // Reversed, the four neighbours are those of another block.
    let other_base = n - 4 - base;
    assert(other_base % 4 == 0);
    if turn.transpose {
        let fixed = flipped(n, turn.flip_rows, c);
        if turn.flip_columns {
            lemma_source_row_group(n, fixed, other_base);
        } else {
            lemma_source_row_group(n, fixed, base);
        }
    } else {
        let fixed = flipped(n, turn.flip_columns, c);
        if turn.flip_rows {
            lemma_source_column_group(n, fixed, other_base);
        } else {
            lemma_source_column_group(n, fixed, base);
        }
    }
}

/// Every row and every column of the finished grid sums to the magic
/// constant.
proof fn lemma_fill_rows_and_columns(grid: Seq<u32>, n: int, turn: Turn)
    requires
        n >= 4,
        n % 4 == 0,
        is_doubly_even_fill(grid, n, turn),
    ensures
        forall|r: int| 0 <= r < n ==> sum_of(#[trigger] row(grid, n, r)) == magic_constant(n),
        forall|c: int| 0 <= c < n ==> sum_of(#[trigger] column(grid, n, c)) == magic_constant(n),
{
    let quarter = n / 4;
    let group = 2 * (n * n) + 2;
    let groups: Seq<int> = Seq::new(quarter as nat, |b: int| group);
    lemma_sum_of_constant(groups, group);
    assert(group * quarter == magic_constant(n)) by (nonlinear_arith)
        requires
            n == 4 * quarter,
            group == 2 * (n * n) + 2,
    ;
    assert forall|r: int| 0 <= r < n implies sum_of(#[trigger] row(grid, n, r)) == magic_constant(
        n,
    ) by {
        let line = row(grid, n, r);
        assert forall|b: int| 0 <= b < quarter implies #[trigger] groups[b] == line[4 * b] + line[4
            * b + 1] + line[4 * b + 2] + line[4 * b + 3] by {
            lemma_fill_row_group(grid, n, turn, r, 4 * b);
        }
        lemma_sum_of_fours(line, groups);
    }
    assert forall|c: int| 0 <= c < n implies sum_of(#[trigger] column(grid, n, c))
        == magic_constant(n) by {
        let line = column(grid, n, c);
        assert forall|b: int| 0 <= b < quarter implies #[trigger] groups[b] == line[4 * b] + line[4
            * b + 1] + line[4 * b + 2] + line[4 * b + 3] by {
            lemma_fill_column_group(grid, n, turn, c, 4 * b);
        }
        lemma_sum_of_fours(line, groups);
    }
}

/// Both diagonals of the finished grid sum to the magic constant.
proof fn lemma_fill_diagonals(grid: Seq<u32>, n: int, turn: Turn)
    requires
        n >= 4,
        n % 4 == 0,
        is_doubly_even_fill(grid, n, turn),
    ensures
        sum_of(main_diagonal(grid, n)) == magic_constant(n),
        sum_of(anti_diagonal(grid, n)) == magic_constant(n),
{
    let main = main_diagonal(grid, n);
    let anti = anti_diagonal(grid, n);
    let (main_a, main_b) = if turn.flip_rows {
        if turn.flip_columns {
            (n + 1, 1int)
        } else {
            (n - 1, n)
        }
    } else {
        if turn.flip_columns {
            (-(n - 1), n * n - n + 1)
        } else {
            (-(n + 1), n * n)
        }
    };
    assert forall|i: int| 0 <= i < n implies #[trigger] main[i] == main_a * i + main_b by {
        lemma_cell_of_fill(grid, n, turn, i, i);
        lemma_source_diagonals(n, i);
    }
    lemma_diagonal_sum(main, n, main_a, main_b);
    // The other diagonal runs through the cells that one more reversal of
    // the columns would bring onto the first.
    let (anti_a, anti_b) = if turn.flip_rows != turn.transpose {
        if turn.flip_columns != turn.transpose {
            (n - 1, n)
        } else {
            (n + 1, 1int)
        }
    } else {
        if turn.flip_columns != turn.transpose {
            (-(n + 1), n * n)
        } else {
            (-(n - 1), n * n - n + 1)
        }
    };
    assert forall|i: int| 0 <= i < n implies #[trigger] anti[i] == anti_a * i + anti_b by {
        let j = n - 1 - i;
        lemma_cell_of_fill(grid, n, turn, i, j);
        lemma_source_diagonals(n, i);
        lemma_source_diagonals(n, j);
        lemma_mul_is_distributive_add(n + 1, i, j);
        lemma_mul_is_distributive_add(n - 1, i, j);
        lemma_mul_is_distributive_add(-(n + 1), i, j);
        lemma_mul_is_distributive_add(-(n - 1), i, j);
    }
    lemma_diagonal_sum(anti, n, anti_a, anti_b);
}

/// The finished grid holds each value from 1 to `n * n` once.
proof fn lemma_fill_values(grid: Seq<u32>, n: int, turn: Turn)
    requires
        n >= 4,
        n % 4 == 0,
        is_doubly_even_fill(grid, n, turn),
    ensures
        holds_each_value_once(grid, n),
{
    assert forall|r: int, c: int| 0 <= r < n && 0 <= c < n implies 1 <= #[trigger] cell(
        grid,
        n,
        r,
        c,
    ) <= n * n by {
        lemma_cell_of_fill(grid, n, turn, r, c);
        let along = flipped(n, turn.flip_rows, r);
        let across = flipped(n, turn.flip_columns, c);
        lemma_source_value_range(n, along, across);
        lemma_source_value_range(
            n,
            flipped(n, turn.flip_rows, c),
            flipped(n, turn.flip_columns, r),
        );
    }
    assert forall|r1: int, c1: int, r2: int, c2: int|
        0 <= r1 < n && 0 <= c1 < n && 0 <= r2 < n && 0 <= c2 < n && #[trigger] cell(
            grid,
            n,
            r1,
            c1,
        ) == #[trigger] cell(grid, n, r2, c2) implies r1 == r2 && c1 == c2 by {
        lemma_cell_of_fill(grid, n, turn, r1, c1);
        lemma_cell_of_fill(grid, n, turn, r2, c2);
        if turn.transpose {
            lemma_source_value_unique(
                n,
                flipped(n, turn.flip_rows, c1),
                flipped(n, turn.flip_columns, r1),
                flipped(n, turn.flip_rows, c2),
                flipped(n, turn.flip_columns, r2),
            );
        } else {
            lemma_source_value_unique(
                n,
                flipped(n, turn.flip_rows, r1),
                flipped(n, turn.flip_columns, c1),
                flipped(n, turn.flip_rows, r2),
                flipped(n, turn.flip_columns, c2),
            );
        }
    }
    lemma_each_value_once_by_cells(grid, n);
}

/// The grid that the construction gives is a magic square, however it is
/// turned.
pub proof fn lemma_doubly_even_is_magic(grid: Seq<u32>, n: int, turn: Turn)
    requires
        n >= 4,
        n % 4 == 0,
        is_doubly_even_fill(grid, n, turn),
    ensures
        is_magic_square(grid, n),
{
    lemma_fill_rows_and_columns(grid, n, turn);
    lemma_fill_diagonals(grid, n, turn);
    lemma_fill_values(grid, n, turn);
    assert(has_magic_sums(grid, n));
}

/// A grid with the cells of the construction is its square.
pub proof fn lemma_doubly_even_fill_is_square(grid: Seq<u32>, n: int, turn: Turn)
    requires
        n >= 1,
        is_doubly_even_fill(grid, n, turn),
    ensures
        grid == doubly_even_square(n, turn),
{
    assert forall|r: int, c: int| 0 <= r < n && 0 <= c < n implies #[trigger] cell(grid, n, r, c)
        == turned_value(n, turn, r, c) by {
        lemma_cell_of_fill(grid, n, turn, r, c);
    }
    lemma_grid_of(grid, n, |r: int, c: int| turned_value(n, turn, r, c));
}

/// Whatever is drawn, the square that the construction gives for a multiple
/// of 4 is a magic square.
pub proof fn lemma_doubly_even_square_from_is_magic(n: int, state: u64)
    requires
        4 <= n <= 65535,
        n % 4 == 0,
    ensures
        is_magic_square(doubly_even_square_from(n, state), n),
{
    let turn = drawn_turn(state);
    let value = |r: int, c: int| turned_value(n, turn, r, c);
    let grid = doubly_even_square(n, turn);
    assert(n * n <= 65535 * 65535) by (nonlinear_arith)
        requires
            0 <= n <= 65535,
    ;
    assert forall|r: int, c: int| 0 <= r < n && 0 <= c < n implies #[trigger] placed(
        grid,
        n,
        turn,
        r,
        c,
    ) by {
        lemma_source_value_range(n, r, c);
        lemma_grid_of_cell(n, value, target_row(n, turn, r, c), target_column(n, turn, r, c));
    }
    lemma_grid_of_len(n, value);
    lemma_doubly_even_is_magic(grid, n, turn);
}

/// Sending two cells to the same place means they are the same cell.
proof fn lemma_target_unique(n: int, turn: Turn, r1: int, c1: int, r2: int, c2: int)
    requires
        0 <= r1 < n,
        0 <= c1 < n,
        0 <= r2 < n,
        0 <= c2 < n,
        target_row(n, turn, r1, c1) * n + target_column(n, turn, r1, c1) == target_row(
            n,
            turn,
            r2,
            c2,
        ) * n + target_column(n, turn, r2, c2),
    ensures
        r1 == r2,
        c1 == c2,
{
    lemma_cell_position_unique(
        n,
        target_row(n, turn, r1, c1),
        target_column(n, turn, r1, c1),
        target_row(n, turn, r2, c2),
        target_column(n, turn, r2, c2),
    );
}

/// Drawing three times moves the state on by three steps.
proof fn lemma_three_draws(start: u64)
    ensures
        state_after(start, 1) == next_state(start),
        state_after(start, 2) == next_state(next_state(start)),
        state_after(start, 3) == next_state(next_state(next_state(start))),
{
    let first = next_state(start);
    let second = next_state(first);
    let third = next_state(second);
    assert(state_after(start, 1) == state_after(first, 0));
    assert(state_after(start, 2) == state_after(first, 1));
    assert(state_after(first, 1) == state_after(second, 0));
    assert(state_after(start, 3) == state_after(first, 2));
    assert(state_after(first, 2) == state_after(second, 1));
    assert(state_after(second, 1) == state_after(third, 0));
}

/// The construction for orders that are multiples of 4.
pub struct DoublyEvenGenerator<'a> {
    /// The source of the three coins.
    pub rng: &'a mut Lcg,
}

impl<'a> DoublyEvenGenerator<'a> {
    /// A generator that draws from `rng`.
    pub fn new(rng: &'a mut Lcg) -> (generator: Self)
        ensures
            *generator.rng == *old(rng),
            *final(generator.rng) == *final(rng),
    {
        Self { rng }
    }
}

impl<'a> MagicGenerator for DoublyEvenGenerator<'a> {
    open spec fn constructs(&self, n: int) -> bool {
        4 <= n <= 65535 && n % 4 == 0
    }

    /// The square of order `n` for the three coins drawn next: the first
    /// decides whether rows and columns change places, the second whether
    /// the rows are reversed, the third whether the columns are.
    fn generate(&mut self, n: usize) -> (grid: Vec<u32>)
        ensures
            grid@ == doubly_even_square_from(n as int, old(self).rng.state()),
            final(self).rng.state() == state_after(old(self).rng.state(), 3),
            *final(final(self).rng) == *final(old(self).rng),
    {
        proof {
            assert(n * n <= 65535 * 65535) by (nonlinear_arith)
                requires
                    n <= 65535,
            ;
            lemma_three_draws(self.rng.state());
        }
        let cells: usize = n * n;
        let mut grid: Vec<u32> = vec![0u32; cells];

        let do_transpose: bool = self.rng.next_range(0, 2) == 1;
        let do_flip_r: bool = self.rng.next_range(0, 2) == 1;
        let do_flip_c: bool = self.rng.next_range(0, 2) == 1;
        let ghost turn = Turn {
            flip_rows: do_flip_r,
            flip_columns: do_flip_c,
            transpose: do_transpose,
        };
        assert(turn == drawn_turn(old(self).rng.state()));

        let mut r: usize = 0;
        while r < n
            invariant
                r <= n,
                4 <= n <= 65535,
                cells == n * n,
                cells <= 65535 * 65535,
                grid@.len() == cells,
                turn.flip_rows == do_flip_r,
                turn.flip_columns == do_flip_c,
                turn.transpose == do_transpose,
                forall|r0: int, c0: int|
                    0 <= r0 < r && 0 <= c0 < n ==> #[trigger] placed(grid@, n as int, turn, r0, c0),
            decreases n - r,
        {
            let mut c: usize = 0;
            while c < n
                invariant
                    r < n,
                    c <= n,
                    4 <= n <= 65535,
                    cells == n * n,
                    cells <= 65535 * 65535,
                    grid@.len() == cells,
                    turn.flip_rows == do_flip_r,
                    turn.flip_columns == do_flip_c,
                    turn.transpose == do_transpose,
                    forall|r0: int, c0: int|
                        0 <= r0 < n && 0 <= c0 < n && (r0 < r || (r0 == r && c0 < c))
                            ==> #[trigger] placed(grid@, n as int, turn, r0, c0),
                decreases n - c,
            {
                proof {
                    lemma_cell_position(n as int, r as int, c as int);
                }
                let val_seq: u32 = (r * n + c + 1) as u32;
                let val_inv: u32 = (cells as u32 + 1) - val_seq;

                let r4: usize = r % 4;
                let c4: usize = c % 4;
                let is_diag: bool = (r4 == c4) || (r4 + c4 == 3);
                let val: u32 = if is_diag {
                    val_inv
                } else {
                    val_seq
                };

                let mut tr: usize = r;
                let mut tc: usize = c;
                if do_flip_r {
                    tr = n - 1 - tr;
                }
                if do_flip_c {
                    tc = n - 1 - tc;
                }
                if do_transpose {
                    let temp: usize = tr;
                    tr = tc;
                    tc = temp;
                }
                proof {
                    lemma_cell_position(n as int, tr as int, tc as int);
                }
                let ghost before = grid@;
                grid[tr * n + tc] = val;
                proof {
                    assert forall|r0: int, c0: int|
                        0 <= r0 < n && 0 <= c0 < n && (r0 < r || (r0 == r && c0 < c + 1))
                            implies #[trigger] placed(grid@, n as int, turn, r0, c0) by {
                        if r0 != r || c0 != c {
                            let row0 = target_row(n as int, turn, r0, c0);
                            let column0 = target_column(n as int, turn, r0, c0);
                            lemma_cell_position(n as int, row0, column0);
                            assert(placed(before, n as int, turn, r0, c0));
                            if row0 * n + column0 == tr * n + tc {
                                lemma_target_unique(n as int, turn, r0, c0, r as int, c as int);
                            }
                        }
                    }
                }
                c += 1;
            }
            r += 1;
        }
        proof {
            lemma_doubly_even_is_magic(grid@, n as int, turn);
            lemma_doubly_even_fill_is_square(grid@, n as int, turn);
        }
        grid
    }
}

} // verus!
