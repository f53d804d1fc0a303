//! Squares whose order is even but no multiple of 4.
//!
//! A magic square of half the order gives the order in which the 2 by 2
//! blocks of the grid are filled: the block of a cell with value `v` takes
//! the four numbers from `4 * (v - 1) + 1` on. One of three patterns, chosen
//! by the place of the block, says where in the block each of the four goes.

use crate::generator::odd::{
    lemma_odd_square_from_is_magic, odd_square_from, state_after_odd, OddGenerator,
};
use crate::generator::MagicGenerator;
use crate::rng::Lcg;
use crate::square::{
    anti_diagonal, cell, column, grid_of, holds_each_value_once, is_magic_square,
    lemma_cell_position,
    lemma_cell_position_unique, lemma_each_value_once_by_cells, lemma_grid_of,
    lemma_grid_of_cell, lemma_grid_of_len, magic_constant, main_diagonal, row, sum_of,
};
use crate::sums::{
    lemma_sum_of_combination, lemma_sum_of_concat, lemma_sum_of_constant, lemma_sum_of_pairs,
    lemma_sum_of_scaled,
};
use vstd::arithmetic::mul::lemma_mul_is_distributive_add_other_way;
use vstd::prelude::*;

verus! {

/// The pattern by which a block is filled.
#[derive(Clone, Copy, Debug, PartialEq, Eq)]
pub enum Pattern {
    /// Top right, bottom left, bottom right, top left.
    L,
    /// Top left, bottom left, bottom right, top right.
    U,
    /// Top left, bottom right, bottom left, top right.
    X,
}

/// The pattern of row `r` before the two middle blocks change places: `L`
/// down to the middle row, `U` in the row below it, `X` in the rest.
pub open spec fn row_pattern(m: int, r: int) -> Pattern {
    if r <= m / 2 {
        Pattern::L
    } else if r == m / 2 + 1 {
        Pattern::U
    } else {
        Pattern::X
    }
}

/// The pattern of the block in row `r` and column `c` of the `m` by `m`
/// blocks: that of its row, but for the block in the centre, which is `U`,
/// and the block below it, which is `L`.
pub open spec fn pattern_of(m: int, r: int, c: int) -> Pattern {
    if r == m / 2 && c == m / 2 {
        Pattern::U
    } else if r == m / 2 + 1 && c == m / 2 {
        Pattern::L
    } else {
        row_pattern(m, r)
    }
}

/// Which of the four numbers of a block, counted from 0, the pattern puts
/// in row `dr` and column `dc` of the block.
pub open spec fn block_offset(pattern: Pattern, dr: int, dc: int) -> int {
    match pattern {
        Pattern::L => if dr == 0 {
            if dc == 0 {
                3
            } else {
                0
            }
        } else {
            if dc == 0 {
                1
            } else {
                2
            }
        },
        Pattern::U => if dr == 0 {
            if dc == 0 {
                0
            } else {
                3
            }
        } else {
            if dc == 0 {
                1
            } else {
                2
            }
        },
        Pattern::X => if dr == 0 {
            if dc == 0 {
                0
            } else {
                3
            }
        } else {
            if dc == 0 {
                2
            } else {
                1
            }
        },
    }
}

/// The value of the cell in row `r` and column `c` of the grid of order
/// `2 * m` that is built on `base`, a grid of order `m`.
pub open spec fn block_value(base: Seq<u32>, m: int, r: int, c: int) -> int {
    (cell(base, m, r / 2, c / 2) - 1) * 4 + 1 + block_offset(
        pattern_of(m, r / 2, c / 2),
        r % 2,
        c % 2,
    )
}

/// `grid` is the square of order `n` that the construction builds on `base`.
pub open spec fn is_singly_even_fill(grid: Seq<u32>, n: int, base: Seq<u32>) -> bool {
    &&& grid.len() == n * n
    &&& forall|r: int, c: int|
        0 <= r < n && 0 <= c < n ==> #[trigger] cell(grid, n, r, c) == block_value(
            base,
            n / 2,
            r,
            c,
        )
}

/// The square of order `n` that the construction builds on `base`.
pub open spec fn singly_even_square(n: int, base: Seq<u32>) -> Seq<u32> {
    grid_of(n, |r: int, c: int| block_value(base, n / 2, r, c))
}

/// The square of order `n` that the construction gives when its draws start
/// from `state`: the one built on the odd square of order `n / 2` for the
/// same draws.
pub open spec fn singly_even_square_from(n: int, state: u64) -> Seq<u32> {
    singly_even_square(n, odd_square_from(n / 2, state))
}

/// The magic constant of twice an odd order.
proof fn lemma_magic_constant_doubled(m: int)
    requires
        m >= 1,
        m % 2 == 1,
    ensures
        2 * magic_constant(m) == m * (m * m + 1),
        magic_constant(2 * m) == 8 * magic_constant(m) - 3 * m,
{
    let k = (m - 1) / 2;
    let t = m * (2 * k * k + 2 * k + 1);
    assert(m * (m * m + 1) == 2 * t) by (nonlinear_arith)
        requires
            m == 2 * k + 1,
            t == m * (2 * k * k + 2 * k + 1),
    ;
    let n = 2 * m;
    let s = 8 * t - 3 * m;
    assert(n * (n * n + 1) == 2 * s) by (nonlinear_arith)
        requires
            n == 2 * m,
            m == 2 * k + 1,
            t == m * (2 * k * k + 2 * k + 1),
            s == 8 * t - 3 * m,
    ;
}

/// The sum of a line of `2 * k + 1` numbers that starts with `k` times
/// `first`, ends with `k - 1` times `last`, and has two numbers with the sum
/// `middle` in between.
proof fn lemma_pattern_line(w: Seq<int>, k: int, first: int, middle: int, last: int)
    requires
        k >= 1,
        w.len() == 2 * k + 1,
        forall|i: int| 0 <= i < k ==> #[trigger] w[i] == first,
        w[k] + w[k + 1] == middle,
        forall|i: int| k + 2 <= i < 2 * k + 1 ==> #[trigger] w[i] == last,
    ensures
        sum_of(w) == first * k + middle + last * (k - 1),
{
    let head = w.take(k);
    let pair = w.subrange(k, k + 2);
    let tail = w.skip(k + 2);
    assert(w =~= head + pair + tail);
    lemma_sum_of_concat(head, pair);
    lemma_sum_of_concat(head + pair, tail);
    lemma_sum_of_constant(head, first);
    lemma_sum_of_constant(tail, last);
    assert(pair.drop_last().drop_last() =~= Seq::<int>::empty());
    assert(sum_of(pair) == sum_of(pair.drop_last()) + pair[1]);
    assert(sum_of(pair.drop_last()) == sum_of(pair.drop_last().drop_last()) + pair[0]);
}

/// Row `r` of the grid built on `base` sums to the magic constant.
proof fn lemma_block_row(grid: Seq<u32>, n: int, base: Seq<u32>, r: int)
    requires
        n >= 6,
        n % 4 == 2,
        is_singly_even_fill(grid, n, base),
        sum_of(row(base, n / 2, r / 2)) == magic_constant(n / 2),
        0 <= r < n,
    ensures
        sum_of(row(grid, n, r)) == magic_constant(n),
{
    let m = n / 2;
    lemma_magic_constant_doubled(m);
    let line = row(grid, n, r);
    let below = row(base, m, r / 2);
    let pairs: Seq<int> = Seq::new(m as nat, |c: int| line[2 * c] + line[2 * c + 1]);
    assert forall|c: int| 0 <= c < m implies #[trigger] pairs[c] == 8 * below[c] + (-3) by {
        assert(cell(grid, n, r, 2 * c) == block_value(base, m, r, 2 * c));
        assert(cell(grid, n, r, 2 * c + 1) == block_value(base, m, r, 2 * c + 1));
    }
    lemma_sum_of_pairs(line, pairs);
    lemma_sum_of_scaled(pairs, 8, below, -3);
}

/// Column `c` of the grid built on `base` sums to the magic constant.
proof fn lemma_block_column(grid: Seq<u32>, n: int, base: Seq<u32>, c: int)
    requires
        n >= 6,
        n % 4 == 2,
        is_singly_even_fill(grid, n, base),
        sum_of(column(base, n / 2, c / 2)) == magic_constant(n / 2),
        0 <= c < n,
    ensures
        sum_of(column(grid, n, c)) == magic_constant(n),
{
    let m = n / 2;
    let k = m / 2;
    lemma_magic_constant_doubled(m);
    let line = column(grid, n, c);
    let below = column(base, m, c / 2);
    let pairs: Seq<int> = Seq::new(m as nat, |r: int| line[2 * r] + line[2 * r + 1]);
    let w: Seq<int> = Seq::new(
        m as nat,
        |r: int|
            block_offset(pattern_of(m, r, c / 2), 0, c % 2) + block_offset(
                pattern_of(m, r, c / 2),
                1,
                c % 2,
            ),
    );
    assert forall|r: int| 0 <= r < m implies #[trigger] pairs[r] == 8 * below[r] + 1
        * w[r] + (-6) by {
        assert(cell(grid, n, 2 * r, c) == block_value(base, m, 2 * r, c));
        assert(cell(grid, n, 2 * r + 1, c) == block_value(base, m, 2 * r + 1, c));
    }
    lemma_sum_of_pairs(line, pairs);
    lemma_sum_of_combination(pairs, 8, below, 1, w, -6);
    if c % 2 == 0 {
        lemma_pattern_line(w, k, 4, 5, 2);
    } else {
        lemma_pattern_line(w, k, 2, 7, 4);
    }
}

/// The diagonal from the top left of the grid built on `base` sums to the
/// magic constant.
proof fn lemma_block_main_diagonal(grid: Seq<u32>, n: int, base: Seq<u32>)
    requires
        n >= 6,
        n % 4 == 2,
        is_singly_even_fill(grid, n, base),
        sum_of(main_diagonal(base, n / 2)) == magic_constant(n / 2),
    ensures
        sum_of(main_diagonal(grid, n)) == magic_constant(n),
{
    let m = n / 2;
    let k = m / 2;
    lemma_magic_constant_doubled(m);
    let line = main_diagonal(grid, n);
    let below = main_diagonal(base, m);
    let pairs: Seq<int> = Seq::new(m as nat, |i: int| line[2 * i] + line[2 * i + 1]);
    let w: Seq<int> = Seq::new(
        m as nat,
        |i: int| block_offset(pattern_of(m, i, i), 0, 0) + block_offset(pattern_of(m, i, i), 1, 1),
    );
    assert forall|i: int| 0 <= i < m implies #[trigger] pairs[i] == 8 * below[i] + 1
        * w[i] + (-6) by {
        assert(cell(grid, n, 2 * i, 2 * i) == block_value(base, m, 2 * i, 2 * i));
        assert(cell(grid, n, 2 * i + 1, 2 * i + 1) == block_value(base, m, 2 * i + 1, 2 * i + 1));
    }
    lemma_sum_of_pairs(line, pairs);
    lemma_sum_of_combination(pairs, 8, below, 1, w, -6);
    lemma_pattern_line(w, k, 5, 4, 1);
}

/// The diagonal from the top right of the grid built on `base` sums to the
/// magic constant.
proof fn lemma_block_anti_diagonal(grid: Seq<u32>, n: int, base: Seq<u32>)
    requires
        n >= 6,
        n % 4 == 2,
        is_singly_even_fill(grid, n, base),
        sum_of(anti_diagonal(base, n / 2)) == magic_constant(n / 2),
    ensures
        sum_of(anti_diagonal(grid, n)) == magic_constant(n),
{
    let m = n / 2;
    let k = m / 2;
    lemma_magic_constant_doubled(m);
    let line = anti_diagonal(grid, n);
    let below = anti_diagonal(base, m);
    let pairs: Seq<int> = Seq::new(m as nat, |i: int| line[2 * i] + line[2 * i + 1]);
    let w: Seq<int> = Seq::new(
        m as nat,
        |i: int|
            block_offset(pattern_of(m, i, m - 1 - i), 0, 1) + block_offset(
                pattern_of(m, i, m - 1 - i),
                1,
                0,
            ),
    );
    assert forall|i: int| 0 <= i < m implies #[trigger] pairs[i] == 8 * below[i] + 1
        * w[i] + (-6) by {
        assert(cell(grid, n, 2 * i, n - 1 - 2 * i) == block_value(base, m, 2 * i, n - 1 - 2 * i));
        assert(cell(grid, n, 2 * i + 1, n - 1 - (2 * i + 1)) == block_value(
            base,
            m,
            2 * i + 1,
            n - 1 - (2 * i + 1),
        ));
    }
    lemma_sum_of_pairs(line, pairs);
    lemma_sum_of_combination(pairs, 8, below, 1, w, -6);
    lemma_pattern_line(w, k, 1, 8, 5);
}

/// The grid built on a grid that holds each of its values once holds each
/// of its own values once.
proof fn lemma_block_values(grid: Seq<u32>, n: int, base: Seq<u32>)
    requires
        n >= 6,
        n % 4 == 2,
        base.len() == (n / 2) * (n / 2),
        holds_each_value_once(base, n / 2),
        is_singly_even_fill(grid, n, base),
    ensures
        holds_each_value_once(grid, n),
{
    let m = n / 2;
    assert(n * n == 4 * (m * m)) by (nonlinear_arith)
        requires
            n == 2 * m,
    ;
    assert forall|r: int, c: int| 0 <= r < n && 0 <= c < n implies 1 <= #[trigger] cell(
        grid,
        n,
        r,
        c,
    ) <= n * n by {
        lemma_cell_position(m, r / 2, c / 2);
        assert(1 <= base[(r / 2) * m + c / 2] <= m * m);
    }
    assert forall|r1: int, c1: int, r2: int, c2: int|
        0 <= r1 < n && 0 <= c1 < n && 0 <= r2 < n && 0 <= c2 < n && #[trigger] cell(
            grid,
            n,
            r1,
            c1,
        ) == #[trigger] cell(grid, n, r2, c2) implies r1 == r2 && c1 == c2 by {
        lemma_cell_position(m, r1 / 2, c1 / 2);
        lemma_cell_position(m, r2 / 2, c2 / 2);
        let first = (r1 / 2) * m + c1 / 2;
        let second = (r2 / 2) * m + c2 / 2;
        assert(base[first] == base[second]);
        if first != second {
            if first < second {
                assert(base[first] != base[second]);
            } else {
                assert(base[second] != base[first]);
            }
        }
        lemma_cell_position_unique(m, r1 / 2, c1 / 2, r2 / 2, c2 / 2);
    }
    lemma_each_value_once_by_cells(grid, n);
}

/// The grid that the construction builds on a magic square of odd order is
/// a magic square.
pub proof fn lemma_singly_even_is_magic(grid: Seq<u32>, n: int, base: Seq<u32>)
    requires
        n >= 6,
        n % 4 == 2,
        is_magic_square(base, n / 2),
        is_singly_even_fill(grid, n, base),
    ensures
        is_magic_square(grid, n),
{
    let m = n / 2;
    assert forall|r: int| 0 <= r < n implies sum_of(#[trigger] row(grid, n, r)) == magic_constant(
        n,
    ) by {
        assert(sum_of(row(base, m, r / 2)) == magic_constant(m));
        lemma_block_row(grid, n, base, r);
    }
    assert forall|c: int| 0 <= c < n implies sum_of(#[trigger] column(grid, n, c))
        == magic_constant(n) by {
        assert(sum_of(column(base, m, c / 2)) == magic_constant(m));
        lemma_block_column(grid, n, base, c);
    }
    lemma_block_main_diagonal(grid, n, base);
    lemma_block_anti_diagonal(grid, n, base);
    lemma_block_values(grid, n, base);
}

/// A grid with the cells of the construction is its square.
pub proof fn lemma_singly_even_fill_is_square(grid: Seq<u32>, n: int, base: Seq<u32>)
    requires
        n >= 1,
        is_singly_even_fill(grid, n, base),
    ensures
        grid == singly_even_square(n, base),
{
    lemma_grid_of(grid, n, |r: int, c: int| block_value(base, n / 2, r, c));
}

/// Whatever is drawn, the square that the construction gives for an even
/// order that is no multiple of 4 is a magic square.
pub proof fn lemma_singly_even_square_from_is_magic(n: int, state: u64)
    requires
        6 <= n <= 65535,
        n % 4 == 2,
    ensures
        is_magic_square(singly_even_square_from(n, state), n),
{
    let m = n / 2;
    let base = odd_square_from(m, state);
    lemma_odd_square_from_is_magic(m, state);
    let value = |r: int, c: int| block_value(base, m, r, c);
    let grid = singly_even_square(n, base);
    assert(m * m <= 32767 * 32767) by (nonlinear_arith)
        requires
            0 <= m <= 32767,
    ;
    assert forall|r: int, c: int| 0 <= r < n && 0 <= c < n implies #[trigger] cell(grid, n, r, c)
        == block_value(base, m, r, c) by {
        lemma_cell_position(m, r / 2, c / 2);
        assert(1 <= base[(r / 2) * m + c / 2] <= m * m);
        lemma_grid_of_cell(n, value, r, c);
    }
    lemma_grid_of_len(n, value);
    lemma_singly_even_is_magic(grid, n, base);
}

/// The patterns of the `m` by `m` blocks, row after row.
pub fn build_pattern_grid(m: usize) -> (patterns: Vec<Pattern>)
    requires
        3 <= m <= 65535,
        m % 2 == 1,
    ensures
        patterns@.len() == m * m,
        forall|r: int, c: int|
            0 <= r < m && 0 <= c < m ==> #[trigger] patterns@[r * m + c] == pattern_of(
                m as int,
                r,
                c,
            ),
{
    proof {
        assert(m * m <= 65535 * 65535) by (nonlinear_arith)
            requires
                m <= 65535,
        ;
    }
    let cells: usize = m * m;
    let mut pattern_grid: Vec<Pattern> = vec![Pattern::X; cells];
    let k_lux: usize = m / 2;

    let mut r: usize = 0;
    while r < m
        invariant
            r <= m,
            3 <= m <= 65535,
            cells == m * m,
            cells <= 65535 * 65535,
            k_lux == m / 2,
            pattern_grid@.len() == cells,
            forall|r0: int, c0: int|
                0 <= r0 < r && 0 <= c0 < m ==> #[trigger] pattern_grid@[r0 * m + c0]
                    == row_pattern(m as int, r0),
        decreases m - r,
    {
        let mut c: usize = 0;
        while c < m
            invariant
                r < m,
                c <= m,
                3 <= m <= 65535,
                cells == m * m,
                cells <= 65535 * 65535,
                k_lux == m / 2,
                pattern_grid@.len() == cells,
                forall|r0: int, c0: int|
                    0 <= r0 < m && 0 <= c0 < m && (r0 < r || (r0 == r && c0 < c))
                        ==> #[trigger] pattern_grid@[r0 * m + c0] == row_pattern(m as int, r0),
            decreases m - c,
        {
            proof {
                lemma_cell_position(m as int, r as int, c as int);
            }
            let ghost before = pattern_grid@;
            if r <= k_lux {
                pattern_grid[r * m + c] = Pattern::L;
            } else if r == k_lux + 1 {
                pattern_grid[r * m + c] = Pattern::U;
            } else {
                pattern_grid[r * m + c] = Pattern::X;
            }
            proof {
                assert forall|r0: int, c0: int|
                    0 <= r0 < m && 0 <= c0 < m && (r0 < r || (r0 == r && c0 < c + 1))
                        implies #[trigger] pattern_grid@[r0 * m + c0] == row_pattern(
                    m as int,
                    r0,
                ) by {
                    lemma_cell_position(m as int, r0, c0);
                    if r0 != r || c0 != c {
                        if r0 * m + c0 == r * m + c {
                            lemma_cell_position_unique(m as int, r0, c0, r as int, c as int);
                        }
                        assert(before[r0 * m + c0] == row_pattern(m as int, r0));
                    }
                }
            }
            c += 1;
        }
        r += 1;
    }

    // The block in the centre and the one below it change places.
    proof {
        lemma_cell_position(m as int, k_lux as int, k_lux as int);
        lemma_cell_position(m as int, k_lux + 1, k_lux as int);
    }
    let ghost filled = pattern_grid@;
    pattern_grid[k_lux * m + k_lux] = Pattern::U;
    pattern_grid[(k_lux + 1) * m + k_lux] = Pattern::L;
    proof {
        assert forall|r0: int, c0: int|
            0 <= r0 < m && 0 <= c0 < m implies #[trigger] pattern_grid@[r0 * m + c0] == pattern_of(
            m as int,
            r0,
            c0,
        ) by {
            lemma_cell_position(m as int, r0, c0);
            if r0 * m + c0 == k_lux * m + k_lux {
                lemma_cell_position_unique(m as int, r0, c0, k_lux as int, k_lux as int);
            }
            if r0 * m + c0 == (k_lux + 1) * m + k_lux {
                lemma_cell_position_unique(m as int, r0, c0, k_lux + 1, k_lux as int);
            }
            assert(filled[r0 * m + c0] == row_pattern(m as int, r0));
        }
    }
    pattern_grid
}

/// The values of the four cells of the block in row `r` and column `c` of
/// the blocks: the first of its four numbers plus what the pattern says.
proof fn lemma_block_cells(base: Seq<u32>, m: int, r: int, c: int)
    requires
        0 <= r,
        0 <= c,
    ensures
        block_value(base, m, 2 * r, 2 * c) == (cell(base, m, r, c) - 1) * 4 + 1 + block_offset(
            pattern_of(m, r, c),
            0,
            0,
        ),
        block_value(base, m, 2 * r, 2 * c + 1) == (cell(base, m, r, c) - 1) * 4 + 1 + block_offset(
            pattern_of(m, r, c),
            0,
            1,
        ),
        block_value(base, m, 2 * r + 1, 2 * c) == (cell(base, m, r, c) - 1) * 4 + 1 + block_offset(
            pattern_of(m, r, c),
            1,
            0,
        ),
        block_value(base, m, 2 * r + 1, 2 * c + 1) == (cell(base, m, r, c) - 1) * 4 + 1
            + block_offset(pattern_of(m, r, c), 1, 1),
{
}

/// When the four cells of the block in row `r` and column `c` of the blocks
/// have been written, the grid holds the values of all blocks before the
/// next one.
proof fn lemma_block_written(
    before: Seq<u32>,
    after: Seq<u32>,
    n: int,
    base: Seq<u32>,
    r: int,
    c: int,
)
    requires
        n >= 2,
        n % 2 == 0,
        0 <= r < n / 2,
        0 <= c < n / 2,
        before.len() == n * n,
        after.len() == n * n,
        forall|i: int|
            0 <= i < n * n && i != 2 * r * n + 2 * c && i != 2 * r * n + 2 * c + 1 && i != 2 * r
                * n + 2 * c + n && i != 2 * r * n + 2 * c + n + 1 ==> after[i] == before[i],
        after[2 * r * n + 2 * c] == block_value(base, n / 2, 2 * r, 2 * c),
        after[2 * r * n + 2 * c + 1] == block_value(base, n / 2, 2 * r, 2 * c + 1),
        after[2 * r * n + 2 * c + n] == block_value(base, n / 2, 2 * r + 1, 2 * c),
        after[2 * r * n + 2 * c + n + 1] == block_value(base, n / 2, 2 * r + 1, 2 * c + 1),
        forall|r0: int, c0: int|
            0 <= r0 < n && 0 <= c0 < n && (r0 < 2 * r || (r0 < 2 * r + 2 && c0 < 2 * c))
                ==> #[trigger] cell(before, n, r0, c0) == block_value(base, n / 2, r0, c0),
    ensures
        forall|r0: int, c0: int|
            0 <= r0 < n && 0 <= c0 < n && (r0 < 2 * r || (r0 < 2 * r + 2 && c0 < 2 * c + 2))
                ==> #[trigger] cell(after, n, r0, c0) == block_value(base, n / 2, r0, c0),
{
    let top = 2 * r * n + 2 * c;
    lemma_mul_is_distributive_add_other_way(n, 2 * r, 1);
    assert forall|r0: int, c0: int|
        0 <= r0 < n && 0 <= c0 < n && (r0 < 2 * r || (r0 < 2 * r + 2 && c0 < 2 * c + 2))
            implies #[trigger] cell(after, n, r0, c0) == block_value(base, n / 2, r0, c0) by {
        lemma_cell_position(n, r0, c0);
        let place = r0 * n + c0;
        if place == top {
            lemma_cell_position_unique(n, r0, c0, 2 * r, 2 * c);
        } else if place == top + 1 {
            lemma_cell_position_unique(n, r0, c0, 2 * r, 2 * c + 1);
        } else if place == top + n {
            lemma_cell_position_unique(n, r0, c0, 2 * r + 1, 2 * c);
        } else if place == top + n + 1 {
            lemma_cell_position_unique(n, r0, c0, 2 * r + 1, 2 * c + 1);
        } else {
            assert(after[place] == before[place]);
            if r0 / 2 == r && c0 / 2 == c {
                // The cell lies in the block, so it is one of the four.
                if r0 == 2 * r {
                    assert(place == top || place == top + 1);
                } else {
                    assert(r0 == 2 * r + 1);
                    assert(place == top + n || place == top + n + 1);
                }
            }
            assert(cell(before, n, r0, c0) == block_value(base, n / 2, r0, c0));
        }
    }
}

/// Writes the four numbers from `start` on into the block whose top left
/// cell stands at `top` and whose bottom left cell stands at `bottom`, each
/// where the pattern puts it.
fn write_block(grid: &mut Vec<u32>, top: usize, bottom: usize, start: u32, pattern: Pattern)
    requires
        top + 1 < bottom,
        bottom + 1 < old(grid)@.len(),
        start + 3 <= u32::MAX,
    ensures
        final(grid)@.len() == old(grid)@.len(),
        final(grid)@[top as int] == start + block_offset(pattern, 0, 0),
        final(grid)@[top + 1] == start + block_offset(pattern, 0, 1),
        final(grid)@[bottom as int] == start + block_offset(pattern, 1, 0),
        final(grid)@[bottom + 1] == start + block_offset(pattern, 1, 1),
        forall|i: int|
            0 <= i < old(grid)@.len() && i != top && i != top + 1 && i != bottom && i != bottom + 1
                ==> final(grid)@[i] == old(grid)@[i],
{
    let cells: usize = grid.len();
    assert(bottom + 1 < cells);
    match pattern {
        Pattern::L => {
            grid[top + 1] = start;
            grid[bottom] = start + 1;
            grid[bottom + 1] = start + 2;
            grid[top] = start + 3;
        },
        Pattern::U => {
            grid[top] = start;
            grid[bottom] = start + 1;
            grid[bottom + 1] = start + 2;
            grid[top + 1] = start + 3;
        },
        Pattern::X => {
            grid[top] = start;
            grid[bottom + 1] = start + 1;
            grid[bottom] = start + 2;
            grid[top + 1] = start + 3;
        },
    }
}

/// The grid of order `n` that the construction builds on `base_square`, a
/// grid of order `n / 2` with values from 1 to `(n / 2) * (n / 2)`.
pub fn fill_blocks(base_square: &Vec<u32>, n: usize) -> (grid: Vec<u32>)
    requires
        6 <= n <= 65535,
        n % 4 == 2,
        base_square@.len() == (n / 2) * (n / 2),
        forall|i: int|
            0 <= i < base_square@.len() ==> 1 <= #[trigger] base_square@[i] <= (n / 2) * (n / 2),
    ensures
        is_singly_even_fill(grid@, n as int, base_square@),
{
    let m: usize = n / 2;
    proof {
        assert(n * n <= 65535 * 65535) by (nonlinear_arith)
            requires
                n <= 65535,
        ;
        assert(n * n == 4 * (m * m)) by (nonlinear_arith)
            requires
                n == 2 * m,
        ;
    }
    let cells: usize = n * n;
    let mut grid: Vec<u32> = vec![0u32; cells];
    let pattern_grid: Vec<Pattern> = build_pattern_grid(m);

    let mut r: usize = 0;
    while r < m
        invariant
            r <= m,
            6 <= n <= 65535,
            n == 2 * m,
            m % 2 == 1,
            cells == n * n,
            cells == 4 * (m * m),
            cells <= 65535 * 65535,
            grid@.len() == cells,
            base_square@.len() == m * m,
            pattern_grid@.len() == m * m,
            forall|i: int| 0 <= i < base_square@.len() ==> 1 <= #[trigger] base_square@[i] <= m * m,
            forall|r0: int, c0: int|
                0 <= r0 < m && 0 <= c0 < m ==> #[trigger] pattern_grid@[r0 * m + c0] == pattern_of(
                    m as int,
                    r0,
                    c0,
                ),
            forall|r0: int, c0: int|
                0 <= r0 < 2 * r && 0 <= c0 < n ==> #[trigger] cell(grid@, n as int, r0, c0)
                    == block_value(base_square@, m as int, r0, c0),
        decreases m - r,
    {
        let mut c: usize = 0;
        while c < m
            invariant
                r < m,
                c <= m,
                6 <= n <= 65535,
                n == 2 * m,
                m % 2 == 1,
                cells == n * n,
                cells == 4 * (m * m),
                cells <= 65535 * 65535,
                grid@.len() == cells,
                base_square@.len() == m * m,
                pattern_grid@.len() == m * m,
                forall|i: int|
                    0 <= i < base_square@.len() ==> 1 <= #[trigger] base_square@[i] <= m * m,
                forall|r0: int, c0: int|
                    0 <= r0 < m && 0 <= c0 < m ==> #[trigger] pattern_grid@[r0 * m + c0]
                        == pattern_of(m as int, r0, c0),
                forall|r0: int, c0: int|
                    0 <= r0 < n && 0 <= c0 < n && (r0 < 2 * r || (r0 < 2 * r + 2 && c0 < 2 * c))
                        ==> #[trigger] cell(grid@, n as int, r0, c0) == block_value(
                        base_square@,
                        m as int,
                        r0,
                        c0,
                    ),
            decreases m - c,
        {
            proof {
                lemma_cell_position(m as int, r as int, c as int);
                lemma_cell_position(n as int, 2 * r, 2 * c);
                lemma_cell_position(n as int, 2 * r + 1, 2 * c + 1);
                lemma_mul_is_distributive_add_other_way(n as int, 2 * r, 1);
                assert(pattern_grid@[r * m + c] == pattern_of(m as int, r as int, c as int));
            }
            // The four numbers of this block start here.
            let val: u32 = base_square[r * m + c] - 1;
            let start: u32 = val * 4 + 1;

            // The places of the top left and the bottom left cell of the block.
            let top: usize = (r * 2) * n + c * 2;
            let bottom: usize = top + n;
            let ghost before = grid@;
            write_block(&mut grid, top, bottom, start, pattern_grid[r * m + c]);
            proof {
                lemma_block_cells(base_square@, m as int, r as int, c as int);
                lemma_block_written(
                    before,
                    grid@,
                    n as int,
                    base_square@,
                    r as int,
                    c as int,
                );
            }
            c += 1;
        }
        r += 1;
    }
    grid
}

/// The construction for even orders that are no multiple of 4.
pub struct SinglyEvenGenerator<'a> {
    /// The source that the square of half the order draws from.
    pub rng: &'a mut Lcg,
}

impl<'a> SinglyEvenGenerator<'a> {
    /// A generator that draws from `rng`.
    pub fn new(rng: &'a mut Lcg) -> (generator: Self)
        ensures
            *generator.rng == *old(rng),
            *final(generator.rng) == *final(rng),
    {
        Self { rng }
    }
}

impl<'a> MagicGenerator for SinglyEvenGenerator<'a> {
    open spec fn constructs(&self, n: int) -> bool {
        6 <= n <= 65535 && n % 4 == 2
    }

    /// The square of order `n` built on the odd square of order `n / 2` that
    /// the next draws give.
    fn generate(&mut self, n: usize) -> (grid: Vec<u32>)
        ensures
            grid@ == singly_even_square_from(n as int, old(self).rng.state()),
            final(self).rng.state() == state_after_odd(n as int / 2, old(self).rng.state()),
            *final(final(self).rng) == *final(old(self).rng),
    {
        let m: usize = n / 2;
        let mut odd_gen = OddGenerator::new(self.rng);
        let base_square: Vec<u32> = odd_gen.generate(m);
        let grid = fill_blocks(&base_square, n);
        proof {
            lemma_singly_even_is_magic(grid@, n as int, base_square@);
            lemma_singly_even_fill_is_square(grid@, n as int, base_square@);
        }
        grid
    }
}

} // verus!
