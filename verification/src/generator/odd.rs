//! Squares of odd order.
//!
//! A walk over the grid gives every cell two numbers below `n`, a layer and
//! a cycle, so that no two cells get the same pair. Each of the two is then
//! sent through a mapping of `0..n` onto itself, and a cell holds `n` times
//! its mapped layer plus its mapped cycle plus 1.

use crate::generator::MagicGenerator;
use crate::rng::{lemma_shuffled_keeps_items, shuffle_draws, shuffled, state_after, Lcg};
use crate::square::{
    anti_diagonal, cell, column, grid_of, holds_each_value_once, is_magic_square,
    lemma_cell_position, lemma_cell_position_unique, lemma_each_value_once_by_cells,
    lemma_grid_of, lemma_grid_of_cell, lemma_grid_of_len, lemma_position_cell, magic_constant,
    main_diagonal, row, sum_of,
};
use crate::sums::{
    lemma_sum_of_arrangement, lemma_sum_of_combination, lemma_sum_of_concat,
    lemma_sum_of_constant, lemma_sum_of_indices, lemma_sum_of_rearranged,
};
use vstd::arithmetic::div_mod::lemma_fundamental_div_mod_converse;
use vstd::arithmetic::mul::lemma_mul_is_distributive_add_other_way;
use vstd::seq_lib::{to_multiset_contains, to_multiset_len};
use vstd::prelude::*;

verus! {

/// The layer of the cell in row `r` and column `c`: the number of the run of
/// `n` steps in which the walk comes to the cell, as `lemma_walk` shows.
pub open spec fn layer_of(n: int, r: int, c: int) -> int {
    (r + c + n / 2 + 1) % n
}

/// The cycle of the cell in row `r` and column `c`: the number of the step,
/// within its run of `n` steps, at which the walk comes to the cell, as
/// `lemma_walk` shows.
pub open spec fn cycle_of(n: int, r: int, c: int) -> int {
    (r + 2 * c + 1) % n
}

/// The two base arrays of order `n`: `layers` holds the layer of every cell
/// and `cycles` its cycle.
pub open spec fn is_base_pair(layers: Seq<u32>, cycles: Seq<u32>, n: int) -> bool {
    &&& layers.len() == n * n
    &&& cycles.len() == n * n
    &&& forall|r: int, c: int|
        0 <= r < n && 0 <= c < n ==> #[trigger] cell(layers, n, r, c) == layer_of(n, r, c)
    &&& forall|r: int, c: int|
        0 <= r < n && 0 <= c < n ==> #[trigger] cell(cycles, n, r, c) == cycle_of(n, r, c)
}

/// The row of the cell that step `k` of the walk comes to. The walk starts
/// in the top row; after every `n`-th step it goes one row down, after every
/// other step one row up, around the edges.
pub open spec fn walk_row(n: int, k: int) -> int
    decreases k,
{
    if k <= 0 {
        0
    } else if k % n == 0 {
        (walk_row(n, k - 1) + 1) % n
    } else {
        (walk_row(n, k - 1) + n - 1) % n
    }
}

/// The column of the cell that step `k` of the walk comes to. The walk
/// starts in the middle column; after every `n`-th step it stays in its
/// column, after every other step it goes one column to the right, around
/// the edge.
pub open spec fn walk_column(n: int, k: int) -> int
    decreases k,
{
    if k <= 0 {
        n / 2
    } else if k % n == 0 {
        walk_column(n, k - 1)
    } else {
        (walk_column(n, k - 1) + 1) % n
    }
}

/// The two arrays are what the walk of `n * n` steps leaves behind: the cell
/// of step `k` holds `k / n` in `layers` and `k % n` in `cycles`.
pub open spec fn is_walk_fill(layers: Seq<u32>, cycles: Seq<u32>, n: int) -> bool {
    &&& layers.len() == n * n
    &&& cycles.len() == n * n
    &&& forall|k: int|
        0 <= k < n * n ==> cell(layers, n, #[trigger] walk_row(n, k), walk_column(n, k)) == k / n
    &&& forall|k: int|
        0 <= k < n * n ==> cell(cycles, n, #[trigger] walk_row(n, k), walk_column(n, k)) == k % n
}

/// No two items of `line` are the same.
pub open spec fn all_distinct(line: Seq<int>) -> bool {
    forall|i: int, j: int| 0 <= i < j < line.len() ==> line[i] != line[j]
}

/// All items of `line` are the same.
pub open spec fn all_equal(line: Seq<int>) -> bool {
    forall|i: int, j: int| 0 <= i < line.len() && 0 <= j < line.len() ==> line[i] == line[j]
}

/// A line that may be relabelled: its items are all different or all the same.
pub open spec fn is_safe_line(line: Seq<int>) -> bool {
    all_distinct(line) || all_equal(line)
}

/// Both diagonals of `grid` may be relabelled.
pub open spec fn diagonals_safe(grid: Seq<u32>, n: int) -> bool {
    is_safe_line(main_diagonal(grid, n)) && is_safe_line(anti_diagonal(grid, n))
}

/// The layers along the diagonal from the top left.
pub open spec fn layer_main_diagonal(n: int) -> Seq<int> {
    Seq::new(n as nat, |i: int| layer_of(n, i, i))
}

/// The layers along the diagonal from the top right.
pub open spec fn layer_anti_diagonal(n: int) -> Seq<int> {
    Seq::new(n as nat, |i: int| layer_of(n, i, n - 1 - i))
}

/// The cycles along the diagonal from the top left.
pub open spec fn cycle_main_diagonal(n: int) -> Seq<int> {
    Seq::new(n as nat, |i: int| cycle_of(n, i, i))
}

/// The cycles along the diagonal from the top right.
pub open spec fn cycle_anti_diagonal(n: int) -> Seq<int> {
    Seq::new(n as nat, |i: int| cycle_of(n, i, n - 1 - i))
}

/// Whether the layers of order `n` may be relabelled.
pub open spec fn layers_safe(n: int) -> bool {
    is_safe_line(layer_main_diagonal(n)) && is_safe_line(layer_anti_diagonal(n))
}

/// Whether the cycles of order `n` may be relabelled.
pub open spec fn cycles_safe(n: int) -> bool {
    is_safe_line(cycle_main_diagonal(n)) && is_safe_line(cycle_anti_diagonal(n))
}

/// The mapping that sends every number below `n` to itself.
pub open spec fn identity_mapping(n: int) -> Seq<u32> {
    Seq::new(n as nat, |i: int| i as u32)
}

/// `mapping` sends the numbers below `n` onto themselves, no two to the same
/// number, and the middle one, `(n - 1) / 2`, to itself.
pub open spec fn is_mapping(mapping: Seq<u32>, n: int) -> bool {
    &&& mapping.len() == n
    &&& forall|i: int| 0 <= i < n ==> 0 <= #[trigger] mapping[i] < n
    &&& forall|i: int, j: int| 0 <= i < j < n ==> mapping[i] != mapping[j]
    &&& n >= 1 ==> mapping[(n - 1) / 2] == (n - 1) / 2
}

/// The value of the cell in row `r` and column `c` under the two mappings.
pub open spec fn odd_value(n: int, layers: Seq<u32>, cycles: Seq<u32>, r: int, c: int) -> int {
    n * layers[layer_of(n, r, c)] + cycles[cycle_of(n, r, c)] + 1
}

/// `grid` is the square of order `n` that the construction gives for the two
/// mappings.
pub open spec fn is_odd_fill(grid: Seq<u32>, n: int, layers: Seq<u32>, cycles: Seq<u32>) -> bool {
    &&& grid.len() == n * n
    &&& forall|r: int, c: int|
        0 <= r < n && 0 <= c < n ==> #[trigger] cell(grid, n, r, c) == odd_value(
            n,
            layers,
            cycles,
            r,
            c,
        )
}

/// `x` brought below `n` by taking `n` away at most twice.
#[verifier::opaque]
spec fn reduced(x: int, n: int) -> int {
    if x >= 2 * n {
        x - 2 * n
    } else if x >= n {
        x - n
    } else {
        x
    }
}

/// Below `3 * n` the remainder is found by taking `n` away at most twice.
proof fn lemma_reduced(x: int, n: int)
    requires
        n >= 1,
        0 <= x < 3 * n,
    ensures
        x % n == reduced(x, n),
        0 <= reduced(x, n) < n,
{
    reveal(reduced);
    if x >= 2 * n {
        lemma_fundamental_div_mod_converse(x, n, 2, x - 2 * n);
    } else if x >= n {
        lemma_fundamental_div_mod_converse(x, n, 1, x - n);
    } else {
        lemma_fundamental_div_mod_converse(x, n, 0, x);
    }
}

/// Two numbers below `3 * n` that are brought to the same number below `n`
/// differ by a multiple of `n`.
proof fn lemma_reduced_equal(x: int, y: int, n: int)
    requires
        n >= 1,
        0 <= x < 3 * n,
        0 <= y < 3 * n,
        reduced(x, n) == reduced(y, n),
    ensures
        x == y || x - y == n || x - y == 2 * n || y - x == n || y - x == 2 * n,
{
    reveal(reduced);
}

/// Layer and cycle of a cell without division.
proof fn lemma_layer_cycle(n: int, r: int, c: int)
    requires
        n >= 1,
        n % 2 == 1,
        0 <= r < n,
        0 <= c < n,
    ensures
        layer_of(n, r, c) == reduced(r + c + (n - 1) / 2 + 1, n),
        cycle_of(n, r, c) == reduced(r + 2 * c + 1, n),
        0 <= layer_of(n, r, c) < n,
        0 <= cycle_of(n, r, c) < n,
{
    lemma_reduced(r + c + (n - 1) / 2 + 1, n);
    lemma_reduced(r + 2 * c + 1, n);
}

/// The layers of every odd order may be relabelled: they are all different
/// along the diagonal from the top left and all the same along the other.
pub proof fn lemma_layers_safe(n: int)
    requires
        n >= 1,
        n % 2 == 1,
    ensures
        layers_safe(n),
{
    let main = layer_main_diagonal(n);
    let anti = layer_anti_diagonal(n);
    assert forall|i: int, j: int| 0 <= i < j < main.len() implies main[i] != main[j] by {
        lemma_lines_differ(n, i, i, j, j);
    }
    assert forall|i: int, j: int| 0 <= i < anti.len() && 0 <= j < anti.len() implies anti[i]
        == anti[j] by {
        lemma_layer_on_anti_diagonal(n, i);
        lemma_layer_on_anti_diagonal(n, j);
    }
}

/// The cycles of an odd order may be relabelled unless the order is a
/// multiple of 3 above 3: then the cycles along the diagonal from the top
/// left repeat without being all the same.
pub proof fn lemma_cycles_safe(n: int)
    requires
        n >= 1,
        n % 2 == 1,
    ensures
        cycles_safe(n) <==> (n % 3 != 0 || n == 3),
{
    reveal(reduced);
    let main = cycle_main_diagonal(n);
    let anti = cycle_anti_diagonal(n);
    assert forall|i: int, j: int| 0 <= i < j < anti.len() implies anti[i] != anti[j] by {
        lemma_lines_differ(n, i, n - 1 - i, j, n - 1 - j);
    }
    assert(all_distinct(anti));
    if n % 3 != 0 {
        assert forall|i: int, j: int| 0 <= i < j < main.len() implies main[i] != main[j] by {
            lemma_lines_differ(n, i, i, j, j);
        }
        assert(all_distinct(main));
    } else if n == 3 {
        assert forall|i: int, j: int| 0 <= i < main.len() && 0 <= j < main.len() implies main[i]
            == main[j] by {
            lemma_layer_cycle(n, i, i);
            lemma_layer_cycle(n, j, j);
        }
        assert(all_equal(main));
    } else {
        let third = n / 3;
        lemma_layer_cycle(n, 0, 0);
        lemma_layer_cycle(n, 1, 1);
        lemma_layer_cycle(n, third, third);
        assert(main[0] == 1);
        assert(main[1] == 4);
        assert(main[third] == 1);
        assert(!all_equal(main));
        assert(!all_distinct(main));
    }
}

/// Two cells with the same layer and the same cycle are the same cell.
proof fn lemma_layer_cycle_unique(n: int, r1: int, c1: int, r2: int, c2: int)
    requires
        n >= 1,
        n % 2 == 1,
        0 <= r1 < n,
        0 <= c1 < n,
        0 <= r2 < n,
        0 <= c2 < n,
        layer_of(n, r1, c1) == layer_of(n, r2, c2),
        cycle_of(n, r1, c1) == cycle_of(n, r2, c2),
    ensures
        r1 == r2,
        c1 == c2,
{
    let middle = (n - 1) / 2;
    lemma_layer_cycle(n, r1, c1);
    lemma_layer_cycle(n, r2, c2);
    lemma_reduced_equal(r1 + c1 + middle + 1, r2 + c2 + middle + 1, n);
    lemma_reduced_equal(r1 + 2 * c1 + 1, r2 + 2 * c2 + 1, n);
    assert(c1 == c2);
}

/// Every cell of the diagonal from the top right has the middle layer.
proof fn lemma_layer_on_anti_diagonal(n: int, i: int)
    requires
        n >= 1,
        n % 2 == 1,
        0 <= i < n,
    ensures
        layer_of(n, i, n - 1 - i) == (n - 1) / 2,
{
    reveal(reduced);
    lemma_layer_cycle(n, i, n - 1 - i);
}

/// Along a row, a column and the diagonals, layers and cycles do not repeat,
/// but for the layers from the top right and, where `n` is a multiple of 3,
/// the cycles from the top left.
proof fn lemma_lines_differ(n: int, r1: int, c1: int, r2: int, c2: int)
    requires
        n >= 1,
        n % 2 == 1,
        0 <= r1 < n,
        0 <= c1 < n,
        0 <= r2 < n,
        0 <= c2 < n,
        r1 != r2 || c1 != c2,
    ensures
        r1 == r2 || c1 == c2 ==> layer_of(n, r1, c1) != layer_of(n, r2, c2),
        r1 == r2 || c1 == c2 ==> cycle_of(n, r1, c1) != cycle_of(n, r2, c2),
        r1 == c1 && r2 == c2 ==> layer_of(n, r1, c1) != layer_of(n, r2, c2),
        r1 + c1 == n - 1 && r2 + c2 == n - 1 ==> cycle_of(n, r1, c1) != cycle_of(n, r2, c2),
        r1 == c1 && r2 == c2 && n % 3 != 0 ==> cycle_of(n, r1, c1) != cycle_of(n, r2, c2),
{
    let middle = (n - 1) / 2;
    lemma_layer_cycle(n, r1, c1);
    lemma_layer_cycle(n, r2, c2);
    if layer_of(n, r1, c1) == layer_of(n, r2, c2) {
        // The two sums differ by a multiple of `n`, which the distance of
        // the cells in their line does not allow.
        lemma_reduced_equal(r1 + c1 + middle + 1, r2 + c2 + middle + 1, n);
    }
    if cycle_of(n, r1, c1) == cycle_of(n, r2, c2) {
        lemma_reduced_equal(r1 + 2 * c1 + 1, r2 + 2 * c2 + 1, n);
    }
}

/// The numbers that `mapping` gives along `line`.
spec fn mapped(mapping: Seq<u32>, line: Seq<int>) -> Seq<int> {
    Seq::new(line.len(), |i: int| mapping[line[i]] as int)
}

/// Where a line holds every number below `n` once, or the middle number
/// throughout, twice the sum of what a mapping gives along it is `n * (n - 1)`.
proof fn lemma_mapped_line(mapping: Seq<u32>, line: Seq<int>, n: int)
    requires
        n >= 1,
        n % 2 == 1,
        is_mapping(mapping, n),
        line.len() == n,
        forall|i: int| 0 <= i < n ==> 0 <= #[trigger] line[i] < n,
        all_distinct(line) || (forall|i: int| 0 <= i < n ==> #[trigger] line[i] == (n - 1) / 2),
    ensures
        2 * sum_of(mapped(mapping, line)) == n * (n - 1),
{
    let u = mapped(mapping, line);
    if all_distinct(line) {
        let numbers: Seq<int> = Seq::new(n as nat, |i: int| mapping[i] as int);
        lemma_sum_of_rearranged(u, line, numbers);
        lemma_sum_of_arrangement(numbers);
    } else {
        let middle = (n - 1) / 2;
        assert forall|i: int| 0 <= i < u.len() implies #[trigger] u[i] == middle by {
            assert(line[i] == middle);
        }
        lemma_sum_of_constant(u, middle);
        assert(2 * (middle * n) == n * (n - 1)) by (nonlinear_arith)
            requires
                2 * middle == n - 1,
        ;
    }
}

/// Twice the sum of the cycles along the diagonal from the top left, as they
/// stand, is `n * (n - 1)` where `n` is a multiple of 3.
proof fn lemma_cycle_diagonal_thirds(n: int)
    requires
        n >= 1,
        n % 2 == 1,
        n % 3 == 0,
    ensures
        2 * sum_of(cycle_main_diagonal(n)) == n * (n - 1),
{
    reveal(reduced);
    let third = n / 3;
    let line = cycle_main_diagonal(n);
    let part: Seq<int> = Seq::new(third as nat, |i: int| 3 * i + 1);
    let indices: Seq<int> = Seq::new(third as nat, |i: int| i);
    assert forall|i: int| 0 <= i < n implies #[trigger] line[i] == (part + part + part)[i] by {
        lemma_layer_cycle(n, i, i);
    }
    assert(line =~= part + part + part);
    lemma_sum_of_concat(part, part);
    lemma_sum_of_concat(part + part, part);
    lemma_sum_of_indices(indices);
    lemma_sum_of_combination(part, 3, indices, 0, indices, 1);
    let t = sum_of(indices);
    assert(2 * (3 * (3 * t + 0 * t + 1 * third)) == n * (n - 1)) by (nonlinear_arith)
        requires
            n == 3 * third,
            2 * t == third * (third - 1),
    ;
}

/// Twice the sum of what the mapping of the cycles gives along the diagonal
/// from the top left is `n * (n - 1)`, as long as the mapping is the identity
/// wherever the cycles may not be relabelled.
proof fn lemma_mapped_cycle_diagonal(n: int, cycles: Seq<u32>)
    requires
        1 <= n <= 0xFFFF_FFFF,
        n % 2 == 1,
        is_mapping(cycles, n),
        cycles_safe(n) || cycles == identity_mapping(n),
    ensures
        2 * sum_of(mapped(cycles, cycle_main_diagonal(n))) == n * (n - 1),
{
    reveal(reduced);
    let line = cycle_main_diagonal(n);
    let u = mapped(cycles, line);
    assert forall|i: int| 0 <= i < n implies 0 <= #[trigger] line[i] < n by {
        lemma_layer_cycle(n, i, i);
    }
    if all_distinct(line) {
        lemma_mapped_line(cycles, line, n);
    } else {
        let (i, j) = choose|i: int, j: int| 0 <= i < j < line.len() && line[i] == line[j];
        lemma_lines_differ(n, i, i, j, j);
        assert(n % 3 == 0);
        if n == 3 {
            assert forall|k: int| 0 <= k < n implies #[trigger] line[k] == (n - 1) / 2 by {
                lemma_layer_cycle(n, k, k);
            }
            lemma_mapped_line(cycles, line, n);
        } else {
            lemma_layer_cycle(n, 0, 0);
            lemma_layer_cycle(n, 1, 1);
            assert(line[0] == 1);
            assert(line[1] == 4);
            assert(!all_equal(line));
            assert(cycles == identity_mapping(n));
            assert(u =~= line);
            lemma_cycle_diagonal_thirds(n);
        }
    }
}

/// A line of `n` cells whose mapped layers and mapped cycles each sum to
/// half of `n * (n - 1)` sums to the magic constant.
proof fn lemma_odd_line(values: Seq<int>, n: int, layers: Seq<int>, cycles: Seq<int>)
    requires
        n >= 1,
        values.len() == n,
        layers.len() == n,
        cycles.len() == n,
        forall|i: int| 0 <= i < n ==> #[trigger] values[i] == n * layers[i] + cycles[i] + 1,
        2 * sum_of(layers) == n * (n - 1),
        2 * sum_of(cycles) == n * (n - 1),
    ensures
        sum_of(values) == magic_constant(n),
{
    assert forall|i: int| 0 <= i < n implies #[trigger] values[i] == n * layers[i] + 1 * cycles[i]
        + 1 by {}
    lemma_sum_of_combination(values, n, layers, 1, cycles, 1);
    let a = sum_of(layers);
    let b = sum_of(cycles);
    assert(2 * (n * a + 1 * b + 1 * n) == n * (n * n + 1)) by (nonlinear_arith)
        requires
            2 * a == n * (n - 1),
            2 * b == n * (n - 1),
    ;
}

/// Every row of the grid of the construction sums to the magic constant.
proof fn lemma_odd_row(grid: Seq<u32>, n: int, layers: Seq<u32>, cycles: Seq<u32>, r: int)
    requires
        n >= 1,
        n % 2 == 1,
        is_mapping(layers, n),
        is_mapping(cycles, n),
        is_odd_fill(grid, n, layers, cycles),
        0 <= r < n,
    ensures
        sum_of(row(grid, n, r)) == magic_constant(n),
{
    let layer_line: Seq<int> = Seq::new(n as nat, |c: int| layer_of(n, r, c));
    let cycle_line: Seq<int> = Seq::new(n as nat, |c: int| cycle_of(n, r, c));
    assert forall|c: int| 0 <= c < n implies 0 <= #[trigger] layer_line[c] < n && 0
        <= cycle_line[c] < n by {
        lemma_layer_cycle(n, r, c);
    }
    assert forall|c1: int, c2: int| 0 <= c1 < c2 < n implies layer_line[c1] != layer_line[c2]
        && cycle_line[c1] != cycle_line[c2] by {
        lemma_lines_differ(n, r, c1, r, c2);
    }
    lemma_mapped_line(layers, layer_line, n);
    lemma_mapped_line(cycles, cycle_line, n);
    lemma_odd_line(row(grid, n, r), n, mapped(layers, layer_line), mapped(cycles, cycle_line));
}

/// Every column of the grid of the construction sums to the magic constant.
proof fn lemma_odd_column(grid: Seq<u32>, n: int, layers: Seq<u32>, cycles: Seq<u32>, c: int)
    requires
        n >= 1,
        n % 2 == 1,
        is_mapping(layers, n),
        is_mapping(cycles, n),
        is_odd_fill(grid, n, layers, cycles),
        0 <= c < n,
    ensures
        sum_of(column(grid, n, c)) == magic_constant(n),
{
    let layer_line: Seq<int> = Seq::new(n as nat, |r: int| layer_of(n, r, c));
    let cycle_line: Seq<int> = Seq::new(n as nat, |r: int| cycle_of(n, r, c));
    assert forall|r: int| 0 <= r < n implies 0 <= #[trigger] layer_line[r] < n && 0
        <= cycle_line[r] < n by {
        lemma_layer_cycle(n, r, c);
    }
    assert forall|r1: int, r2: int| 0 <= r1 < r2 < n implies layer_line[r1] != layer_line[r2]
        && cycle_line[r1] != cycle_line[r2] by {
        lemma_lines_differ(n, r1, c, r2, c);
    }
    lemma_mapped_line(layers, layer_line, n);
    lemma_mapped_line(cycles, cycle_line, n);
    lemma_odd_line(column(grid, n, c), n, mapped(layers, layer_line), mapped(cycles, cycle_line));
}

/// The diagonal from the top left of the grid of the construction sums to
/// the magic constant.
proof fn lemma_odd_main_diagonal(grid: Seq<u32>, n: int, layers: Seq<u32>, cycles: Seq<u32>)
    requires
        1 <= n <= 0xFFFF_FFFF,
        n % 2 == 1,
        is_mapping(layers, n),
        is_mapping(cycles, n),
        cycles_safe(n) || cycles == identity_mapping(n),
        is_odd_fill(grid, n, layers, cycles),
    ensures
        sum_of(main_diagonal(grid, n)) == magic_constant(n),
{
    let layer_line = layer_main_diagonal(n);
    assert forall|i: int| 0 <= i < n implies 0 <= #[trigger] layer_line[i] < n by {
        lemma_layer_cycle(n, i, i);
    }
    assert forall|i: int, j: int| 0 <= i < j < n implies layer_line[i] != layer_line[j] by {
        lemma_lines_differ(n, i, i, j, j);
    }
    lemma_mapped_line(layers, layer_line, n);
    lemma_mapped_cycle_diagonal(n, cycles);
    lemma_odd_line(
        main_diagonal(grid, n),
        n,
        mapped(layers, layer_line),
        mapped(cycles, cycle_main_diagonal(n)),
    );
}

/// The diagonal from the top right of the grid of the construction sums to
/// the magic constant.
proof fn lemma_odd_anti_diagonal(grid: Seq<u32>, n: int, layers: Seq<u32>, cycles: Seq<u32>)
    requires
        n >= 1,
        n % 2 == 1,
        is_mapping(layers, n),
        is_mapping(cycles, n),
        is_odd_fill(grid, n, layers, cycles),
    ensures
        sum_of(anti_diagonal(grid, n)) == magic_constant(n),
{
    let layer_line = layer_anti_diagonal(n);
    let cycle_line = cycle_anti_diagonal(n);
    assert forall|i: int| 0 <= i < n implies 0 <= #[trigger] layer_line[i] < n && 0
        <= cycle_line[i] < n && layer_line[i] == (n - 1) / 2 by {
        lemma_layer_cycle(n, i, n - 1 - i);
        lemma_layer_on_anti_diagonal(n, i);
    }
    assert forall|i: int, j: int| 0 <= i < j < n implies cycle_line[i] != cycle_line[j] by {
        lemma_lines_differ(n, i, n - 1 - i, j, n - 1 - j);
    }
    lemma_mapped_line(layers, layer_line, n);
    lemma_mapped_line(cycles, cycle_line, n);
    lemma_odd_line(
        anti_diagonal(grid, n),
        n,
        mapped(layers, layer_line),
        mapped(cycles, cycle_line),
    );
}

/// The grid of the construction holds each value from 1 to `n * n` once.
proof fn lemma_odd_values(grid: Seq<u32>, n: int, layers: Seq<u32>, cycles: Seq<u32>)
    requires
        n >= 1,
        n % 2 == 1,
        is_mapping(layers, n),
        is_mapping(cycles, n),
        is_odd_fill(grid, n, layers, cycles),
    ensures
        holds_each_value_once(grid, n),
{
    assert forall|r: int, c: int| 0 <= r < n && 0 <= c < n implies 1 <= #[trigger] cell(
        grid,
        n,
        r,
        c,
    ) <= n * n by {
        lemma_layer_cycle(n, r, c);
        let a = layers[layer_of(n, r, c)] as int;
        let b = cycles[cycle_of(n, r, c)] as int;
        assert(1 <= n * a + b + 1 <= n * n) by (nonlinear_arith)
            requires
                0 <= a < n,
                0 <= b < n,
        ;
    }
    assert forall|r1: int, c1: int, r2: int, c2: int|
        0 <= r1 < n && 0 <= c1 < n && 0 <= r2 < n && 0 <= c2 < n && #[trigger] cell(
            grid,
            n,
            r1,
            c1,
        ) == #[trigger] cell(grid, n, r2, c2) implies r1 == r2 && c1 == c2 by {
        lemma_layer_cycle(n, r1, c1);
        lemma_layer_cycle(n, r2, c2);
        let a1 = layers[layer_of(n, r1, c1)] as int;
        let b1 = cycles[cycle_of(n, r1, c1)] as int;
        let a2 = layers[layer_of(n, r2, c2)] as int;
        let b2 = cycles[cycle_of(n, r2, c2)] as int;
        assert(a1 == a2 && b1 == b2) by (nonlinear_arith)
            requires
                0 <= b1 < n,
                0 <= b2 < n,
                n * a1 + b1 + 1 == n * a2 + b2 + 1,
        ;
        lemma_layer_cycle_unique(n, r1, c1, r2, c2);
    }
    lemma_each_value_once_by_cells(grid, n);
}

/// The grid that the construction gives is a magic square, whatever the two
/// mappings are, as long as the mapping of the cycles is the identity
/// wherever the cycles may not be relabelled.
pub proof fn lemma_odd_is_magic(grid: Seq<u32>, n: int, layers: Seq<u32>, cycles: Seq<u32>)
    requires
        1 <= n <= 65535,
        n % 2 == 1,
        is_mapping(layers, n),
        is_mapping(cycles, n),
        cycles_safe(n) || cycles == identity_mapping(n),
        is_odd_fill(grid, n, layers, cycles),
    ensures
        is_magic_square(grid, n),
{
    assert forall|r: int| 0 <= r < n implies sum_of(#[trigger] row(grid, n, r)) == magic_constant(
        n,
    ) by {
        lemma_odd_row(grid, n, layers, cycles, r);
    }
    assert forall|c: int| 0 <= c < n implies sum_of(#[trigger] column(grid, n, c))
        == magic_constant(n) by {
        lemma_odd_column(grid, n, layers, cycles, c);
    }
    lemma_odd_main_diagonal(grid, n, layers, cycles);
    lemma_odd_anti_diagonal(grid, n, layers, cycles);
    lemma_odd_values(grid, n, layers, cycles);
}

/// A grid with the cells of the construction is its square.
pub proof fn lemma_odd_fill_is_square(grid: Seq<u32>, n: int, layers: Seq<u32>, cycles: Seq<u32>)
    requires
        n >= 1,
        is_odd_fill(grid, n, layers, cycles),
    ensures
        grid == odd_square(n, layers, cycles),
{
    lemma_grid_of(grid, n, |r: int, c: int| odd_value(n, layers, cycles, r, c));
}

/// The square of the construction has the cells of the construction.
pub proof fn lemma_odd_square_is_fill(n: int, layers: Seq<u32>, cycles: Seq<u32>)
    requires
        1 <= n <= 65535,
        n % 2 == 1,
        is_mapping(layers, n),
        is_mapping(cycles, n),
    ensures
        is_odd_fill(odd_square(n, layers, cycles), n, layers, cycles),
{
    let value = |r: int, c: int| odd_value(n, layers, cycles, r, c);
    let grid = odd_square(n, layers, cycles);
    assert forall|r: int, c: int| 0 <= r < n && 0 <= c < n implies #[trigger] cell(grid, n, r, c)
        == odd_value(n, layers, cycles, r, c) by {
        lemma_layer_cycle(n, r, c);
        let a = layers[layer_of(n, r, c)] as int;
        let b = cycles[cycle_of(n, r, c)] as int;
        assert(1 <= n * a + b + 1 <= 65535 * 65535) by (nonlinear_arith)
            requires
                0 <= a < n,
                0 <= b < n,
                n <= 65535,
        ;
        lemma_grid_of_cell(n, value, r, c);
    }
    lemma_grid_of_len(n, value);
}

/// The numbers of `line` as integers.
pub open spec fn values_of(line: Seq<u32>) -> Seq<int> {
    Seq::new(line.len(), |i: int| line[i] as int)
}

/// The mapping that `get_shuffled_mapping` gives for order `n`: the identity
/// where relabelling is not allowed; else the numbers below `n` without the
/// middle one, shuffled by the draws that follow `state`, with the middle one
/// put back in its place.
pub open spec fn mapping_for(n: int, can_shuffle: bool, state: u64) -> Seq<u32> {
    if can_shuffle {
        let middle = (n - 1) / 2;
        shuffled(identity_mapping(n).remove(middle), state).insert(middle, middle as u32)
    } else {
        identity_mapping(n)
    }
}

/// The state that `get_shuffled_mapping` leaves behind.
pub open spec fn state_after_mapping(n: int, can_shuffle: bool, state: u64) -> u64 {
    if can_shuffle {
        state_after(state, shuffle_draws((n - 1) as nat))
    } else {
        state
    }
}

/// The state that the construction of the odd square of order `n` leaves behind.
pub open spec fn state_after_odd(n: int, state: u64) -> u64 {
    state_after_mapping(n, cycles_safe(n), state_after_mapping(n, layers_safe(n), state))
}

/// The square of order `n` that the construction gives for the two mappings.
pub open spec fn odd_square(n: int, layers: Seq<u32>, cycles: Seq<u32>) -> Seq<u32> {
    grid_of(n, |r: int, c: int| odd_value(n, layers, cycles, r, c))
}

/// The square of order `n` that the construction gives when its draws start
/// from `state`: the mapping of the layers is drawn first, then that of the
/// cycles, each only where it may be relabelled.
pub open spec fn odd_square_from(n: int, state: u64) -> Seq<u32> {
    odd_square(
        n,
        mapping_for(n, layers_safe(n), state),
        mapping_for(n, cycles_safe(n), state_after_mapping(n, layers_safe(n), state)),
    )
}

/// Whatever was drawn, the mapping of `get_shuffled_mapping` sends the
/// numbers below `n` onto themselves and the middle one to itself.
pub proof fn lemma_mapping_for_is_mapping(n: int, can_shuffle: bool, state: u64)
    requires
        1 <= n <= 0xFFFF_FFFF,
    ensures
        is_mapping(mapping_for(n, can_shuffle, state), n),
{
    if can_shuffle {
        let middle = (n - 1) / 2;
        let rest = identity_mapping(n).remove(middle);
        let mixed = shuffled(rest, state);
        lemma_shuffled_keeps_items(rest, state, rest.len() - 1);
        rest.lemma_multiset_has_no_duplicates();
        mixed.lemma_multiset_has_no_duplicates_conv();
        assert forall|i: int| 0 <= i < mixed.len() implies 0 <= #[trigger] mixed[i] < n && mixed[i]
            != middle by {
            to_multiset_contains(mixed, mixed[i]);
            to_multiset_contains(rest, mixed[i]);
            assert(mixed.contains(mixed[i]));
            let j = choose|j: int| 0 <= j < rest.len() && rest[j] == mixed[i];
        }
        let mapping = mixed.insert(middle, middle as u32);
        assert forall|i: int, j: int| 0 <= i < j < n implies mapping[i] != mapping[j] by {
            if i != middle && j != middle {
                let a = if i < middle { i } else { i - 1 };
                let b = if j < middle { j } else { j - 1 };
                assert(mixed[a] != mixed[b]);
            }
        }
    }
}

/// Whatever is drawn, the square that the construction gives for an odd
/// order is a magic square.
pub proof fn lemma_odd_square_from_is_magic(n: int, state: u64)
    requires
        1 <= n <= 65535,
        n % 2 == 1,
    ensures
        is_magic_square(odd_square_from(n, state), n),
{
    let between = state_after_mapping(n, layers_safe(n), state);
    let layers = mapping_for(n, layers_safe(n), state);
    let cycles = mapping_for(n, cycles_safe(n), between);
    lemma_mapping_for_is_mapping(n, layers_safe(n), state);
    lemma_mapping_for_is_mapping(n, cycles_safe(n), between);
    lemma_odd_square_is_fill(n, layers, cycles);
    lemma_odd_is_magic(odd_square(n, layers, cycles), n, layers, cycles);
}

/// Rearranging a line keeps its items all different.
proof fn lemma_rearranged_distinct(a: Seq<u32>, b: Seq<u32>)
    requires
        a.to_multiset() == b.to_multiset(),
        all_distinct(values_of(a)),
    ensures
        all_distinct(values_of(b)),
{
    assert forall|i: int, j: int| 0 <= i < a.len() && 0 <= j < a.len() && i != j implies a[i]
        != a[j] by {
        if i < j {
            assert(values_of(a)[i] != values_of(a)[j]);
        } else {
            assert(values_of(a)[j] != values_of(a)[i]);
        }
    }
    a.lemma_multiset_has_no_duplicates();
    b.lemma_multiset_has_no_duplicates_conv();
}

/// Rearranging a line keeps its items all the same.
proof fn lemma_rearranged_equal(a: Seq<u32>, b: Seq<u32>)
    requires
        a.to_multiset() == b.to_multiset(),
        all_equal(values_of(a)),
    ensures
        all_equal(values_of(b)),
{
    assert forall|i: int, j: int| 0 <= i < b.len() && 0 <= j < b.len() implies values_of(b)[i]
        == values_of(b)[j] by {
        to_multiset_contains(b, b[i]);
        to_multiset_contains(a, b[i]);
        to_multiset_contains(b, b[j]);
        to_multiset_contains(a, b[j]);
        assert(b.contains(b[i]));
        assert(b.contains(b[j]));
        let x = choose|x: int| 0 <= x < a.len() && a[x] == b[i];
        let y = choose|y: int| 0 <= y < a.len() && a[y] == b[j];
        assert(values_of(a)[x] == values_of(a)[y]);
    }
}

/// `<[u32]>::sort_unstable` of std: puts the items in ascending order and
/// keeps each item as often as it was there.
#[verifier::external_body]
fn sort_values(values: &mut Vec<u32>)
    ensures
        final(values)@.to_multiset() == old(values)@.to_multiset(),
        forall|i: int, j: int|
            0 <= i <= j < final(values)@.len() ==> final(values)@[i] <= final(values)@[j],
{
    values.sort_unstable();
}

/// Whether a cell counted by layer and cycle comes before the step in run
/// `run` at place `place`.
spec fn walked_before(n: int, r: int, c: int, run: int, place: int) -> bool {
    layer_of(n, r, c) < run || (layer_of(n, r, c) == run && cycle_of(n, r, c) < place)
}

/// From the cell of one step the walk comes to the cell of the next: one
/// row up and one column to the right, around the edges, the cycle is one
/// more; one row down after the last step of a run, the layer is one more
/// and the cycle 0.
proof fn lemma_walk_move(n: int, r: int, c: int)
    requires
        n >= 1,
        n % 2 == 1,
        0 <= r < n,
        0 <= c < n,
    ensures
        cycle_of(n, r, c) + 1 < n ==> {
            let up = if r == 0 {
                n - 1
            } else {
                r - 1
            };
            let right = if c == n - 1 {
                0
            } else {
                c + 1
            };
            layer_of(n, up, right) == layer_of(n, r, c) && cycle_of(n, up, right) == cycle_of(
                n,
                r,
                c,
            ) + 1
        },
        cycle_of(n, r, c) + 1 == n && layer_of(n, r, c) + 1 < n ==> {
            let down = if r == n - 1 {
                0
            } else {
                r + 1
            };
            layer_of(n, down, c) == layer_of(n, r, c) + 1 && cycle_of(n, down, c) == 0
        },
{
    reveal(reduced);
    let up = if r == 0 {
        n - 1
    } else {
        r - 1
    };
    let right = if c == n - 1 {
        0
    } else {
        c + 1
    };
    let down = if r == n - 1 {
        0
    } else {
        r + 1
    };
    lemma_layer_cycle(n, r, c);
    lemma_layer_cycle(n, up, right);
    lemma_layer_cycle(n, down, c);
}

/// The walk starts at the cell with layer 0 and cycle 0.
proof fn lemma_walk_start(n: int)
    requires
        n >= 1,
        n % 2 == 1,
    ensures
        layer_of(n, 0, n / 2) == 0,
        cycle_of(n, 0, n / 2) == 0,
{
    reveal(reduced);
    lemma_layer_cycle(n, 0, n / 2);
}

/// One more and one less than a number below `n`, around the edge.
proof fn lemma_around_the_edge(x: int, n: int)
    requires
        n >= 1,
        0 <= x < n,
    ensures
        (x + 1) % n == if x == n - 1 {
            0
        } else {
            x + 1
        },
        (x + n - 1) % n == if x == 0 {
            n - 1
        } else {
            x - 1
        },
{
    if x == n - 1 {
        lemma_fundamental_div_mod_converse(x + 1, n, 1, 0);
    } else {
        lemma_fundamental_div_mod_converse(x + 1, n, 0, x + 1);
    }
    if x == 0 {
        lemma_fundamental_div_mod_converse(x + n - 1, n, 0, n - 1);
    } else {
        lemma_fundamental_div_mod_converse(x + n - 1, n, 1, x - 1);
    }
}

/// Step `k` of the walk comes to the cell with layer `k / n` and cycle `k % n`.
pub proof fn lemma_walk(n: int, k: int)
    requires
        n >= 1,
        n % 2 == 1,
        0 <= k < n * n,
    ensures
        0 <= walk_row(n, k) < n,
        0 <= walk_column(n, k) < n,
        layer_of(n, walk_row(n, k), walk_column(n, k)) == k / n,
        cycle_of(n, walk_row(n, k), walk_column(n, k)) == k % n,
    decreases k,
{
    lemma_position_cell(n, k);
    if k == 0 {
        lemma_walk_start(n);
    } else {
        lemma_walk(n, k - 1);
        lemma_position_cell(n, k - 1);
        let r = walk_row(n, k - 1);
        let c = walk_column(n, k - 1);
        let run = (k - 1) / n;
        let place = (k - 1) % n;
        lemma_around_the_edge(r, n);
        lemma_around_the_edge(c, n);
        lemma_walk_move(n, r, c);
        if place + 1 == n {
            lemma_mul_is_distributive_add_other_way(n, run, 1);
            lemma_fundamental_div_mod_converse(k, n, run + 1, 0);
        } else {
            lemma_fundamental_div_mod_converse(k, n, run, place + 1);
        }
    }
}

/// Arrays that hold the layer and the cycle of every cell are what the walk
/// leaves behind.
pub proof fn lemma_base_pair_is_walk_fill(layers: Seq<u32>, cycles: Seq<u32>, n: int)
    requires
        n >= 1,
        n % 2 == 1,
        is_base_pair(layers, cycles, n),
    ensures
        is_walk_fill(layers, cycles, n),
{
    assert forall|k: int| 0 <= k < n * n implies cell(
        layers,
        n,
        #[trigger] walk_row(n, k),
        walk_column(n, k),
    ) == k / n && cell(cycles, n, walk_row(n, k), walk_column(n, k)) == k % n by {
        lemma_walk(n, k);
    }
}

/// When the step in run `run` at place `place` has written its cell, the
/// arrays hold the layer and the cycle of every cell that comes before the
/// next step.
proof fn lemma_walk_written(
    n: int,
    layers: Seq<u32>,
    cycles: Seq<u32>,
    new_layers: Seq<u32>,
    new_cycles: Seq<u32>,
    r: int,
    c: int,
    next_run: int,
    next_place: int,
)
    requires
        1 <= n <= 0xFFFF_FFFF,
        n % 2 == 1,
        0 <= r < n,
        0 <= c < n,
        layers.len() == n * n,
        cycles.len() == n * n,
        new_layers == layers.update(r * n + c, layer_of(n, r, c) as u32),
        new_cycles == cycles.update(r * n + c, cycle_of(n, r, c) as u32),
        if cycle_of(n, r, c) + 1 == n {
            next_run == layer_of(n, r, c) + 1 && next_place == 0
        } else {
            next_run == layer_of(n, r, c) && next_place == cycle_of(n, r, c) + 1
        },
        forall|r0: int, c0: int|
            0 <= r0 < n && 0 <= c0 < n && walked_before(
                n,
                r0,
                c0,
                layer_of(n, r, c),
                cycle_of(n, r, c),
            ) ==> #[trigger] cell(layers, n, r0, c0) == layer_of(n, r0, c0),
        forall|r0: int, c0: int|
            0 <= r0 < n && 0 <= c0 < n && walked_before(
                n,
                r0,
                c0,
                layer_of(n, r, c),
                cycle_of(n, r, c),
            ) ==> #[trigger] cell(cycles, n, r0, c0) == cycle_of(n, r0, c0),
    ensures
        forall|r0: int, c0: int|
            0 <= r0 < n && 0 <= c0 < n && walked_before(n, r0, c0, next_run, next_place)
                ==> #[trigger] cell(new_layers, n, r0, c0) == layer_of(n, r0, c0),
        forall|r0: int, c0: int|
            0 <= r0 < n && 0 <= c0 < n && walked_before(n, r0, c0, next_run, next_place)
                ==> #[trigger] cell(new_cycles, n, r0, c0) == cycle_of(n, r0, c0),
{
    let run = layer_of(n, r, c);
    let place = cycle_of(n, r, c);
    lemma_layer_cycle(n, r, c);
    lemma_cell_position(n, r, c);
    assert forall|r0: int, c0: int|
        0 <= r0 < n && 0 <= c0 < n && walked_before(
            n,
            r0,
            c0,
            next_run,
            next_place,
        ) implies #[trigger] cell(new_layers, n, r0, c0) == layer_of(n, r0, c0) by {
        lemma_layer_cycle(n, r0, c0);
        lemma_cell_position(n, r0, c0);
        if r0 != r || c0 != c {
            if r0 * n + c0 == r * n + c {
                lemma_cell_position_unique(n, r0, c0, r, c);
            }
            if layer_of(n, r0, c0) == run && cycle_of(n, r0, c0) == place {
                lemma_layer_cycle_unique(n, r0, c0, r, c);
            }
            assert(cell(layers, n, r0, c0) == layer_of(n, r0, c0));
        }
    }
    assert forall|r0: int, c0: int|
        0 <= r0 < n && 0 <= c0 < n && walked_before(
            n,
            r0,
            c0,
            next_run,
            next_place,
        ) implies #[trigger] cell(new_cycles, n, r0, c0) == cycle_of(n, r0, c0) by {
        lemma_layer_cycle(n, r0, c0);
        lemma_cell_position(n, r0, c0);
        if r0 != r || c0 != c {
            if r0 * n + c0 == r * n + c {
                lemma_cell_position_unique(n, r0, c0, r, c);
            }
            if layer_of(n, r0, c0) == run && cycle_of(n, r0, c0) == place {
                lemma_layer_cycle_unique(n, r0, c0, r, c);
            }
            assert(cell(cycles, n, r0, c0) == cycle_of(n, r0, c0));
        }
    }
}

/// The construction for odd orders.
pub struct OddGenerator<'a> {
    /// The source of the shuffles.
    pub rng: &'a mut Lcg,
}

impl<'a> OddGenerator<'a> {
    /// A generator that draws from `rng`.
    pub fn new(rng: &'a mut Lcg) -> (generator: Self)
        ensures
            *generator.rng == *old(rng),
            *final(generator.rng) == *final(rng),
    {
        Self { rng }
    }

    /// The two base arrays of order `n`, filled by a walk of `n * n` steps
    /// that starts in the middle of the top row. Step `k` gives its cell the
    /// layer `k / n` and the cycle `k % n`; the walk then goes one row up and
    /// one column to the right, around the edges, but after every `n`-th
    /// step one row down instead.
    pub fn generate_base_arrays(&mut self, n: usize) -> (arrays: (Vec<u32>, Vec<u32>))
        requires
            1 <= n <= 65535,
            n % 2 == 1,
        ensures
            is_base_pair(arrays.0@, arrays.1@, n as int),
            is_walk_fill(arrays.0@, arrays.1@, n as int),
            *final(self) == *old(self),
    {
        proof {
            assert(n * n <= 65535 * 65535) by (nonlinear_arith)
                requires
                    n <= 65535,
            ;
        }
        let cells: usize = n * n;
        let mut base_a: Vec<u32> = vec![0u32; cells];
        let mut base_b: Vec<u32> = vec![0u32; cells];

        let mut r: usize = 0;
        let mut c: usize = n / 2;
        let ghost mut run: int = 0;
        let ghost mut place: int = 0;
        proof {
            lemma_walk_start(n as int);
        }

        let mut k: usize = 0;
        while k < cells
            invariant
                1 <= n <= 65535,
                n % 2 == 1,
                cells == n * n,
                cells <= 65535 * 65535,
                base_a@.len() == cells,
                base_b@.len() == cells,
                k <= cells,
                k == run * n + place,
                0 <= place < n,
                0 <= run <= n,
                run == n ==> place == 0,
                r < n,
                c < n,
                run < n ==> layer_of(n as int, r as int, c as int) == run && cycle_of(
                    n as int,
                    r as int,
                    c as int,
                ) == place,
                forall|r0: int, c0: int|
                    0 <= r0 < n && 0 <= c0 < n && walked_before(n as int, r0, c0, run, place)
                        ==> #[trigger] cell(base_a@, n as int, r0, c0) == layer_of(
                        n as int,
                        r0,
                        c0,
                    ),
                forall|r0: int, c0: int|
                    0 <= r0 < n && 0 <= c0 < n && walked_before(n as int, r0, c0, run, place)
                        ==> #[trigger] cell(base_b@, n as int, r0, c0) == cycle_of(
                        n as int,
                        r0,
                        c0,
                    ),
            decreases cells - k,
        {
            proof {
                assert(run < n) by (nonlinear_arith)
                    requires
                        k < n * n,
                        k == run * n + place,
                        0 <= place,
                        run <= n,
                ;
                lemma_fundamental_div_mod_converse(k as int, n as int, run, place);
                lemma_cell_position(n as int, r as int, c as int);
            }
            let ghost before_a = base_a@;
            let ghost before_b = base_b@;
            base_a[r * n + c] = (k / n) as u32;
            base_b[r * n + c] = (k % n) as u32;

            let next_r: usize = if r == 0 {
                n - 1
            } else {
                r - 1
            };
            let next_c: usize = if c == n - 1 {
                0
            } else {
                c + 1
            };

            proof {
                lemma_walk_move(n as int, r as int, c as int);
                lemma_mul_is_distributive_add_other_way(n as int, run, 1);
                if place + 1 == n {
                    run = run + 1;
                    place = 0;
                } else {
                    place = place + 1;
                }
                lemma_fundamental_div_mod_converse(k + 1, n as int, run, place);
                lemma_walk_written(
                    n as int,
                    before_a,
                    before_b,
                    base_a@,
                    base_b@,
                    r as int,
                    c as int,
                    run,
                    place,
                );
            }
            if (k + 1) % n == 0 {
                r = if r == n - 1 {
                    0
                } else {
                    r + 1
                };
            } else {
                r = next_r;
                c = next_c;
            }
            k += 1;
        }
        proof {
            assert(run == n) by (nonlinear_arith)
                requires
                    k == n * n,
                    k == run * n + place,
                    0 <= place < n,
                    run == n ==> place == 0,
                    0 <= run <= n,
            ;
            assert forall|r0: int, c0: int| 0 <= r0 < n && 0 <= c0 < n implies walked_before(
                n as int,
                r0,
                c0,
                run,
                place,
            ) by {
                lemma_layer_cycle(n as int, r0, c0);
            }
            lemma_base_pair_is_walk_fill(base_a@, base_b@, n as int);
        }
        (base_a, base_b)
    }

    /// Whether both diagonals of `grid` may be relabelled: each holds values
    /// that are all different or all the same.
    pub fn is_safe_diag(&self, grid: &Vec<u32>, n: usize) -> (safe: bool)
        requires
            grid@.len() == n * n,
        ensures
            safe == diagonals_safe(grid@, n as int),
    {
        let cells: usize = grid.len();
        let mut diag1: Vec<u32> = Vec::new();
        let mut diag2: Vec<u32> = Vec::new();
        let mut i: usize = 0;
        while i < n
            invariant
                i <= n,
                cells == n * n,
                grid@.len() == cells,
                diag1@.len() == i,
                diag2@.len() == i,
                forall|k: int| 0 <= k < i ==> #[trigger] diag1@[k] == cell(grid@, n as int, k, k),
                forall|k: int|
                    0 <= k < i ==> #[trigger] diag2@[k] == cell(grid@, n as int, k, n - 1 - k),
            decreases n - i,
        {
            proof {
                lemma_cell_position(n as int, i as int, i as int);
                lemma_cell_position(n as int, i as int, n - 1 - i);
            }
            diag1.push(grid[i * n + i]);
            diag2.push(grid[i * n + (n - 1 - i)]);
            i += 1;
        }
        proof {
            assert(values_of(diag1@) =~= main_diagonal(grid@, n as int));
            assert(values_of(diag2@) =~= anti_diagonal(grid@, n as int));
        }
        self.check_diag_vec(&diag1, n) && self.check_diag_vec(&diag2, n)
    }

    /// Whether the `n` values of `d` are all different or all the same.
    pub fn check_diag_vec(&self, d: &Vec<u32>, n: usize) -> (safe: bool)
        requires
            d@.len() == n,
        ensures
            safe == is_safe_line(values_of(d@)),
    {
        let mut sorted: Vec<u32> = d.clone();
        assert(sorted@ =~= d@);
        sort_values(&mut sorted);
        proof {
            to_multiset_len(sorted@);
            to_multiset_len(d@);
        }

        let mut unique_count: usize = 1;
        let mut i: usize = 1;
        while i < n
            invariant
                1 <= i,
                i <= n || i == 1,
                sorted@.len() == n,
                1 <= unique_count <= i,
                forall|a: int, b: int| 0 <= a <= b < n ==> sorted@[a] <= sorted@[b],
                unique_count == i <==> (forall|a: int, b: int|
                    0 <= a < b < i ==> sorted@[a] != sorted@[b]),
                unique_count == 1 <==> (forall|a: int|
                    0 <= a < i ==> #[trigger] sorted@[a] == sorted@[0]),
            decreases n - i,
        {
            if sorted[i] != sorted[i - 1] {
                unique_count += 1;
                proof {
                    // The new value lies above all that came before it.
                    assert forall|a: int| 0 <= a < i implies sorted@[a] != sorted@[i as int] by {
                        assert(sorted@[a] <= sorted@[i - 1]);
                    }
                    assert(sorted@[0] <= sorted@[i - 1]);
                }
            } else {
                proof {
                    if i >= 2 {
                        assert(sorted@[i - 1] == sorted@[i as int]);
                    }
                }
            }
            i += 1;
        }
        proof {
            if n >= 1 {
                let s = values_of(sorted@);
                assert(all_distinct(s) <==> unique_count == n) by {
                    if unique_count == n {
                        assert forall|a: int, b: int| 0 <= a < b < s.len() implies s[a] != s[b] by {
                            assert(sorted@[a] != sorted@[b]);
                        }
                    }
                    if all_distinct(s) {
                        assert forall|a: int, b: int| 0 <= a < b < n implies sorted@[a]
                            != sorted@[b] by {
                            assert(s[a] != s[b]);
                        }
                    }
                }
                assert(all_equal(s) <==> unique_count == 1) by {
                    if unique_count == 1 {
                        assert forall|a: int, b: int|
                            0 <= a < s.len() && 0 <= b < s.len() implies s[a] == s[b] by {
                            assert(sorted@[a] == sorted@[0]);
                            assert(sorted@[b] == sorted@[0]);
                        }
                    }
                    if all_equal(s) {
                        assert forall|a: int| 0 <= a < n implies #[trigger] sorted@[a]
                            == sorted@[0] by {
                            assert(s[a] == s[0]);
                        }
                    }
                }
                if all_distinct(s) {
                    lemma_rearranged_distinct(sorted@, d@);
                }
                if all_distinct(values_of(d@)) {
                    lemma_rearranged_distinct(d@, sorted@);
                }
                if all_equal(s) {
                    lemma_rearranged_equal(sorted@, d@);
                }
                if all_equal(values_of(d@)) {
                    lemma_rearranged_equal(d@, sorted@);
                }
            }
        }
        if unique_count == n {
            return true;
        }
        if unique_count == 1 {
            return true;
        }
        false
    }

    /// A mapping of the numbers below `n`: the identity where `can_shuffle`
    /// is not set; else a shuffle of them that leaves the middle one in its
    /// place.
    pub fn get_shuffled_mapping(&mut self, n: usize, can_shuffle: bool) -> (mapping: Vec<u32>)
        requires
            n <= 0xFFFF_FFFF,
            can_shuffle ==> n >= 1,
        ensures
            mapping@ == mapping_for(n as int, can_shuffle, old(self).rng.state()),
            n >= 1 ==> is_mapping(mapping@, n as int),
            final(self).rng.state() == state_after_mapping(
                n as int,
                can_shuffle,
                old(self).rng.state(),
            ),
            *final(final(self).rng) == *final(old(self).rng),
    {
        proof {
            if n >= 1 {
                lemma_mapping_for_is_mapping(n as int, can_shuffle, self.rng.state());
            }
        }
        let mut vals: Vec<u32> = Vec::new();
        let mut i: usize = 0;
        while i < n
            invariant
                i <= n,
                n <= 0xFFFF_FFFF,
                vals@.len() == i,
                forall|k: int| 0 <= k < i ==> #[trigger] vals@[k] == k,
            decreases n - i,
        {
            vals.push(i as u32);
            i += 1;
        }
        assert(vals@ =~= identity_mapping(n as int));

        if !can_shuffle {
            return vals;
        }
        let mid: usize = (n - 1) / 2;
        vals.remove(mid);
        self.rng.shuffle(&mut vals);
        vals.insert(mid, mid as u32);

        vals
    }
}

impl<'a> MagicGenerator for OddGenerator<'a> {
    open spec fn constructs(&self, n: int) -> bool {
        1 <= n <= 65535 && n % 2 == 1
    }

    /// The square of order `n` for the two mappings that the next draws
    /// give, first that of the layers, then that of the cycles.
    fn generate(&mut self, n: usize) -> (grid: Vec<u32>)
        ensures
            grid@ == odd_square_from(n as int, old(self).rng.state()),
            final(self).rng.state() == state_after_odd(n as int, old(self).rng.state()),
            *final(final(self).rng) == *final(old(self).rng),
    {
        let (raw_a, raw_b) = self.generate_base_arrays(n);

        let safe_a: bool = self.is_safe_diag(&raw_a, n);
        let safe_b: bool = self.is_safe_diag(&raw_b, n);
        proof {
            assert(main_diagonal(raw_a@, n as int) =~= layer_main_diagonal(n as int));
            assert(anti_diagonal(raw_a@, n as int) =~= layer_anti_diagonal(n as int));
            assert(main_diagonal(raw_b@, n as int) =~= cycle_main_diagonal(n as int));
            assert(anti_diagonal(raw_b@, n as int) =~= cycle_anti_diagonal(n as int));
        }

        let map_a: Vec<u32> = self.get_shuffled_mapping(n, safe_a);
        let map_b: Vec<u32> = self.get_shuffled_mapping(n, safe_b);
        proof {
            assert(n * n <= 65535 * 65535) by (nonlinear_arith)
                requires
                    n <= 65535,
            ;
        }

        let cells: usize = n * n;
        let mut grid: Vec<u32> = vec![0u32; cells];
        let mut r: usize = 0;
        while r < n
            invariant
                r <= n,
                1 <= n <= 65535,
                n % 2 == 1,
                cells == n * n,
                cells <= 65535 * 65535,
                grid@.len() == cells,
                is_base_pair(raw_a@, raw_b@, n as int),
                is_mapping(map_a@, n as int),
                is_mapping(map_b@, n as int),
                forall|r0: int, c0: int|
                    0 <= r0 < r && 0 <= c0 < n ==> #[trigger] cell(grid@, n as int, r0, c0)
                        == odd_value(n as int, map_a@, map_b@, r0, c0),
            decreases n - r,
        {
            let mut c: usize = 0;
            while c < n
                invariant
                    r < n,
                    c <= n,
                    1 <= n <= 65535,
                    n % 2 == 1,
                    cells == n * n,
                    cells <= 65535 * 65535,
                    grid@.len() == cells,
                    is_base_pair(raw_a@, raw_b@, n as int),
                    is_mapping(map_a@, n as int),
                    is_mapping(map_b@, n as int),
                    forall|r0: int, c0: int|
                        0 <= r0 < n && 0 <= c0 < n && (r0 < r || (r0 == r && c0 < c))
                            ==> #[trigger] cell(grid@, n as int, r0, c0) == odd_value(
                            n as int,
                            map_a@,
                            map_b@,
                            r0,
                            c0,
                        ),
                decreases n - c,
            {
                proof {
                    lemma_cell_position(n as int, r as int, c as int);
                    lemma_layer_cycle(n as int, r as int, c as int);
                    assert(cell(raw_a@, n as int, r as int, c as int) == layer_of(
                        n as int,
                        r as int,
                        c as int,
                    ));
                    assert(cell(raw_b@, n as int, r as int, c as int) == cycle_of(
                        n as int,
                        r as int,
                        c as int,
                    ));
                }
                let val_a: u32 = map_a[raw_a[r * n + c] as usize];
                let val_b: u32 = map_b[raw_b[r * n + c] as usize];
                proof {
                    assert(n * val_a + val_b + 1 <= n * n && n * val_a <= n * n)
                        by (nonlinear_arith)
                        requires
                            0 <= val_a < n,
                            0 <= val_b < n,
                    ;
                }
                let ghost before = grid@;
                grid[r * n + c] = (n as u32 * val_a) + val_b + 1;
                proof {
                    assert forall|r0: int, c0: int|
                        0 <= r0 < n && 0 <= c0 < n && (r0 < r || (r0 == r && c0 < c + 1))
                            implies #[trigger] cell(grid@, n as int, r0, c0) == odd_value(
                        n as int,
                        map_a@,
                        map_b@,
                        r0,
                        c0,
                    ) by {
                        lemma_cell_position(n as int, r0, c0);
                        if r0 == r && c0 == c {
                        } else {
                            if r0 * n + c0 == r * n + c {
                                lemma_cell_position_unique(n as int, r0, c0, r as int, c as int);
                            }
                            assert(cell(before, n as int, r0, c0) == odd_value(
                                n as int,
                                map_a@,
                                map_b@,
                                r0,
                                c0,
                            ));
                        }
                    }
                }
                c += 1;
            }
            r += 1;
        }
        proof {
            lemma_odd_is_magic(grid@, n as int, map_a@, map_b@);
            lemma_odd_fill_is_square(grid@, n as int, map_a@, map_b@);
        }
        grid
    }
}

} // verus!
