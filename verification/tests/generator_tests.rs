use magic_squares::generator::singly_even::{build_pattern_grid, fill_blocks, Pattern};
use magic_squares::generator::{
    get_generator, DoublyEvenGenerator, Generator, MagicGenerator, OddGenerator,
    SinglyEvenGenerator,
};
use magic_squares::rng::Lcg;
use magic_squares::validator::check_magic_properties;

fn sorted_values(grid: &[u32]) -> Vec<u32> {
    let mut values = grid.to_vec();
    values.sort();
    values
}

fn one_to(count: u32) -> Vec<u32> {
    (1..=count).collect()
}

#[test]
fn odd_square_of_order_three() {
    let mut rng = Lcg::new_with_seed(1);
    let grid = OddGenerator::new(&mut rng).generate(3);
    assert_eq!(grid, vec![2, 7, 6, 9, 5, 1, 4, 3, 8]);
    let mut rng = Lcg::new_with_seed(2);
    let grid = OddGenerator::new(&mut rng).generate(3);
    assert_eq!(grid, vec![8, 1, 6, 3, 5, 7, 4, 9, 2]);
}

#[test]
fn odd_square_of_order_one() {
    let mut rng = Lcg::new_with_seed(0);
    let grid = OddGenerator::new(&mut rng).generate(1);
    assert_eq!(grid, vec![1]);
    // Nothing was drawn.
    assert_eq!(rng.next_u32(), 335903614);
}

#[test]
fn odd_square_of_order_five() {
    let mut rng = Lcg::new_with_seed(1);
    let grid = OddGenerator::new(&mut rng).generate(5);
    assert_eq!(
        grid,
        vec![
            9, 1, 25, 18, 12, 3, 22, 19, 11, 10, 21, 20, 13, 7, 4, 17, 14, 6, 5, 23, 15, 8, 2, 24,
            16
        ]
    );
}

#[test]
fn odd_square_of_order_seven() {
    let mut rng = Lcg::new_with_seed(11);
    let grid = OddGenerator::new(&mut rng).generate(7);
    assert_eq!(
        grid,
        vec![
            21, 46, 31, 13, 36, 2, 26, 43, 30, 12, 42, 4, 24, 20, 32, 10, 41, 1, 23, 19, 49, 9,
            40, 7, 25, 17, 48, 29, 38, 6, 22, 16, 47, 35, 11, 5, 28, 18, 45, 34, 8, 37, 27, 15,
            44, 33, 14, 39, 3
        ]
    );
}

#[test]
fn odd_square_of_order_nine_keeps_its_cycles() {
    let mut rng = Lcg::new_with_seed(3);
    let mut generator = OddGenerator::new(&mut rng);
    let grid = generator.generate(9);
    assert_eq!(
        grid,
        vec![
            11, 58, 78, 71, 28, 3, 23, 52, 45, 57, 77, 70, 36, 2, 22, 51, 44, 10, 76, 69, 35, 1,
            21, 50, 43, 18, 56, 68, 34, 9, 20, 49, 42, 17, 55, 75, 33, 8, 19, 48, 41, 16, 63, 74,
            67, 7, 27, 47, 40, 15, 62, 73, 66, 32, 26, 46, 39, 14, 61, 81, 65, 31, 6, 54, 38, 13,
            60, 80, 64, 30, 5, 25, 37, 12, 59, 79, 72, 29, 4, 24, 53
        ]
    );
    let (_, cycles) = generator.generate_base_arrays(9);
    let kept: Vec<u32> = grid.iter().map(|value| (value - 1) % 9).collect();
    assert_eq!(kept, cycles);
    assert!(check_magic_properties(&grid, 9));
}

#[test]
fn base_arrays_of_order_three() {
    let mut rng = Lcg::new_with_seed(0);
    let mut generator = OddGenerator::new(&mut rng);
    let (layers, cycles) = generator.generate_base_arrays(3);
    assert_eq!(layers, vec![2, 0, 1, 0, 1, 2, 1, 2, 0]);
    assert_eq!(cycles, vec![1, 0, 2, 2, 1, 0, 0, 2, 1]);
}

#[test]
fn base_arrays_of_order_five() {
    let mut rng = Lcg::new_with_seed(0);
    let mut generator = OddGenerator::new(&mut rng);
    let (layers, cycles) = generator.generate_base_arrays(5);
    assert_eq!(
        layers,
        vec![3, 4, 0, 1, 2, 4, 0, 1, 2, 3, 0, 1, 2, 3, 4, 1, 2, 3, 4, 0, 2, 3, 4, 0, 1]
    );
    assert_eq!(
        cycles,
        vec![1, 3, 0, 2, 4, 2, 4, 1, 3, 0, 3, 0, 2, 4, 1, 4, 1, 3, 0, 2, 0, 2, 4, 1, 3]
    );
}

#[test]
fn base_arrays_give_every_pair_once() {
    for n in [1usize, 3, 5, 7, 9, 15, 21] {
        let mut rng = Lcg::new_with_seed(0);
        let mut generator = OddGenerator::new(&mut rng);
        let (layers, cycles) = generator.generate_base_arrays(n);
        let mut steps: Vec<u32> =
            (0..n * n).map(|i| layers[i] * n as u32 + cycles[i]).collect();
        steps.sort();
        let expected: Vec<u32> = (0..(n * n) as u32).collect();
        assert_eq!(steps, expected);
        // Step 0 stands in the middle of the top row.
        assert_eq!(layers[n / 2], 0);
        assert_eq!(cycles[n / 2], 0);
    }
}

#[test]
fn diagonals_of_order_three_are_safe() {
    let mut rng = Lcg::new_with_seed(5);
    let mut generator = OddGenerator::new(&mut rng);
    let (layers, cycles) = generator.generate_base_arrays(3);
    assert!(generator.is_safe_diag(&layers, 3));
    assert!(generator.is_safe_diag(&cycles, 3));
    // Relabelled or not, the square of order 3 is magic.
    for seed in 0..30u64 {
        let mut rng = Lcg::new_with_seed(seed);
        let grid = OddGenerator::new(&mut rng).generate(3);
        assert!(check_magic_properties(&grid, 3));
    }
}

#[test]
fn cycles_of_order_nine_are_not_safe() {
    let mut rng = Lcg::new_with_seed(5);
    let mut generator = OddGenerator::new(&mut rng);
    let (layers, cycles) = generator.generate_base_arrays(9);
    assert!(generator.is_safe_diag(&layers, 9));
    assert!(!generator.is_safe_diag(&cycles, 9));
    let main: Vec<u32> = (0..9).map(|i| cycles[i * 9 + i]).collect();
    assert_eq!(main, vec![1, 4, 7, 1, 4, 7, 1, 4, 7]);
    // The square without any relabelling is magic already.
    let plain: Vec<u32> = (0..81).map(|i| 9 * layers[i] + cycles[i] + 1).collect();
    assert!(check_magic_properties(&plain, 9));
}

#[test]
fn cycles_are_safe_unless_the_order_is_a_multiple_of_three_above_three() {
    let orders = [
        (1usize, true),
        (3, true),
        (5, true),
        (7, true),
        (9, false),
        (11, true),
        (13, true),
        (15, false),
        (21, false),
        (27, false),
    ];
    for (n, expected) in orders {
        let mut rng = Lcg::new_with_seed(0);
        let mut generator = OddGenerator::new(&mut rng);
        let (layers, cycles) = generator.generate_base_arrays(n);
        assert!(generator.is_safe_diag(&layers, n));
        assert_eq!(generator.is_safe_diag(&cycles, n), expected);
    }
}

#[test]
fn check_diag_vec_tells_safe_lines() {
    let mut rng = Lcg::new_with_seed(0);
    let generator = OddGenerator::new(&mut rng);
    assert!(generator.check_diag_vec(&vec![3, 1, 2], 3));
    assert!(generator.check_diag_vec(&vec![4, 4, 4, 4], 4));
    // Sorted, the two 1s stand side by side.
    assert!(!generator.check_diag_vec(&vec![1, 2, 1], 3));
    assert!(!generator.check_diag_vec(&vec![1, 4, 7, 1, 4, 7, 1, 4, 7], 9));
    assert!(!generator.check_diag_vec(&vec![5, 5, 6], 3));
    assert!(generator.check_diag_vec(&vec![9], 1));
    assert!(generator.check_diag_vec(&vec![], 0));
    assert!(generator.check_diag_vec(&vec![u32::MAX, 0], 2));
}

#[test]
fn shuffled_mapping_keeps_the_middle() {
    let mut rng = Lcg::new_with_seed(3);
    let mut generator = OddGenerator::new(&mut rng);
    assert_eq!(generator.get_shuffled_mapping(7, true), vec![0, 1, 6, 3, 4, 2, 5]);
    for seed in 0..50u64 {
        let mut rng = Lcg::new_with_seed(seed);
        let mut generator = OddGenerator::new(&mut rng);
        let mapping = generator.get_shuffled_mapping(11, true);
        assert_eq!(mapping[5], 5);
        assert_eq!(sorted_values(&mapping), (0..11).collect::<Vec<u32>>());
    }
}

#[test]
fn mapping_without_shuffle_is_the_identity() {
    let mut rng = Lcg::new_with_seed(3);
    let mut generator = OddGenerator::new(&mut rng);
    assert_eq!(generator.get_shuffled_mapping(7, false), vec![0, 1, 2, 3, 4, 5, 6]);
    assert_eq!(generator.get_shuffled_mapping(0, false), Vec::<u32>::new());
    assert_eq!(generator.get_shuffled_mapping(1, true), vec![0]);
    // Nothing was drawn.
    let mut fresh = Lcg::new_with_seed(3);
    assert_eq!(rng.next_u32(), fresh.next_u32());
}

#[test]
fn pattern_grid_of_order_three() {
    let (l, u) = (Pattern::L, Pattern::U);
    assert_eq!(build_pattern_grid(3), vec![l, l, l, l, u, l, u, l, u]);
}

#[test]
fn pattern_grid_of_order_five() {
    let (l, u, x) = (Pattern::L, Pattern::U, Pattern::X);
    assert_eq!(
        build_pattern_grid(5),
        vec![l, l, l, l, l, l, l, l, l, l, l, l, u, l, l, u, u, l, u, u, x, x, x, x, x]
    );
}

#[test]
fn pattern_grid_has_one_u_in_the_middle_row() {
    for m in [3usize, 5, 7, 9, 11] {
        let patterns = build_pattern_grid(m);
        let k = m / 2;
        for r in 0..m {
            for c in 0..m {
                let expected = if r == k && c == k {
                    Pattern::U
                } else if r == k + 1 && c == k {
                    Pattern::L
                } else if r <= k {
                    Pattern::L
                } else if r == k + 1 {
                    Pattern::U
                } else {
                    Pattern::X
                };
                assert_eq!(patterns[r * m + c], expected);
            }
        }
        let in_middle_row = (0..m).filter(|c| patterns[k * m + c] == Pattern::U).count();
        assert_eq!(in_middle_row, 1);
    }
}

#[test]
fn blocks_on_the_lo_shu_square() {
    let base: Vec<u32> = vec![2, 7, 6, 9, 5, 1, 4, 3, 8];
    let grid = fill_blocks(&base, 6);
    assert_eq!(
        grid,
        vec![
            8, 5, 28, 25, 24, 21, 6, 7, 26, 27, 22, 23, 36, 33, 17, 20, 4, 1, 34, 35, 18, 19, 2,
            3, 13, 16, 12, 9, 29, 32, 14, 15, 10, 11, 30, 31
        ]
    );
    assert!(check_magic_properties(&grid, 6));
}

#[test]
fn singly_even_square_of_order_six() {
    let mut rng = Lcg::new_with_seed(1);
    let grid = SinglyEvenGenerator::new(&mut rng).generate(6);
    assert_eq!(
        grid,
        vec![
            8, 5, 28, 25, 24, 21, 6, 7, 26, 27, 22, 23, 36, 33, 17, 20, 4, 1, 34, 35, 18, 19, 2,
            3, 13, 16, 12, 9, 29, 32, 14, 15, 10, 11, 30, 31
        ]
    );
    assert!(check_magic_properties(&grid, 6));
}

#[test]
fn singly_even_square_of_order_ten() {
    let mut rng = Lcg::new_with_seed(5);
    let grid = SinglyEvenGenerator::new(&mut rng).generate(10);
    assert_eq!(
        grid[..20],
        [68, 65, 36, 33, 84, 81, 12, 9, 60, 57, 66, 67, 34, 35, 82, 83, 10, 11, 58, 59]
    );
    assert!(check_magic_properties(&grid, 10));
}

#[test]
fn singly_even_square_draws_what_the_odd_square_draws() {
    let mut first = Lcg::new_with_seed(21);
    SinglyEvenGenerator::new(&mut first).generate(14);
    let mut second = Lcg::new_with_seed(21);
    OddGenerator::new(&mut second).generate(7);
    assert_eq!(first.next_u32(), second.next_u32());
}

#[test]
fn doubly_even_square_as_it_is_filled() {
    // None of the three coins of seed 81 is set.
    let mut rng = Lcg::new_with_seed(81);
    let grid = DoublyEvenGenerator::new(&mut rng).generate(4);
    assert_eq!(grid, vec![16, 2, 3, 13, 5, 11, 10, 8, 9, 7, 6, 12, 4, 14, 15, 1]);
    // The corners and the four cells in the centre hold mirrored numbers,
    // the other cells their own.
    for r in 0..4usize {
        for c in 0..4usize {
            let number = (r * 4 + c + 1) as u32;
            let corner = (r == 0 || r == 3) && (c == 0 || c == 3);
            let centre = (r == 1 || r == 2) && (c == 1 || c == 2);
            if corner || centre {
                assert_eq!(grid[r * 4 + c], 17 - number);
            } else {
                assert_eq!(grid[r * 4 + c], number);
            }
        }
    }
}

#[test]
fn doubly_even_square_of_order_eight() {
    let mut rng = Lcg::new_with_seed(81);
    let grid = DoublyEvenGenerator::new(&mut rng).generate(8);
    assert_eq!(
        grid,
        vec![
            64, 2, 3, 61, 60, 6, 7, 57, 9, 55, 54, 12, 13, 51, 50, 16, 17, 47, 46, 20, 21, 43, 42,
            24, 40, 26, 27, 37, 36, 30, 31, 33, 32, 34, 35, 29, 28, 38, 39, 25, 41, 23, 22, 44,
            45, 19, 18, 48, 49, 15, 14, 52, 53, 11, 10, 56, 8, 58, 59, 5, 4, 62, 63, 1
        ]
    );
}

#[test]
fn doubly_even_square_in_all_eight_positions() {
    let expected: [(u64, [u32; 16]); 8] = [
        (81, [16, 2, 3, 13, 5, 11, 10, 8, 9, 7, 6, 12, 4, 14, 15, 1]),
        (79, [16, 5, 9, 4, 2, 11, 7, 14, 3, 10, 6, 15, 13, 8, 12, 1]),
        (80, [13, 3, 2, 16, 8, 10, 11, 5, 12, 6, 7, 9, 1, 15, 14, 4]),
        (82, [13, 8, 12, 1, 3, 10, 6, 15, 2, 11, 7, 14, 16, 5, 9, 4]),
        (0, [4, 14, 15, 1, 9, 7, 6, 12, 5, 11, 10, 8, 16, 2, 3, 13]),
        (2, [4, 9, 5, 16, 14, 7, 11, 2, 15, 6, 10, 3, 1, 12, 8, 13]),
        (1, [1, 15, 14, 4, 12, 6, 7, 9, 8, 10, 11, 5, 13, 3, 2, 16]),
        (8, [1, 12, 8, 13, 15, 6, 10, 3, 14, 7, 11, 2, 4, 9, 5, 16]),
    ];
    for (seed, square) in expected {
        let mut rng = Lcg::new_with_seed(seed);
        let grid = DoublyEvenGenerator::new(&mut rng).generate(4);
        assert_eq!(grid, square.to_vec());
        assert!(check_magic_properties(&grid, 4));
        // Whatever the position, the mirrored numbers stand in the corners
        // and in the centre.
        let mut mirrored: Vec<u32> =
            [0usize, 3, 5, 6, 9, 10, 12, 15].iter().map(|&i| grid[i]).collect();
        mirrored.sort();
        assert_eq!(mirrored, vec![1, 4, 6, 7, 10, 11, 13, 16]);
    }
}

#[test]
fn doubly_even_square_takes_three_draws() {
    let mut used = Lcg::new_with_seed(17);
    DoublyEvenGenerator::new(&mut used).generate(12);
    let mut drawn = Lcg::new_with_seed(17);
    for _ in 0..3 {
        drawn.next_u32();
    }
    assert_eq!(used.next_u32(), drawn.next_u32());
}

#[test]
fn selector_picks_by_order() {
    for n in 1..=40usize {
        let mut rng = Lcg::new_with_seed(0);
        let generator = get_generator(n, &mut rng);
        match generator {
            Generator::Odd(_) => assert!(n % 2 == 1),
            Generator::SinglyEven(_) => assert!(n % 4 == 2),
            Generator::DoublyEven(_) => assert!(n % 4 == 0),
        }
    }
}

#[test]
fn selected_generator_builds_the_same_square() {
    let mut rng = Lcg::new_with_seed(1);
    assert_eq!(get_generator(3, &mut rng).generate(3), vec![2, 7, 6, 9, 5, 1, 4, 3, 8]);
    let mut rng = Lcg::new_with_seed(99);
    assert_eq!(
        get_generator(4, &mut rng).generate(4),
        vec![13, 8, 12, 1, 3, 10, 6, 15, 2, 11, 7, 14, 16, 5, 9, 4]
    );
    let mut rng = Lcg::new_with_seed(1);
    let mut direct = Lcg::new_with_seed(1);
    assert_eq!(
        get_generator(6, &mut rng).generate(6),
        SinglyEvenGenerator::new(&mut direct).generate(6)
    );
}

#[test]
fn every_generated_square_is_magic() {
    for n in 1..=48usize {
        if n == 2 {
            continue;
        }
        for seed in [0u64, 1, 2, 79, 80, 81, 82, 12345, u64::MAX] {
            let mut rng = Lcg::new_with_seed(seed);
            let grid = get_generator(n, &mut rng).generate(n);
            assert!(check_magic_properties(&grid, n), "order {} seed {}", n, seed);
        }
    }
}

#[test]
fn every_generated_square_holds_one_to_n_squared() {
    for n in [1usize, 3, 4, 5, 6, 8, 9, 10, 12, 15, 18, 20] {
        let mut rng = Lcg::new_with_seed(n as u64);
        let grid = get_generator(n, &mut rng).generate(n);
        assert_eq!(grid.len(), n * n);
        assert_eq!(sorted_values(&grid), one_to((n * n) as u32));
    }
}

#[test]
fn every_line_of_a_generated_square_sums_to_the_magic_constant() {
    for n in [1usize, 3, 4, 5, 6, 7, 8, 9, 10, 12, 14, 15] {
        let mut rng = Lcg::new_with_seed(77);
        let grid = get_generator(n, &mut rng).generate(n);
        let constant = (n * (n * n + 1) / 2) as u32;
        for r in 0..n {
            assert_eq!((0..n).map(|c| grid[r * n + c]).sum::<u32>(), constant);
        }
        for c in 0..n {
            assert_eq!((0..n).map(|r| grid[r * n + c]).sum::<u32>(), constant);
        }
        assert_eq!((0..n).map(|i| grid[i * n + i]).sum::<u32>(), constant);
        assert_eq!((0..n).map(|i| grid[i * n + (n - 1 - i)]).sum::<u32>(), constant);
    }
}

#[test]
fn one_source_serves_many_squares() {
    let mut rng = Lcg::new_with_seed(4);
    for n in [3usize, 4, 6, 5, 8, 10, 7] {
        let grid = get_generator(n, &mut rng).generate(n);
        assert!(check_magic_properties(&grid, n));
    }
}

#[test]
fn larger_orders_are_magic_too() {
    for n in [99usize, 100, 102, 255, 256, 258] {
        let mut rng = Lcg::new_with_seed(2024);
        let grid = get_generator(n, &mut rng).generate(n);
        assert!(check_magic_properties(&grid, n));
    }
}
