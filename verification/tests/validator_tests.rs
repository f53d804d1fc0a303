use magic_squares::validator::{
    anti_diagonal_sum, check_magic_properties, check_values, column_sum, compute_magic_constant,
    main_diagonal_sum, row_sum,
};
use magic_squares::verify_magic_square;

#[test]
fn lo_shu_square_is_magic() {
    let grid: Vec<u32> = vec![2, 7, 6, 9, 5, 1, 4, 3, 8];
    assert!(check_magic_properties(&grid, 3));
    assert!(verify_magic_square(3, grid));
}

#[test]
fn order_one_is_magic() {
    assert!(check_magic_properties(&[1], 1));
    assert!(!check_magic_properties(&[2], 1));
    assert!(!check_magic_properties(&[0], 1));
}

#[test]
fn duerer_square_is_magic() {
    let grid: Vec<u32> = vec![16, 3, 2, 13, 5, 10, 11, 8, 9, 6, 7, 12, 4, 15, 14, 1];
    assert!(check_magic_properties(&grid, 4));
}

#[test]
fn wrong_length_is_rejected() {
    let grid: Vec<u32> = vec![2, 7, 6, 9, 5, 1, 4, 3];
    assert!(!check_magic_properties(&grid, 3));
    let longer: Vec<u32> = vec![2, 7, 6, 9, 5, 1, 4, 3, 8, 10];
    assert!(!check_magic_properties(&longer, 3));
    assert!(!verify_magic_square(4, vec![2, 7, 6, 9, 5, 1, 4, 3, 8]));
}

#[test]
fn order_zero_is_rejected() {
    let grid: Vec<u32> = Vec::new();
    assert!(!check_magic_properties(&grid, 0));
    assert!(!verify_magic_square(0, Vec::new()));
}

#[test]
fn order_two_is_never_magic() {
    assert!(!check_magic_properties(&[1, 2, 3, 4], 2));
    assert!(!check_magic_properties(&[1, 4, 3, 2], 2));
}

#[test]
fn huge_order_is_rejected() {
    let grid: Vec<u32> = vec![1];
    assert!(!check_magic_properties(&grid, usize::MAX));
    assert!(!check_magic_properties(&grid, 1 << 20));
}

#[test]
fn wrong_row_sum_is_rejected() {
    // Rows of the Lo Shu square with two values of different rows exchanged.
    let grid: Vec<u32> = vec![2, 7, 5, 9, 6, 1, 4, 3, 8];
    assert!(!check_magic_properties(&grid, 3));
}

#[test]
fn wrong_diagonal_is_rejected() {
    // Rows and columns sum to 15, the diagonals do not.
    let grid: Vec<u32> = vec![1, 5, 9, 6, 7, 2, 8, 3, 4];
    assert_eq!(row_sum(&grid, 3, 0), 15);
    assert_eq!(row_sum(&grid, 3, 1), 15);
    assert_eq!(row_sum(&grid, 3, 2), 15);
    assert_eq!(column_sum(&grid, 3, 0), 15);
    assert_eq!(column_sum(&grid, 3, 1), 15);
    assert_eq!(column_sum(&grid, 3, 2), 15);
    assert_eq!(main_diagonal_sum(&grid, 3), 12);
    assert_eq!(anti_diagonal_sum(&grid, 3), 24);
    assert!(check_values(&grid, 3));
    assert!(!check_magic_properties(&grid, 3));
}

#[test]
fn repeated_values_are_rejected_though_all_sums_match() {
    // Every line sums to 15, but 5 stands in every cell.
    let grid: Vec<u32> = vec![5, 5, 5, 5, 5, 5, 5, 5, 5];
    assert_eq!(row_sum(&grid, 3, 1), 15);
    assert_eq!(column_sum(&grid, 3, 2), 15);
    assert_eq!(main_diagonal_sum(&grid, 3), 15);
    assert_eq!(anti_diagonal_sum(&grid, 3), 15);
    assert!(!check_values(&grid, 3));
    assert!(!check_magic_properties(&grid, 3));
}

#[test]
fn one_duplicated_and_one_missing_value_is_rejected() {
    // The Lo Shu square with one cell set to the value of its neighbour.
    let grid: Vec<u32> = vec![2, 7, 7, 9, 5, 1, 4, 3, 8];
    assert!(!check_values(&grid, 3));
    assert!(!check_magic_properties(&grid, 3));
    // The same in order 4: 3 stands twice and 2 is missing.
    let repeated: Vec<u32> = vec![16, 3, 3, 13, 5, 10, 11, 8, 9, 6, 7, 12, 4, 15, 14, 1];
    assert!(!check_values(&repeated, 4));
    assert!(!check_magic_properties(&repeated, 4));
}

#[test]
fn values_out_of_range_are_rejected() {
    assert!(!check_values(&[0, 1, 2, 3, 4, 5, 6, 7, 8], 3));
    assert!(!check_values(&[1, 2, 3, 4, 5, 6, 7, 8, 10], 3));
    assert!(!check_values(&[1, 2, 3, 4, 5, 6, 7, 8, u32::MAX], 3));
    assert!(check_values(&[9, 8, 7, 6, 5, 4, 3, 2, 1], 3));
}

#[test]
fn magic_constant_is_n_times_n_squared_plus_one_halved() {
    assert_eq!(compute_magic_constant(0), 0);
    assert_eq!(compute_magic_constant(1), 1);
    assert_eq!(compute_magic_constant(3), 15);
    assert_eq!(compute_magic_constant(4), 34);
    assert_eq!(compute_magic_constant(6), 111);
    assert_eq!(compute_magic_constant(9), 369);
    assert_eq!(compute_magic_constant(7000), 171500003500);
    assert_eq!(compute_magic_constant(65535), 140731046035455);
    assert_eq!(compute_magic_constant(0xFFFF_FFFF), 39614081229462052694797582335);
}

#[test]
fn line_sums_of_a_grid() {
    let grid: Vec<u32> = vec![1, 2, 3, 4, 5, 6, 7, 8, 9];
    assert_eq!(row_sum(&grid, 3, 0), 6);
    assert_eq!(row_sum(&grid, 3, 2), 24);
    assert_eq!(column_sum(&grid, 3, 0), 12);
    assert_eq!(column_sum(&grid, 3, 2), 18);
    assert_eq!(main_diagonal_sum(&grid, 3), 15);
    assert_eq!(anti_diagonal_sum(&grid, 3), 15);
    assert_eq!(main_diagonal_sum(&[7], 1), 7);
    assert_eq!(anti_diagonal_sum(&[7], 1), 7);
}

#[test]
fn line_sums_do_not_overflow() {
    let grid: Vec<u32> = vec![u32::MAX; 16];
    assert_eq!(row_sum(&grid, 4, 3), 4 * (u32::MAX as u128));
    assert_eq!(column_sum(&grid, 4, 3), 4 * (u32::MAX as u128));
    assert!(!check_magic_properties(&grid, 4));
}
