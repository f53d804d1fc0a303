use magic_squares::generator::MAX_ORDER;
use magic_squares::{
    generate_magic_square, generate_magic_square_with_seed, generate_magic_square_within,
    validate_order, validate_order_within, verify_magic_square, GenerateError, MagicSquareResult,
    MAX_SAFE_ORDER,
};

#[test]
fn test_generate_order_3() {
    let result = generate_magic_square(3).expect("Should generate order 3");
    assert_eq!(result.n(), 3);
    assert_eq!(result.grid().len(), 9);
    assert_eq!(result.get_grid_len(), 9);
    assert!(verify_magic_square(3, result.grid().clone()));
}

#[test]
fn test_generate_order_4() {
    let result = generate_magic_square(4).expect("Should generate order 4");
    assert_eq!(result.n(), 4);
    assert_eq!(result.grid().len(), 16);
    assert!(verify_magic_square(4, result.grid().clone()));
}

#[test]
fn test_generate_order_6() {
    let result = generate_magic_square(6).expect("Should generate order 6");
    assert_eq!(result.n(), 6);
    assert_eq!(result.grid().len(), 36);
    assert!(verify_magic_square(6, result.grid().clone()));
}

#[test]
fn test_invalid_orders() {
    assert!(generate_magic_square(0).is_err());
    assert!(generate_magic_square(2).is_err());
    assert_eq!(generate_magic_square(0).unwrap_err(), GenerateError::InvalidOrder);
    assert_eq!(generate_magic_square(2).unwrap_err(), GenerateError::InvalidOrder);
    assert_eq!(generate_magic_square_with_seed(0, 1).unwrap_err(), GenerateError::InvalidOrder);
    assert_eq!(generate_magic_square_with_seed(2, 1).unwrap_err(), GenerateError::InvalidOrder);
}

#[test]
fn test_too_large_order() {
    assert!(generate_magic_square(7001).is_err());
    assert!(generate_magic_square(66000).is_err());
    assert_eq!(generate_magic_square(7001).unwrap_err(), GenerateError::ResourceLimitExceeded);
    assert_eq!(generate_magic_square(65535).unwrap_err(), GenerateError::ResourceLimitExceeded);
    assert_eq!(generate_magic_square(65536).unwrap_err(), GenerateError::OrderTooLarge);
    assert_eq!(generate_magic_square(66000).unwrap_err(), GenerateError::OrderTooLarge);
    assert_eq!(generate_magic_square(usize::MAX).unwrap_err(), GenerateError::OrderTooLarge);
}

#[test]
fn limits_are_as_documented() {
    assert_eq!(MAX_ORDER, 65535);
    assert_eq!(MAX_SAFE_ORDER, 7000);
    assert_eq!((MAX_ORDER as u64) * (MAX_ORDER as u64), 4294836225);
    assert!((MAX_ORDER as u64) * (MAX_ORDER as u64) <= u32::MAX as u64);
}

#[test]
fn validate_order_names_each_error() {
    assert_eq!(validate_order(0), Err(GenerateError::InvalidOrder));
    assert_eq!(validate_order(1), Ok(()));
    assert_eq!(validate_order(2), Err(GenerateError::InvalidOrder));
    assert_eq!(validate_order(3), Ok(()));
    assert_eq!(validate_order(7000), Ok(()));
    assert_eq!(validate_order(7001), Err(GenerateError::ResourceLimitExceeded));
    assert_eq!(validate_order(65535), Err(GenerateError::ResourceLimitExceeded));
    assert_eq!(validate_order(65536), Err(GenerateError::OrderTooLarge));
}

#[test]
fn seeded_generation_is_reproducible() {
    let first = generate_magic_square_with_seed(3, 1).unwrap();
    assert_eq!(first.grid(), &vec![2, 7, 6, 9, 5, 1, 4, 3, 8]);
    let second = generate_magic_square_with_seed(3, 1).unwrap();
    assert_eq!(first.grid(), second.grid());
    let fourth = generate_magic_square_with_seed(4, 81).unwrap();
    assert_eq!(fourth.grid(), &vec![16, 2, 3, 13, 5, 11, 10, 8, 9, 7, 6, 12, 4, 14, 15, 1]);
    assert_eq!(fourth.n(), 4);
    assert_eq!(fourth.get_grid_len(), 16);
}

#[test]
fn generated_squares_pass_the_check() {
    for n in 1..=64usize {
        if n == 2 {
            continue;
        }
        let clocked = generate_magic_square(n).unwrap();
        assert_eq!(clocked.n(), n);
        assert!(verify_magic_square(n, clocked.grid().clone()));
        let seeded = generate_magic_square_with_seed(n, 1000 + n as u64).unwrap();
        assert!(verify_magic_square(n, seeded.grid().clone()));
    }
}

#[test]
fn order_one_gives_the_single_cell() {
    let result = generate_magic_square(1).unwrap();
    assert_eq!(result.grid(), &vec![1]);
}

#[test]
fn verify_rejects_a_generated_square_under_another_order() {
    let result = generate_magic_square_with_seed(4, 7).unwrap();
    assert!(!verify_magic_square(3, result.grid().clone()));
    assert!(!verify_magic_square(5, result.grid().clone()));
    assert!(!verify_magic_square(16, result.grid().clone()));
}

#[test]
fn verify_rejects_a_generated_square_with_two_cells_exchanged() {
    let result = generate_magic_square_with_seed(5, 7).unwrap();
    let mut grid = result.grid().clone();
    grid.swap(0, 1);
    assert!(!verify_magic_square(5, grid));
}

#[test]
fn resource_limit_can_be_set() {
    assert_eq!(validate_order_within(7001, 10000), Ok(()));
    assert_eq!(validate_order_within(10001, 10000), Err(GenerateError::ResourceLimitExceeded));
    assert_eq!(validate_order_within(9, 8), Err(GenerateError::ResourceLimitExceeded));
    assert_eq!(validate_order_within(8, 8), Ok(()));
    assert_eq!(validate_order_within(2, 8), Err(GenerateError::InvalidOrder));
    assert_eq!(validate_order_within(0, 0), Err(GenerateError::InvalidOrder));
    assert_eq!(validate_order_within(1, 0), Err(GenerateError::ResourceLimitExceeded));
    // No limit lifts the bound that keeps the values inside a cell.
    assert_eq!(validate_order_within(65535, usize::MAX), Ok(()));
    assert_eq!(validate_order_within(65536, usize::MAX), Err(GenerateError::OrderTooLarge));

    let refused = generate_magic_square_within(9, 8, 1);
    assert_eq!(refused.unwrap_err(), GenerateError::ResourceLimitExceeded);
    let built = generate_magic_square_within(8, 8, 81).unwrap();
    assert_eq!(built.n(), 8);
    assert_eq!(built.grid()[..8], [64, 2, 3, 61, 60, 6, 7, 57]);
}

#[test]
fn a_grid_becomes_a_result_only_if_it_is_magic() {
    let square = MagicSquareResult::new(vec![2, 7, 6, 9, 5, 1, 4, 3, 8], 3).unwrap();
    assert_eq!(square.n(), 3);
    assert_eq!(square.get_grid_len(), 9);
    assert_eq!(square.into_grid(), vec![2, 7, 6, 9, 5, 1, 4, 3, 8]);
    assert!(MagicSquareResult::new(vec![2, 7, 6, 9, 5, 1, 4, 8, 3], 3).is_none());
    assert!(MagicSquareResult::new(vec![2, 7, 6, 9, 5, 1, 4, 3, 8], 4).is_none());
    assert!(MagicSquareResult::new(Vec::new(), 0).is_none());
}
