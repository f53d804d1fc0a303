use magic_squares::rng::Lcg;

#[test]
fn next_u32_gives_high_bits_of_the_new_state() {
    let mut rng = Lcg::new_with_seed(0);
    assert_eq!(rng.next_u32(), 335903614);
    assert_eq!(rng.next_u32(), 436792849);
    assert_eq!(rng.next_u32(), 2599843874);
}

#[test]
fn next_u32_from_seed_42() {
    let mut rng = Lcg::new_with_seed(42);
    assert_eq!(rng.next_u32(), 2440530669);
    assert_eq!(rng.next_u32(), 968358053);
    assert_eq!(rng.next_u32(), 1773127077);
}

#[test]
fn next_u32_wraps_around() {
    let mut rng = Lcg::new_with_seed(u64::MAX);
    assert_eq!(rng.next_u32(), 3149104977);
}

#[test]
fn same_seed_gives_same_stream() {
    let mut first = Lcg::new_with_seed(123456789);
    let mut second = Lcg::new_with_seed(123456789);
    assert_eq!(first.next_u32(), 4235794728);
    assert_eq!(second.next_u32(), 4235794728);
    assert_eq!(first.next_u32(), 3871058543);
    assert_eq!(second.next_u32(), 3871058543);
}

#[test]
fn next_range_reduces_the_draw() {
    let mut rng = Lcg::new_with_seed(42);
    assert_eq!(rng.next_range(10, 20), 19);
    assert_eq!(rng.next_range(10, 20), 13);
    assert_eq!(rng.next_range(10, 20), 17);
    assert_eq!(rng.next_range(10, 20), 17);
    assert_eq!(rng.next_range(10, 20), 18);
}

#[test]
fn next_range_stays_inside() {
    let mut rng = Lcg::new_with_seed(99);
    for _ in 0..1000 {
        let value = rng.next_range(3, 8);
        assert!(3 <= value && value < 8);
    }
}

#[test]
fn empty_range_gives_min_and_draws_nothing() {
    let mut rng = Lcg::new_with_seed(42);
    assert_eq!(rng.next_range(7, 7), 7);
    assert_eq!(rng.next_range(0, 0), 0);
    // The stream has not moved.
    assert_eq!(rng.next_u32(), 2440530669);
}

#[test]
fn shuffle_of_ten_numbers() {
    let mut rng = Lcg::new_with_seed(7);
    let mut items: Vec<u32> = (0..10).collect();
    rng.shuffle(&mut items);
    assert_eq!(items, vec![1, 5, 3, 0, 4, 9, 7, 2, 8, 6]);
}

#[test]
fn shuffle_of_five_numbers() {
    let mut rng = Lcg::new_with_seed(3);
    let mut items: Vec<u32> = vec![10, 20, 30, 40, 50];
    rng.shuffle(&mut items);
    assert_eq!(items, vec![20, 10, 30, 50, 40]);
}

#[test]
fn shuffle_works_on_items_that_cannot_be_copied() {
    let mut rng = Lcg::new_with_seed(3);
    let mut items: Vec<String> =
        vec!["a".to_string(), "b".to_string(), "c".to_string(), "d".to_string(), "e".to_string()];
    rng.shuffle(&mut items);
    assert_eq!(items, vec!["b", "a", "c", "e", "d"]);
}

#[test]
fn shuffle_keeps_the_items() {
    for seed in 0..50u64 {
        let mut rng = Lcg::new_with_seed(seed);
        let mut items: Vec<u32> = (0..37).collect();
        rng.shuffle(&mut items);
        let mut sorted = items.clone();
        sorted.sort();
        let expected: Vec<u32> = (0..37).collect();
        assert_eq!(sorted, expected);
    }
}

#[test]
fn shuffle_takes_one_draw_for_each_item_but_the_first() {
    let mut shuffled = Lcg::new_with_seed(11);
    let mut items: Vec<u32> = (0..6).collect();
    shuffled.shuffle(&mut items);
    let mut drawn = Lcg::new_with_seed(11);
    for _ in 0..5 {
        drawn.next_u32();
    }
    assert_eq!(shuffled.next_u32(), drawn.next_u32());
}

#[test]
fn shuffle_of_nothing_and_of_one_item_draws_nothing() {
    let mut rng = Lcg::new_with_seed(42);
    let mut none: Vec<u32> = Vec::new();
    rng.shuffle(&mut none);
    assert!(none.is_empty());
    let mut one: Vec<u32> = vec![5];
    rng.shuffle(&mut one);
    assert_eq!(one, vec![5]);
    assert_eq!(rng.next_u32(), 2440530669);
}

#[test]
fn clock_seeded_generator_draws() {
    let mut rng = Lcg::new();
    let value = rng.next_range(0, 10);
    assert!(value < 10);
}

#[test]
fn clock_reading_gives_its_low_64_bits_as_seed() {
    let mut read = Lcg::from_clock_reading(Some(42));
    assert_eq!(read.next_u32(), 2440530669);
    // Above 64 bits the reading wraps around.
    let mut wrapped = Lcg::from_clock_reading(Some((1u128 << 64) + 42));
    assert_eq!(wrapped.next_u32(), 2440530669);
    let mut largest = Lcg::from_clock_reading(Some(u128::MAX));
    assert_eq!(largest.next_u32(), 3149104977);
    let mut none = Lcg::from_clock_reading(None);
    assert_eq!(none.next_u32(), 335903614);
}
