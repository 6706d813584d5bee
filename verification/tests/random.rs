use mcts_lib::random::{CustomNumberGenerator, RandomGenerator, StandardRandomGenerator};

#[test]
fn outputs_same_numbers() {
    let mut crg = CustomNumberGenerator::new(42);
    assert_eq!(crg.next_range(0, 10), 8);
    assert_eq!(crg.next_range(0, 10), 4);
    assert_eq!(crg.next_range(0, 10), 1);
    assert_eq!(crg.next_range(0, 10), 2);
    assert_eq!(crg.next_range(0, 10), 4);
}

#[test]
fn random_from_vec_should_be_same() {
    let vec = vec![432, 6542, 534, 6, 13, 645, 88, 2352, 345, 2667, 8287];
    let mut crg = CustomNumberGenerator::default();
    assert_eq!(*crg.get_random_from_vec(&vec), 6);
    assert_eq!(*crg.get_random_from_vec(&vec), 2667);
    assert_eq!(*crg.get_random_from_vec(&vec), 534);
    assert_eq!(*crg.get_random_from_vec(&vec), 8287);
    assert_eq!(*crg.get_random_from_vec(&vec), 6);
}

#[test]
fn next_follows_the_recurrence() {
    let mut crg = CustomNumberGenerator::new(42);
    // (42 * 1103515245 + 12345) % 2147483647
    assert_eq!(crg.next(), 1250496048);
    let mut again = CustomNumberGenerator::new(42);
    assert_eq!(again.next(), 1250496048);
}

#[test]
fn negative_seed_gives_values_in_range() {
    let mut crg = CustomNumberGenerator::new(-7);
    for _ in 0..100 {
        let picked = crg.next_range(-3, 4);
        assert!(-3 <= picked && picked < 4);
    }
}

#[test]
fn next_range_shifts_by_from() {
    let mut low = CustomNumberGenerator::new(42);
    let mut high = CustomNumberGenerator::new(42);
    for _ in 0..20 {
        assert_eq!(low.next_range(0, 10) + 5, high.next_range(5, 15));
    }
}

#[test]
fn standard_generator_stays_in_range() {
    let mut rg = StandardRandomGenerator::default();
    let mut seen_other_than_from = false;
    for _ in 0..1000 {
        let picked = rg.next_range(10, 20);
        assert!(10 <= picked && picked < 20);
        if picked != 10 {
            seen_other_than_from = true;
        }
    }
    assert!(seen_other_than_from);
    let picked = rg.next_range(-5, -4);
    assert_eq!(picked, -5);
}

#[test]
fn standard_generator_varies() {
    let mut rg = StandardRandomGenerator::default();
    let first = rg.next();
    let mut differs = false;
    for _ in 0..64 {
        if rg.next() != first {
            differs = true;
        }
    }
    assert!(differs);
}
