use dungeon_core::seed::{SeedError, Seeder};

#[test]
fn parses_hex_pairs_and_wraps() {
    let mut s = Seeder::try_from_seed(String::from("0aff")).unwrap();
    assert_eq!(s.seed(), 0x0a);
    assert_eq!(s.seed(), 0xff);
    // The cursor wraps: the buffer repeats once exhausted.
    assert_eq!(s.seed(), 0x0a);
}

#[test]
fn odd_length_trailing_digit_stands_alone() {
    let mut s = Seeder::try_from_seed(String::from("abc")).unwrap();
    assert_eq!(s.seed(), 0xab);
    assert_eq!(s.seed(), 0x0c);
}

#[test]
fn rejects_non_hex_seed() {
    assert!(matches!(
        Seeder::try_from_seed(String::from("zz")),
        Err(SeedError::InvalidSeed)
    ));
    assert!(matches!(
        Seeder::try_from_seed(String::from("0g")),
        Err(SeedError::InvalidSeed)
    ));
}

#[test]
fn rejects_empty_seed() {
    assert!(matches!(
        Seeder::try_from_seed(String::new()),
        Err(SeedError::InvalidSeed)
    ));
}

#[test]
fn accepts_upper_and_lower_case() {
    let mut s = Seeder::try_from_seed(String::from("Fa")).unwrap();
    assert_eq!(s.seed(), 0xfa);
}

#[test]
fn seed_u32_combines_most_significant_first() {
    let mut s = Seeder::try_from_seed(String::from("01020304")).unwrap();
    assert_eq!(s.seed_u32(), 0x01020304);
}

#[test]
fn bounded_follows_the_modulo_formula() {
    // The next 32-bit value is 5; 5 mod (3 - 0 + 1) + 0 = 1.
    let mut s = Seeder::try_from_seed(String::from("00000005")).unwrap();
    assert_eq!(s.seed_u32_bounded(0, 3), 1);
    // 5 mod (12 - 10 + 1) + 10 = 12.
    let mut s2 = Seeder::try_from_seed(String::from("00000005")).unwrap();
    assert_eq!(s2.seed_u32_bounded(10, 12), 12);
}

#[test]
fn bounded_stays_in_range() {
    let mut s = Seeder::try_from_seed(String::from("deadbeef00112233")).unwrap();
    for _ in 0..32 {
        let v = s.seed_u32_bounded(150, 1000);
        assert!((150..=1000).contains(&v));
    }
}

#[test]
fn same_seed_same_stream() {
    let mut a = Seeder::try_from_seed(String::from("00ff17c4deadbeef")).unwrap();
    let mut b = Seeder::try_from_seed(String::from("00ff17c4deadbeef")).unwrap();
    for _ in 0..64 {
        assert_eq!(a.seed(), b.seed());
    }
    for _ in 0..16 {
        assert_eq!(a.seed_u32_bounded(1, 3), b.seed_u32_bounded(1, 3));
    }
}
