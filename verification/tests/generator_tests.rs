use wav_stego::park_miller_prng::{ParkMiller, CHIP_THRESHOLD, MODULUS, MULTIPLIER};

/// The generator as it is usually written, the chip read off a
/// floating-point fraction.
fn reference_key(seed: i64, count: usize) -> Vec<i16> {
    let mut state = seed % 100;
    let mut key = Vec::new();
    for _ in 0..count {
        state = (state * 16807) % 2147483647;
        let value = (state as f64) / 2147483647.0 + 0.000000000233;
        key.push(if value > 0.5 { 1 } else { -1 });
    }
    key
}

#[test]
fn generator_first_chips_of_seed_one() {
    // states 16807, 282475249, 1622650073, 984943658, 1144108930
    let mut generator = ParkMiller::with_seed(1);
    assert_eq!(generator.generate_prs(5), vec![-1, -1, 1, -1, 1]);
}

#[test]
fn generator_agrees_with_the_floating_point_rule() {
    for seed in 0..100u128 {
        let mut generator = ParkMiller::with_seed(seed);
        assert_eq!(generator.generate_prs(3000), reference_key(seed as i64, 3000));
    }
}

#[test]
fn generator_threshold_is_where_the_fraction_passes_one_half() {
    for state in (CHIP_THRESHOLD - 1000)..(CHIP_THRESHOLD + 1000) {
        let value = (state as f64) / 2147483647.0 + 0.000000000233;
        assert_eq!(value > 0.5, state >= CHIP_THRESHOLD);
    }
    assert_eq!(MODULUS, 2147483647);
    assert_eq!(MULTIPLIER, 16807);
}

#[test]
fn generator_seed_is_reduced_modulo_one_hundred() {
    let mut one = ParkMiller::with_seed(7);
    let mut other = ParkMiller::with_seed(1_700_000_000_000_007);
    assert_eq!(one.generate_prs(64), other.generate_prs(64));
}

#[test]
fn generator_same_seed_same_key() {
    let mut one = ParkMiller::with_seed(42);
    let mut other = ParkMiller::with_seed(42);
    assert_eq!(one.generate_prs(500), other.generate_prs(500));
}

#[test]
fn generator_two_calls_continue_the_sequence() {
    let mut whole = ParkMiller::with_seed(13);
    let mut parts = ParkMiller::with_seed(13);
    let key = whole.generate_prs(300);
    let head = parts.generate_prs(120);
    let tail = parts.generate_prs(180);
    assert_eq!(head, key[..120].to_vec());
    assert_eq!(tail, key[120..].to_vec());
}

#[test]
fn generator_next_is_one_chip_of_the_key() {
    let mut by_chip = ParkMiller::with_seed(3);
    let mut by_key = ParkMiller::with_seed(3);
    let key = by_key.generate_prs(10);
    for chip in key {
        assert_eq!(by_chip.next(), chip);
    }
}

#[test]
fn generator_seed_zero_stays_at_zero() {
    let mut generator = ParkMiller::with_seed(0);
    assert_eq!(generator.generate_prs(6), vec![-1; 6]);
    let mut hundred = ParkMiller::with_seed(100);
    assert_eq!(hundred.generate_prs(6), vec![-1; 6]);
}

#[test]
fn generator_no_chips() {
    let mut generator = ParkMiller::with_seed(5);
    assert_eq!(generator.generate_prs(0), Vec::<i16>::new());
}

#[test]
fn generator_from_the_clock_emits_unit_chips() {
    let mut generator = ParkMiller::new();
    let key = generator.generate_prs(256);
    assert_eq!(key.len(), 256);
    assert!(key.iter().all(|chip| *chip == 1 || *chip == -1));
    // one of the hundred seeded generators emits the same key
    assert!((0..100u128).any(|seed| ParkMiller::with_seed(seed).generate_prs(256) == key));
}

#[test]
fn generator_from_a_reading_of_the_clock() {
    // a reading seeds as the same number does
    for reading in [0u128, 1, 99, 100, 1_761_609_600_000_123, u128::MAX] {
        let mut from_reading = ParkMiller::from_reading(Some(reading));
        let mut from_seed = ParkMiller::with_seed(reading);
        assert_eq!(from_reading.generate_prs(200), from_seed.generate_prs(200));
    }
    // 1_761_609_600_000_123 reduces to 23
    let mut reduced = ParkMiller::from_reading(Some(1_761_609_600_000_123));
    assert_eq!(reduced.generate_prs(200), ParkMiller::with_seed(23).generate_prs(200));
    // no reading seeds with 0, whose key is all -1
    let mut before_the_epoch = ParkMiller::from_reading(None);
    assert_eq!(before_the_epoch.generate_prs(50), vec![-1; 50]);
}
