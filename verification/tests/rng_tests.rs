use space_game::rng::{SimpleRng, GOLDEN_GAMMA};

fn xorshift(mut x: u64) -> u64 {
    x ^= x << 13;
    x ^= x >> 7;
    x ^= x << 17;
    x
}

#[test]
fn next_u64_is_xorshift_of_state() {
    let mut rng = SimpleRng::from_state(1);
    assert_eq!(rng.next_u64(), 1082269761);
    assert_eq!(rng.state(), 1082269761);
    assert_eq!(rng.next_u64(), 1152992998833853505);
}

#[test]
fn zero_state_is_replaced_by_golden_constant() {
    let mut rng = SimpleRng::from_state(0);
    assert_eq!(rng.next_u64(), xorshift(GOLDEN_GAMMA));
    assert_eq!(xorshift(GOLDEN_GAMMA), 15860402102123842989);
}

#[test]
fn from_nanos_adds_golden_constant() {
    assert_eq!(SimpleRng::from_nanos(Some(0)).state(), GOLDEN_GAMMA);
    assert_eq!(SimpleRng::from_nanos(None).state(), GOLDEN_GAMMA);
    assert_eq!(SimpleRng::from_nanos(Some(5)).state(), GOLDEN_GAMMA + 5);
    // The reading is cut to 64 bits and the sum wraps.
    let big: u128 = (1u128 << 64) + u64::MAX as u128;
    assert_eq!(SimpleRng::from_nanos(Some(big)).state(), u64::MAX.wrapping_add(GOLDEN_GAMMA));
}

#[test]
fn seed_from_instant_gives_a_generator() {
    let mut rng = SimpleRng::seed_from_instant();
    let v = rng.next_u64();
    assert_ne!(v, 0);
}

#[test]
fn next_u32_is_low_half() {
    let mut a = SimpleRng::from_state(42);
    let mut b = SimpleRng::from_state(42);
    assert_eq!(a.next_u32() as u64, b.next_u64() & 0xFFFF_FFFF);
    assert_eq!(a.state(), b.state());
    let mut c = SimpleRng::from_state(42);
    assert_eq!(c.next_u32(), 2505132714);
}

#[test]
fn next_range_stays_in_range() {
    let mut rng = SimpleRng::from_state(7);
    for _ in 0..1000 {
        let v = rng.next_range(3, 10);
        assert!(3 <= v && v < 10);
    }
    let mut r2 = SimpleRng::from_state(42);
    assert_eq!(r2.next_range(10, 14), 10 + (45454805674u64 % 4) as usize);
}

#[test]
fn next_range_empty_returns_min_without_advancing() {
    let mut rng = SimpleRng::from_state(99);
    assert_eq!(rng.next_range(5, 5), 5);
    assert_eq!(rng.next_range(8, 3), 8);
    assert_eq!(rng.state(), 99);
}

#[test]
fn generator_never_yields_zero() {
    for seed in [0u64, 1, 2, u64::MAX, GOLDEN_GAMMA, 1 << 63] {
        let mut rng = SimpleRng::from_state(seed);
        for _ in 0..10_000 {
            assert_ne!(rng.next_u64(), 0);
        }
    }
}
