use boltzmann_agent::rounding::round_to_f64_exact;
use boltzmann_agent::Xorshift64;

#[test]
fn small_integers_are_exact() {
    for v in 0u128..1000 {
        assert_eq!(round_to_f64_exact(v), v);
    }
    assert_eq!(round_to_f64_exact((1 << 53) - 1), (1 << 53) - 1);
}

#[test]
fn ties_go_to_the_even_significand() {
    // 2^53 + 1 lies halfway between 2^53 and 2^53 + 2: the even one wins.
    assert_eq!(round_to_f64_exact((1 << 53) + 1), 1 << 53);
    // 2^53 + 3 lies halfway between 2^53 + 2 and 2^53 + 4: 2^53 + 4 is even.
    assert_eq!(round_to_f64_exact((1 << 53) + 3), (1 << 53) + 4);
    assert_eq!(round_to_f64_exact(u64::MAX as u128), 1 << 64);
}

#[test]
fn agrees_with_the_cast_to_f64() {
    let mut rng = Xorshift64::new(31337);
    for _ in 0..50_000 {
        let v = rng.next_u64() >> (rng.next_u64() % 64);
        assert_eq!(round_to_f64_exact(v as u128), (v as f64) as u128, "v = {v}");
    }
}
