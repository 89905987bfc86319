use boltzmann_agent::Xorshift64;

fn float_index(numerator: u64, n: usize) -> usize {
    ((numerator as f64 / (1u64 << 53) as f64) * n as f64) as usize
}

#[test]
fn test_reproducibility() {
    let mut rng1 = Xorshift64::new(42);
    let mut rng2 = Xorshift64::new(42);
    for _ in 0..100 {
        assert_eq!(rng1.next_u64(), rng2.next_u64());
    }
}

#[test]
fn next_u64_follows_the_xorshift_recurrence() {
    let mut rng = Xorshift64::new(42);
    assert_eq!(rng.next_u64(), 45454805674);
    assert_eq!(rng.next_u64(), 11532217803599905471);
    assert_eq!(rng.next_u64(), 10021416941527320954);
    assert_eq!(rng.state(), 10021416941527320954);
}

#[test]
fn default_seed_starts_from_the_fixed_seed() {
    let rng = Xorshift64::default_seed();
    assert_eq!(rng.state(), 0xDEAD_BEEF_CAFE_BABE);
    let mut rng = rng;
    assert_eq!(rng.next_u64(), 2872271934144653387);
}

#[test]
fn new_keeps_the_seed_as_state() {
    assert_eq!(Xorshift64::new(7).state(), 7);
}

#[test]
fn clone_yields_the_same_stream() {
    let mut a = Xorshift64::new(99);
    a.next_u64();
    let mut b = a.clone();
    for _ in 0..50 {
        assert_eq!(a.next_u64(), b.next_u64());
    }
}

#[test]
fn zero_state_is_a_fixed_point() {
    let mut rng = Xorshift64::from_state(0);
    for _ in 0..10 {
        assert_eq!(rng.next_u64(), 0);
    }
}

#[test]
fn nonzero_seed_never_reaches_zero() {
    let mut rng = Xorshift64::new(1);
    for _ in 0..100_000 {
        assert_ne!(rng.next_u64(), 0);
    }
}

#[test]
fn unit_numerator_is_the_top_53_bits() {
    let mut a = Xorshift64::new(123);
    let mut b = Xorshift64::new(123);
    for _ in 0..10_000 {
        let k = a.next_unit_numerator();
        assert_eq!(k, b.next_u64() >> 11);
        assert!(k < (1u64 << 53));
        let u = k as f64 / (1u64 << 53) as f64;
        assert!((0.0..1.0).contains(&u));
    }
}

#[test]
fn next_usize_matches_the_float_expression() {
    let ns: Vec<usize> = vec![
        0,
        1,
        2,
        3,
        5,
        7,
        10,
        1000,
        (1 << 53) - 1,
        1 << 53,
        (1 << 53) + 1,
        (1 << 53) + 3,
        (1 << 54) + 3,
        (1 << 60) + 12345,
        usize::MAX / 3,
        usize::MAX - 1,
        usize::MAX,
    ];
    let mut seeds = Xorshift64::new(2024);
    for _ in 0..2_000 {
        let seed = seeds.next_u64() | 1;
        for &n in &ns {
            let mut a = Xorshift64::new(seed);
            let mut b = Xorshift64::new(seed);
            let expected = float_index(b.next_u64() >> 11, n);
            assert_eq!(a.next_usize(n), expected, "seed {seed}, n {n}");
            assert_eq!(a.state(), b.state());
        }
    }
    let mut ns_rng = Xorshift64::new(77);
    for _ in 0..20_000 {
        let n = (ns_rng.next_u64() >> (ns_rng.next_u64() % 64)) as usize;
        let seed = ns_rng.next_u64() | 1;
        let mut a = Xorshift64::new(seed);
        let mut b = Xorshift64::new(seed);
        assert_eq!(a.next_usize(n), float_index(b.next_u64() >> 11, n), "n {n}");
    }
}

#[test]
fn next_usize_stays_below_n() {
    let mut rng = Xorshift64::new(5);
    for n in 1..200usize {
        for _ in 0..50 {
            assert!(rng.next_usize(n) < n);
        }
    }
    assert_eq!(rng.next_usize(1), 0);
    assert_eq!(rng.next_usize(0), 0);
}
