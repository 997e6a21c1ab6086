use carrotson::lcg::LCG;

#[test]
fn seed_one_first_draw() {
    let mut lcg = LCG::new(1);
    assert_eq!(lcg.random_u32(), 1817669548);
}

#[test]
fn seed_one_first_draw_follows_the_formula() {
    let state = 1u64
        .wrapping_mul(6364136223846793005)
        .wrapping_add(1442695040888963407);
    let mut lcg = LCG::new(1);
    assert_eq!(lcg.random_u32(), (state >> 32) as u32);
}

#[test]
fn seed_one_draws_in_sequence() {
    let mut lcg = LCG::new(1);
    let drawn: Vec<u32> = (0..4).map(|_| lcg.random_u32()).collect();
    assert_eq!(drawn, vec![1817669548, 2187888307, 2784682393, 1644385741]);
}

#[test]
fn seed_zero_draws() {
    let mut lcg = LCG::new(0);
    assert_eq!(lcg.random_u32(), 335903614);
    assert_eq!(lcg.random_u32(), 436792849);
}

#[test]
fn largest_seed_wraps() {
    let mut lcg = LCG::new(u64::MAX);
    assert_eq!(lcg.random_u32(), 3149104977);
    assert_eq!(lcg.random_u32(), 2980664687);
}

#[test]
fn same_seed_same_sequence() {
    let mut a = LCG::new(0xdead_beef);
    let mut b = LCG::new(0xdead_beef);
    for _ in 0..1000 {
        assert_eq!(a.random_u32(), b.random_u32());
    }
}

#[test]
fn different_seeds_diverge() {
    let mut a = LCG::new(1);
    let mut b = LCG::new(2);
    assert_ne!(a.random_u32(), b.random_u32());
}
