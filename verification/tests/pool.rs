use dexter::liquidity_pool::LiquidityPool;

#[test]
fn pool_new_sets_reserves_and_k() {
    let pool = LiquidityPool::new(1000, 1000);
    assert_eq!(pool.reserve_a, 1000);
    assert_eq!(pool.reserve_b, 1000);
    assert_eq!(pool.k, 1_000_000);
}

#[test]
fn amm_invariant_on_valid_swaps() {
    let mut pool = LiquidityPool::new(1000, 1000);
    let out = pool.swap_a_for_b(50);
    assert_eq!(out, Some(48));
    assert_eq!(pool.reserve_a, 1050);
    assert_eq!(pool.reserve_b, 952);
    let product = pool.reserve_a * pool.reserve_b;
    assert!(product <= pool.k);
    assert!(pool.k - product < pool.reserve_a + pool.reserve_b);
    assert!(pool.reserve_a >= 1 && pool.reserve_b >= 1);

    let out = pool.swap_b_for_a(100);
    assert_eq!(out, Some(100));
    assert_eq!(pool.reserve_b, 1052);
    assert_eq!(pool.reserve_a, 950);
    let product = pool.reserve_a * pool.reserve_b;
    assert!(product <= pool.k);
    assert!(pool.k - product < pool.reserve_a + pool.reserve_b);
    assert!(pool.reserve_a >= 1 && pool.reserve_b >= 1);
    assert_eq!(pool.k, 1_000_000);
}

#[test]
fn amm_rejects_nonpositive_input() {
    let mut pool = LiquidityPool::new(1000, 1000);
    assert_eq!(pool.swap_a_for_b(0), None);
    assert_eq!(pool.swap_a_for_b(-5), None);
    assert_eq!(pool.swap_b_for_a(0), None);
    assert_eq!(pool.swap_b_for_a(-5), None);
    assert_eq!(pool.reserve_a, 1000);
    assert_eq!(pool.reserve_b, 1000);
}

#[test]
fn amm_rejects_swap_draining_outgoing_reserve() {
    let mut pool = LiquidityPool::new(1, 5);
    assert_eq!(pool.swap_a_for_b(10), None);
    assert_eq!(pool.reserve_a, 1);
    assert_eq!(pool.reserve_b, 5);
}

#[test]
fn amm_rejects_swap_with_zero_output() {
    let mut pool = LiquidityPool::new(3, 3);
    assert_eq!(pool.swap_a_for_b(1), Some(1));
    assert_eq!((pool.reserve_a, pool.reserve_b), (4, 2));
    assert_eq!(pool.swap_a_for_b(1), Some(1));
    assert_eq!((pool.reserve_a, pool.reserve_b), (5, 1));
    assert_eq!(pool.swap_a_for_b(1), None);
    assert_eq!((pool.reserve_a, pool.reserve_b), (5, 1));
}
