//! Rate limiter behaviour: a fresh bucket grants exactly its capacity,
//! denies when empty, and grants again once enough time has passed.

use chat_core::rate::RateLimiter;

#[test]
fn fresh_bucket_grants_exactly_capacity_then_denies() {
    let mut rl = RateLimiter::new(5, 1000);
    for _ in 0..5 {
        assert!(rl.allow_at("u1", 1_000_000));
    }
    assert!(!rl.allow_at("u1", 1_000_000));
    assert!(!rl.allow_at("u1", 1_000_000));
}

#[test]
fn refill_grants_again_after_enough_time() {
    let mut rl = RateLimiter::new(1, 1000);
    assert!(rl.allow_at("u1", 0));
    assert!(!rl.allow_at("u1", 0));
    assert!(!rl.allow_at("u1", 999));
    assert!(rl.allow_at("u1", 1000));
    assert!(!rl.allow_at("u1", 1000));
}

#[test]
fn fractional_rates_accumulate() {
    // half a token per second: a whole token only after two seconds
    let mut rl = RateLimiter::new(1, 500);
    assert!(rl.allow_at("u1", 0));
    assert!(!rl.allow_at("u1", 1000));
    assert!(rl.allow_at("u1", 2000));
}

#[test]
fn keys_have_independent_buckets() {
    let mut rl = RateLimiter::new(1, 0);
    assert!(rl.allow_at("a", 0));
    assert!(rl.allow_at("b", 0));
    assert!(!rl.allow_at("a", 0));
    assert!(!rl.allow_at("b", 0));
}

#[test]
fn refill_never_exceeds_capacity() {
    let mut rl = RateLimiter::new(2, 1000);
    assert!(rl.allow_at("u1", 0));
    assert!(rl.allow_at("u1", 0));
    // a long wait refills to capacity, not beyond
    assert!(rl.allow_at("u1", 1_000_000));
    assert!(rl.allow_at("u1", 1_000_000));
    assert!(!rl.allow_at("u1", 1_000_000));
}

#[test]
fn clear_buckets_starts_everyone_fresh() {
    let mut rl = RateLimiter::new(1, 0);
    assert!(rl.allow_at("u1", 0));
    assert!(!rl.allow_at("u1", 0));
    rl.clear_buckets();
    assert!(rl.allow_at("u1", 0));
}

#[test]
fn allow_consults_the_wall_clock() {
    // no refill: the first call drains the single token for good
    let mut rl = RateLimiter::new(1, 0);
    assert!(rl.allow("u1"));
    assert!(!rl.allow("u1"));
}
