use lrmdns::ratelimit::RateLimiter;

const SEC: u64 = 1_000_000;

#[test]
fn test_rate_limiting() {
    let mut limiter = RateLimiter::new(10);
    let addr: u128 = 0x7f000001;
    let now = 100 * SEC;

    for _ in 0..10 {
        assert!(limiter.check_rate_limit(addr, now));
    }
    assert!(!limiter.check_rate_limit(addr, now));
}

#[test]
fn test_different_ips() {
    let mut limiter = RateLimiter::new(5);
    let addr1: u128 = 0x7f000001;
    let addr2: u128 = 0x7f000002;
    let now = 100 * SEC;

    for _ in 0..5 {
        assert!(limiter.check_rate_limit(addr1, now));
        assert!(limiter.check_rate_limit(addr2, now));
    }
    assert!(!limiter.check_rate_limit(addr1, now));
    assert!(!limiter.check_rate_limit(addr2, now));
}

#[test]
fn test_window_expiration() {
    let mut limiter = RateLimiter::new(5);
    let addr: u128 = 0x7f000001;
    let t0 = 100 * SEC;

    for _ in 0..5 {
        assert!(limiter.check_rate_limit(addr, t0));
    }
    assert!(!limiter.check_rate_limit(addr, t0));

    // After more than the one-second window has passed, the window has
    // fully expired and the client is allowed again.
    let t1 = t0 + SEC + 100_000;
    assert!(limiter.check_rate_limit(addr, t1));
}

#[test]
fn test_cleanup_removes_old_clients() {
    let mut limiter = RateLimiter::new(10);
    let t0 = 100 * SEC;

    for i in 1..=10u128 {
        assert!(limiter.check_rate_limit(0xc0a80000 + i, t0));
    }
    assert_eq!(limiter.client_count(), 10);

    // After the sweep interval, a call from a new client sweeps the
    // stale windows away; only the new client stays.
    let t1 = t0 + 61 * SEC;
    assert!(limiter.check_rate_limit(0xc0a800ff, t1));
    assert_eq!(limiter.client_count(), 1);
}

#[test]
fn test_partial_cleanup() {
    let mut limiter = RateLimiter::new(10);
    let t0 = 100 * SEC;
    let addr1: u128 = 0x0a000001;
    let addr2: u128 = 0x0a000002;

    assert!(limiter.check_rate_limit(addr1, t0));
    // addr2 queries much later; when its call triggers the sweep, addr1's
    // expired window leaves the table while addr2's fresh one stays.
    let t1 = t0 + 61 * SEC;
    assert!(limiter.check_rate_limit(addr2, t1));
    assert_eq!(limiter.client_count(), 1);
    // addr2 is the one still tracked: its window holds one entry.
    assert!(limiter.check_rate_limit(addr2, t1));
}

#[test]
fn test_ipv6_addresses() {
    let mut limiter = RateLimiter::new(3);
    // 2001:db8::1 as a 128-bit value.
    let addr: u128 = 0x2001_0db8_0000_0000_0000_0000_0000_0001;
    let now = 100 * SEC;

    for _ in 0..3 {
        assert!(limiter.check_rate_limit(addr, now));
    }
    assert!(!limiter.check_rate_limit(addr, now));
}

#[test]
fn test_zero_rate_limit() {
    let mut limiter = RateLimiter::new(0);
    let addr: u128 = 0x7f000001;
    assert!(!limiter.check_rate_limit(addr, 100 * SEC));
}

#[test]
fn test_high_rate_limit() {
    let mut limiter = RateLimiter::new(1000);
    let addr: u128 = 0x7f000001;
    let now = 100 * SEC;

    for _ in 0..1000 {
        assert!(limiter.check_rate_limit(addr, now));
    }
    assert!(!limiter.check_rate_limit(addr, now));
}

#[test]
fn test_sliding_window_partial_expiry() {
    let mut limiter = RateLimiter::new(2);
    let addr: u128 = 1;
    let t0 = 100 * SEC;

    assert!(limiter.check_rate_limit(addr, t0));
    assert!(limiter.check_rate_limit(addr, t0 + SEC / 2));
    assert!(!limiter.check_rate_limit(addr, t0 + SEC / 2));
    // The first stamp has aged out of the window, the second has not.
    assert!(limiter.check_rate_limit(addr, t0 + SEC + 1));
    assert!(!limiter.check_rate_limit(addr, t0 + SEC + 2));
}
