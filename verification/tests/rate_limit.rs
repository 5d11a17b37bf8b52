use daily_knowledge::rate_limit::{ClientIp, RateLimiter, NANOS_PER_SEC};

#[test]
fn admits_up_to_the_limit_within_a_window() {
    let mut rl = RateLimiter::new(60, 3);
    let ip = ClientIp::V4(0x7f000001);
    assert!(rl.allow(ip, 10));
    assert!(rl.allow(ip, 20));
    assert!(rl.allow(ip, 30));
    assert!(!rl.allow(ip, 40));
    assert!(!rl.allow(ip, 60 * NANOS_PER_SEC));
    // after the first hit leaves the window, one more request is admitted
    assert!(rl.allow(ip, 60 * NANOS_PER_SEC + 11));
    assert!(!rl.allow(ip, 60 * NANOS_PER_SEC + 12));
}

#[test]
fn clients_are_counted_apart() {
    let mut rl = RateLimiter::new(1, 1);
    assert!(rl.allow(ClientIp::V4(1), 0));
    assert!(!rl.allow(ClientIp::V4(1), 1));
    assert!(rl.allow(ClientIp::V4(2), 1));
    assert!(rl.allow(ClientIp::V6(1), 1));
    assert!(!rl.allow(ClientIp::V6(1), 2));
}

#[test]
fn clearing_admits_again() {
    let mut rl = RateLimiter::new(60, 2);
    let ip = ClientIp::V6(42);
    assert!(rl.allow(ip, 1));
    assert!(rl.allow(ip, 2));
    assert!(!rl.allow(ip, 3));
    rl.clear();
    assert!(rl.allow(ip, 4));
}

#[test]
fn zero_limit_refuses_everything() {
    let mut rl = RateLimiter::new(60, 0);
    assert!(!rl.allow(ClientIp::V4(9), 5));
}
