use oxygn::limiting::{
    moka_decision, window_id, window_key, BasicCounter, LimitingStrategy, LimitingStrategyFactory,
    MokaCounter, NoLimiting, RateLimiter,
};

const SEC: u128 = 1_000_000_000;

#[test]
fn no_limiting_admits_everything() {
    let mut l = NoLimiting::init();
    for _ in 0..1000 {
        assert!(l.check_limit("10.0.0.1", 0));
    }
}

#[test]
fn basic_counter_admits_rate_requests_per_window() {
    let mut c = BasicCounter::init(10);
    assert!(c.check_limit_at("10.0.0.1", 3, 0));
    assert!(c.check_limit_at("10.0.0.1", 3, SEC));
    assert!(c.check_limit_at("10.0.0.1", 3, 2 * SEC));
    assert!(!c.check_limit_at("10.0.0.1", 3, 3 * SEC));
    assert!(!c.check_limit_at("10.0.0.1", 3, 10 * SEC - 1));
    // the window has lasted 10 s: a new one starts, counting this request
    assert!(c.check_limit_at("10.0.0.1", 3, 10 * SEC));
    assert!(c.check_limit_at("10.0.0.1", 3, 11 * SEC));
    assert!(c.check_limit_at("10.0.0.1", 3, 12 * SEC));
    assert!(!c.check_limit_at("10.0.0.1", 3, 13 * SEC));
}

#[test]
fn basic_counter_limits_each_client_separately() {
    let mut c = BasicCounter::init(60);
    assert!(c.check_limit_at("10.0.0.1", 1, 0));
    assert!(!c.check_limit_at("10.0.0.1", 1, 1));
    assert!(c.check_limit_at("10.0.0.2", 1, 2));
    assert!(!c.check_limit_at("10.0.0.2", 1, 3));
    assert!(!c.check_limit_at("10.0.0.1", 1, 4));
}

#[test]
fn basic_counter_with_rate_zero_refuses_until_a_window_passes() {
    let mut c = BasicCounter::init(1);
    assert!(!c.check_limit_at("10.0.0.1", 0, 0));
    assert!(!c.check_limit_at("10.0.0.1", 0, SEC - 1));
    // a new window always admits its first request
    assert!(c.check_limit_at("10.0.0.1", 0, SEC));
    assert!(!c.check_limit_at("10.0.0.1", 0, SEC + 1));
}

#[test]
fn basic_counter_with_zero_window_admits_everything() {
    let mut c = BasicCounter::init(0);
    for t in 0..5u128 {
        assert!(c.check_limit_at("10.0.0.1", 1, t));
    }
}

#[test]
fn basic_counter_on_its_own_clock() {
    let mut c = BasicCounter::init(3600);
    assert!(c.check_limit("192.168.1.1", 2));
    assert!(c.check_limit("192.168.1.1", 2));
    assert!(!c.check_limit("192.168.1.1", 2));
    assert!(c.check_limit("192.168.1.2", 2));
}

#[test]
fn window_ids_follow_integer_division() {
    assert_eq!(window_id(15_000, 10_000), 1);
    assert_eq!(window_id(19_990, 10_000), 1);
    assert_eq!(window_id(20_000, 10_000), 2);
    assert_eq!(window_id(0, 1_000), 0);
}

#[test]
fn window_key_is_ip_colon_window() {
    assert_eq!(window_key("10.0.0.1", 1), "10.0.0.1:1");
    assert_eq!(window_key("10.0.0.1", 1_717_171_717), "10.0.0.1:1717171717");
    assert_eq!(window_key("::1", 0), "::1:0");
}

#[test]
fn moka_decision_counts_and_refuses() {
    assert_eq!(moka_decision(None, 5), (true, Some(1)));
    assert_eq!(moka_decision(Some(1), 5), (true, Some(2)));
    assert_eq!(moka_decision(Some(4), 5), (true, Some(5)));
    assert_eq!(moka_decision(Some(5), 5), (false, None));
    assert_eq!(moka_decision(Some(9), 5), (false, None));
    assert_eq!(moka_decision(None, 0), (true, Some(1)));
    assert_eq!(moka_decision(Some(1), 0), (false, None));
    assert_eq!(moka_decision(Some(u32::MAX - 1), u32::MAX), (true, Some(u32::MAX)));
}

#[test]
fn moka_counter_admits_rate_requests_per_window() {
    let mut c = MokaCounter::init(1_000_000, 1);
    assert!(c.check_limit("172.16.0.1", 2));
    assert!(c.check_limit("172.16.0.1", 2));
    assert!(!c.check_limit("172.16.0.1", 2));
    assert!(c.check_limit("172.16.0.2", 2));
}

#[test]
fn factory_picks_the_named_strategy() {
    assert!(matches!(LimitingStrategyFactory::init("no_limiting", 1, 100), RateLimiter::NoLimiting(_)));
    assert!(matches!(LimitingStrategyFactory::init("basic_counter", 1, 100), RateLimiter::BasicCounter(_)));
    assert!(matches!(LimitingStrategyFactory::init("moka_counter", 1, 100), RateLimiter::MokaCounter(_)));
    assert!(matches!(LimitingStrategyFactory::init("token_bucket", 1, 100), RateLimiter::MokaCounter(_)));
}

#[test]
fn factory_limiter_dispatches() {
    let mut l = LimitingStrategyFactory::init("basic_counter", 3600, 100);
    assert!(l.check_limit("10.1.1.1", 1));
    assert!(!l.check_limit("10.1.1.1", 1));
    let mut n = LimitingStrategyFactory::init("no_limiting", 3600, 100);
    assert!(n.check_limit("10.1.1.1", 0));
}

#[test]
fn moka_counter_windows_on_given_times() {
    let mut c = MokaCounter::init(10, 100);
    assert!(c.has_window());
    // 15 000 ms and 19 990 ms fall in window 1; 20 000 ms starts window 2
    assert!(c.check_limit_at("1.2.3.4", 1, 15_000));
    assert!(!c.check_limit_at("1.2.3.4", 1, 19_990));
    assert!(c.check_limit_at("1.2.3.4", 1, 20_000));
    assert!(!c.check_limit_at("1.2.3.4", 1, 29_999));
    // another client has a count of its own
    assert!(c.check_limit_at("1.2.3.5", 1, 29_999));
}

#[test]
fn moka_counter_with_rate_zero_admits_the_first_request_of_a_window() {
    let mut c = MokaCounter::init(10, 100);
    assert!(c.check_limit_at("1.2.3.4", 0, 0));
    assert!(!c.check_limit_at("1.2.3.4", 0, 1));
    assert!(c.check_limit_at("1.2.3.4", 0, 10_000));
}

#[test]
fn moka_counter_with_empty_window_cannot_decide() {
    let c = MokaCounter::init(0, 100);
    assert!(!c.has_window());
    assert!(!LimitingStrategyFactory::init("moka_counter", 0, 100).can_decide());
    assert!(LimitingStrategyFactory::init("basic_counter", 0, 100).can_decide());
    assert!(LimitingStrategyFactory::init("no_limiting", 0, 100).can_decide());
}

#[test]
fn moka_counter_interleaved_clients_count_their_own_windows() {
    let mut c = MokaCounter::init(10, 100);
    let requests: Vec<(&str, u128, bool)> = vec![
        ("10.0.0.1", 1_000, true),
        ("10.0.0.2", 1_500, true),
        ("10.0.0.1", 2_000, true),
        ("10.0.0.2", 2_500, true),
        ("10.0.0.1", 3_000, false),
        ("10.0.0.3", 3_500, true),
        ("10.0.0.2", 9_999, false),
        ("10.0.0.1", 10_000, true),
        ("10.0.0.2", 10_001, true),
    ];
    for (ip, now, expected) in requests {
        assert_eq!(c.check_limit_at(ip, 2, now), expected, "{} at {}", ip, now);
    }
}
