use oxygn::config::{
    default_health_check_interval_secs, default_health_check_path, default_health_check_type,
    default_limiting_strategy, default_memory_budget_mb, default_strategy, default_tcp_nodelay,
    default_window_secs, BackendConfig, Config, HealthCheck, Limiting, LoadBalancing, Networking,
    Oxygen,
};
use oxygn::pool::{BackendPool, Route};

fn config(strategy: &str, rate: u32, machines: Vec<(&str, Vec<u16>)>) -> Config {
    Config {
        backend: machines
            .into_iter()
            .map(|(host, ports)| BackendConfig { backend_host: host.to_string(), ports })
            .collect(),
        limiting: Limiting {
            strategy: strategy.to_string(),
            rate,
            window_secs: 3600,
            memory_budget_mb: 10,
        },
        load_balancing: LoadBalancing { strategy: default_strategy() },
        oxygen: Oxygen { port: 8000 },
        health_check: HealthCheck::default(),
        networking: Networking::default(),
    }
}

#[test]
fn defaults_of_the_configuration() {
    assert_eq!(default_limiting_strategy(), "no_limiting");
    assert_eq!(default_window_secs(), 1);
    assert_eq!(default_memory_budget_mb(), 100);
    assert_eq!(default_strategy(), "round_robin");
    assert_eq!(default_health_check_interval_secs(), 2);
    assert_eq!(default_health_check_type(), "tcp");
    assert_eq!(default_health_check_path(), "/health");
    assert!(default_tcp_nodelay());
    let h = HealthCheck::default();
    assert_eq!((h.interval_secs, h.check_type.as_str(), h.path.as_str()), (2, "tcp", "/health"));
    assert!(Networking::default().tcp_nodelay);
}

#[test]
fn pool_lists_every_configured_server_healthy() {
    let pool = BackendPool::init(&config(
        "no_limiting",
        100,
        vec![("127.0.0.1", vec![8080, 8081]), ("127.0.0.2", vec![9090])],
    ));
    let listed: Vec<(String, u16, bool)> =
        pool.backend_list().iter().map(|b| (b.host.clone(), b.port, b.health)).collect();
    assert_eq!(
        listed,
        vec![
            ("127.0.0.1".to_string(), 8080, true),
            ("127.0.0.1".to_string(), 8081, true),
            ("127.0.0.2".to_string(), 9090, true),
        ]
    );
}

#[test]
fn next_backend_goes_round_and_skips_marked_ones() {
    let mut pool = BackendPool::init(&config(
        "no_limiting",
        100,
        vec![("127.0.0.1", vec![8080, 8081, 8082])],
    ));
    assert_eq!(pool.next_backend(), Some(0));
    assert_eq!(pool.next_backend(), Some(1));
    pool.mark_unhealthy("127.0.0.1", 8082);
    // backends 0 and 1 take turns; the counter stands at 2
    assert_eq!(pool.next_backend(), Some(0));
    assert_eq!(pool.next_backend(), Some(1));
    assert_eq!(pool.next_backend(), Some(0));
    pool.mark_unhealthy("127.0.0.1", 8080);
    pool.mark_unhealthy("127.0.0.1", 8081);
    assert_eq!(pool.next_backend(), None);
}

#[test]
fn mark_unhealthy_marks_only_the_first_match() {
    let mut pool = BackendPool::init(&config(
        "no_limiting",
        100,
        vec![("10.0.0.1", vec![80, 80]), ("10.0.0.2", vec![80])],
    ));
    pool.mark_unhealthy("10.0.0.1", 80);
    let health: Vec<bool> = pool.backend_list().iter().map(|b| b.health).collect();
    assert_eq!(health, vec![false, true, true]);
    pool.mark_unhealthy("10.0.0.9", 80);
    let health: Vec<bool> = pool.backend_list().iter().map(|b| b.health).collect();
    assert_eq!(health, vec![false, true, true]);
}

#[test]
fn health_targets_and_recovery() {
    let mut pool = BackendPool::init(&config(
        "no_limiting",
        100,
        vec![("127.0.0.1", vec![8080, 8081]), ("127.0.0.2", vec![9090])],
    ));
    assert!(pool.unhealthy_targets().is_empty());
    pool.mark_unhealthy("127.0.0.2", 9090);
    pool.mark_unhealthy("127.0.0.1", 8080);
    assert_eq!(
        pool.unhealthy_targets(),
        vec![(0, "127.0.0.1:8080".to_string()), (2, "127.0.0.2:9090".to_string())]
    );
    assert!(pool.mark_healthy(2));
    assert!(!pool.mark_healthy(2));
    assert!(!pool.mark_healthy(1));
    assert!(!pool.mark_healthy(7));
    assert_eq!(pool.unhealthy_targets(), vec![(0, "127.0.0.1:8080".to_string())]);
}

#[test]
fn connections_are_routed_refused_or_rejected() {
    let mut pool = BackendPool::init(&config("basic_counter", 2, vec![("127.0.0.1", vec![8080, 8081])]));
    assert!(matches!(pool.route_connection("10.0.0.1"), Route::Forward(0)));
    assert!(matches!(pool.route_connection("10.0.0.1"), Route::Forward(1)));
    assert!(matches!(pool.route_connection("10.0.0.1"), Route::TooManyRequests));
    // the refused request did not move the round robin on
    pool.mark_unhealthy("127.0.0.1", 8080);
    pool.mark_unhealthy("127.0.0.1", 8081);
    assert!(matches!(pool.route_connection("10.0.0.2"), Route::ServiceUnavailable));
    pool.mark_healthy(1);
    assert!(matches!(pool.route_connection("10.0.0.2"), Route::Forward(1)));
    assert!(matches!(pool.route_connection("10.0.0.2"), Route::TooManyRequests));
}

#[test]
fn check_rate_limit_uses_the_configured_rate() {
    let mut pool = BackendPool::init(&config("moka_counter", 1, vec![("127.0.0.1", vec![8080])]));
    assert!(pool.check_rate_limit("10.9.9.9"));
    assert!(!pool.check_rate_limit("10.9.9.9"));
    let mut open = BackendPool::init(&config("no_limiting", 0, vec![("127.0.0.1", vec![8080])]));
    assert!(open.check_rate_limit("10.9.9.9"));
    assert!(open.check_rate_limit("10.9.9.9"));
}

#[test]
fn empty_pool_has_no_backend() {
    let mut pool = BackendPool::init(&config("no_limiting", 1, vec![]));
    assert_eq!(pool.next_backend(), None);
    assert!(matches!(pool.route_connection("10.0.0.1"), Route::ServiceUnavailable));
}

#[test]
fn rate_limiter_readiness_follows_the_window() {
    let pool = BackendPool::init(&config("moka_counter", 1, vec![("127.0.0.1", vec![8080])]));
    assert!(pool.rate_limiter_ready());
    let mut cfg = config("moka_counter", 1, vec![("127.0.0.1", vec![8080])]);
    cfg.limiting.window_secs = 0;
    assert!(!BackendPool::init(&cfg).rate_limiter_ready());
    cfg.limiting.strategy = "basic_counter".to_string();
    assert!(BackendPool::init(&cfg).rate_limiter_ready());
}

#[test]
fn hostnames_are_kept_as_configured() {
    let pool = BackendPool::init(&config("no_limiting", 1, vec![("localhost", vec![3001])]));
    assert_eq!(pool.backend_list()[0].host, "localhost");
    assert_eq!(pool.unhealthy_targets(), vec![]);
}
