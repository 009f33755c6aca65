use oxygn::backend::Backend;
use oxygn::routing::{init, RoundRobin, RoutingStrategy};

fn backend(port: u16, health: bool) -> Backend {
    Backend { host: String::from("127.0.0.1"), port, health }
}

#[test]
fn round_robin_cycles_through_healthy_backends() {
    let pool = vec![backend(8080, true), backend(8081, true), backend(8082, true)];
    let mut rr = RoundRobin::new();
    let picks: Vec<Option<usize>> = (0..7).map(|_| rr.next(&pool)).collect();
    assert_eq!(picks, vec![Some(0), Some(1), Some(2), Some(0), Some(1), Some(2), Some(0)]);
}

#[test]
fn round_robin_skips_unhealthy_backends() {
    let pool = vec![backend(8080, true), backend(8081, false), backend(8082, true)];
    let mut rr = RoundRobin::new();
    let picks: Vec<Option<usize>> = (0..6).map(|_| rr.next(&pool)).collect();
    // the healthy backends 0 and 2 take turns, three times each
    assert_eq!(picks, vec![Some(0), Some(2), Some(0), Some(2), Some(0), Some(2)]);
}

#[test]
fn round_robin_spreads_evenly_over_the_healthy_backends() {
    let pool = vec![
        backend(1, false),
        backend(2, true),
        backend(3, true),
        backend(4, false),
        backend(5, true),
    ];
    let mut rr = RoundRobin::new();
    let mut taken = vec![0; 5];
    for _ in 0..30 {
        taken[rr.next(&pool).unwrap()] += 1;
    }
    assert_eq!(taken, vec![0, 10, 10, 0, 10]);
}

#[test]
fn round_robin_finds_nothing_when_all_are_down() {
    let pool = vec![backend(8080, false), backend(8081, false)];
    let mut rr = RoundRobin::new();
    assert_eq!(rr.next(&pool), None);
    assert_eq!(rr.next(&pool), None);
}

#[test]
fn round_robin_on_empty_pool_keeps_its_counter() {
    let empty: Vec<Backend> = Vec::new();
    let pool = vec![backend(8080, true), backend(8081, true)];
    let mut rr = RoundRobin::new();
    assert_eq!(rr.next(&empty), None);
    assert_eq!(rr.next(&empty), None);
    // the counter did not move: the first real pick is index 0
    assert_eq!(rr.next(&pool), Some(0));
    assert_eq!(rr.next(&pool), Some(1));
}

#[test]
fn unknown_strategy_name_falls_back_to_round_robin() {
    let pool = vec![backend(1, true), backend(2, true)];
    let mut rr = init("least_connections");
    assert_eq!(rr.next(&pool), Some(0));
    assert_eq!(rr.next(&pool), Some(1));
    let mut rr2 = init("round_robin");
    assert_eq!(rr2.next(&pool), Some(0));
}
