use edge_cache::config::ServerConfig;
use edge_cache::load_balancer::health_check::{health_request, is_healthy_response};
use edge_cache::load_balancer::round_robin;
use edge_cache::load_balancer::random;
use edge_cache::load_balancer::strategy::{
    get_healthy_server, get_load_balancer_strategy, get_server_weights, Context, LoadBalancer,
    RoundRobin, Strategy, WeightedRoundRobin,
};

fn server() -> ServerConfig {
    ServerConfig {
        listen: 8080,
        cache: None,
        root: None,
        proxy: None,
        proxy_health: None,
        strategy: None,
        weights: None,
    }
}

#[test]
fn round_robin_wraps() {
    assert_eq!(round_robin::get_next_server(3, 0), 1);
    assert_eq!(round_robin::get_next_server(3, 1), 2);
    assert_eq!(round_robin::get_next_server(3, 2), 0);
    assert_eq!(round_robin::get_next_server(1, 0), 0);
}

#[test]
fn random_pick_is_in_range() {
    for _ in 0..32 {
        assert!(random::get_next_server(5, 0) < 5);
    }
    assert_eq!(random::get_next_server(1, 7), 0);
}

#[test]
fn round_robin_strategy_cycles() {
    let mut s = RoundRobin { current: 0 };
    let ctx = Context {
        size: 3,
        weights: vec![1, 1, 1],
    };
    assert_eq!(s.get_next_server(&ctx), 1);
    // the round-robin strategy draws the successor of its stored state
    // without advancing it
    assert_eq!(s.current, 0);
}

#[test]
fn weighted_round_robin_repeats_by_weight() {
    let mut s = WeightedRoundRobin {
        current: 0,
        current_count: 0,
    };
    let ctx = Context {
        size: 2,
        weights: vec![2, 1],
    };
    let draws: Vec<usize> = (0..5).map(|_| s.get_next_server(&ctx)).collect();
    assert_eq!(draws, vec![0, 0, 1, 1, 0]);
}

#[test]
fn strategy_selection_follows_config() {
    let mut c = server();
    c.strategy = Some("round_robin".to_string());
    assert!(matches!(
        get_load_balancer_strategy(&c),
        LoadBalancer::RoundRobin(_)
    ));
    c.strategy = Some("weighted_round_robin".to_string());
    assert!(matches!(
        get_load_balancer_strategy(&c),
        LoadBalancer::WeightedRoundRobin(_)
    ));
    c.strategy = Some("random".to_string());
    assert!(matches!(
        get_load_balancer_strategy(&c),
        LoadBalancer::Random(_)
    ));
    c.strategy = Some("unheard-of".to_string());
    assert!(matches!(
        get_load_balancer_strategy(&c),
        LoadBalancer::Random(_)
    ));
    c.strategy = None;
    assert!(matches!(
        get_load_balancer_strategy(&c),
        LoadBalancer::Random(_)
    ));
}

#[test]
fn server_weights_pad_and_truncate() {
    let mut c = server();
    assert_eq!(get_server_weights(&c, 3), vec![1, 1, 1]);
    c.weights = Some(vec![5, 4]);
    assert_eq!(get_server_weights(&c, 4), vec![5, 4, 1, 1]);
    c.weights = Some(vec![5, 4, 3, 2]);
    assert_eq!(get_server_weights(&c, 2), vec![5, 4]);
    c.weights = Some(vec![7]);
    assert_eq!(get_server_weights(&c, 1), vec![7]);
}

#[test]
fn healthy_server_scan() {
    let ctx = Context {
        size: 3,
        weights: vec![1, 1, 1],
    };
    // the round-robin strategy draws the successor of its fixed state
    let mut rr = RoundRobin { current: 1 };
    let health = vec![false, false, true];
    assert_eq!(get_healthy_server(&mut rr, &ctx, &health), Some(2));
    let none_up = vec![false, false, false];
    assert_eq!(get_healthy_server(&mut rr, &ctx, &none_up), None);
    // the weighted strategy advances, so it reaches the healthy upstream
    let mut w = WeightedRoundRobin {
        current: 0,
        current_count: 0,
    };
    assert_eq!(get_healthy_server(&mut w, &ctx, &health), Some(2));
}

#[test]
fn health_probe_request_and_answer() {
    assert_eq!(
        health_request("127.0.0.1:3001", "/health"),
        "GET /health HTTP/1.1\r\nHost: 127.0.0.1:3001\r\nConnection: close\r\n\r\n"
    );
    assert!(is_healthy_response("HTTP/1.1 200 OK\r\n\r\n"));
    assert!(is_healthy_response("HTTP/1.0 200 OK\r\n\r\n"));
    assert!(!is_healthy_response("HTTP/1.1 404 NOT FOUND\r\n\r\n"));
    assert!(!is_healthy_response(""));
    assert!(!is_healthy_response("HTTP/1.1 500 Internal Server Error"));
}
