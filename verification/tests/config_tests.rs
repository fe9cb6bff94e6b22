use edge_cache::config::{validate, Config, ConfigError, ProxyType, ServerConfig};

fn server() -> ServerConfig {
    ServerConfig {
        listen: 8080,
        cache: None,
        root: None,
        proxy: None,
        proxy_health: None,
        strategy: None,
        weights: None,
    }
}

#[test]
fn valid_config_passes() {
    let mut proxied = server();
    proxied.proxy = Some(ProxyType::Multiple(vec![
        "127.0.0.1:3001".to_string(),
        "127.0.0.1:3002".to_string(),
    ]));
    proxied.weights = Some(vec![2, 1]);
    let config = Config {
        http: vec![server(), proxied],
    };
    assert_eq!(validate(&config), Ok(()));
}

#[test]
fn weights_without_proxy_pass() {
    let mut s = server();
    s.weights = Some(vec![0, 0]);
    let config = Config { http: vec![s] };
    assert_eq!(validate(&config), Ok(()));
}

#[test]
fn weight_length_mismatch_is_rejected() {
    let mut s = server();
    s.proxy = Some(ProxyType::Multiple(vec!["a".to_string()]));
    s.weights = Some(vec![1, 2]);
    let config = Config { http: vec![s] };
    assert_eq!(validate(&config), Err(ConfigError::WeightsLengthMismatch));
}

#[test]
fn zero_weight_is_rejected() {
    let mut s = server();
    s.proxy = Some(ProxyType::Multiple(vec!["a".to_string(), "b".to_string()]));
    s.weights = Some(vec![1, 0]);
    let config = Config { http: vec![s] };
    assert_eq!(validate(&config), Err(ConfigError::ZeroWeight));
}

#[test]
fn weights_on_single_proxy_are_rejected() {
    let mut s = server();
    s.proxy = Some(ProxyType::Single("a".to_string()));
    s.weights = Some(vec![1]);
    let config = Config { http: vec![s] };
    assert_eq!(validate(&config), Err(ConfigError::WeightsOnSingleProxy));
}

#[test]
fn first_listener_complaint_wins() {
    let mut zero = server();
    zero.proxy = Some(ProxyType::Multiple(vec!["a".to_string()]));
    zero.weights = Some(vec![0]);
    let mut single = server();
    single.proxy = Some(ProxyType::Single("b".to_string()));
    single.weights = Some(vec![1]);
    let config = Config {
        http: vec![zero, single],
    };
    assert_eq!(validate(&config), Err(ConfigError::ZeroWeight));
}
