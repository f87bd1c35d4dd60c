use rag_gate::binary64::Binary64;
use rag_gate::config::{config_path, EnvOverrides, TomlConfig, TomlProxy, TomlThresholds};
use rag_gate::{GatingThresholds, ProxyConfig};

fn b(x: f64) -> Binary64 {
    Binary64::from_bits(x.to_bits())
}

fn f(x: Binary64) -> f64 {
    f64::from_bits(x.to_bits())
}

fn no_env() -> EnvOverrides {
    EnvOverrides {
        listen_addr: None,
        upstream_url: None,
        answer_alpha: None,
        abstain_beta: None,
        min_tokens: None,
        inject_logprobs: None,
        max_body_bytes: None,
        connect_timeout_secs: None,
    }
}

fn empty_file() -> TomlConfig {
    TomlConfig {
        proxy: TomlProxy {
            listen_addr: None,
            upstream_url: None,
            inject_logprobs: None,
            max_body_bytes: None,
            connect_timeout_secs: None,
        },
        thresholds: None,
        inject_logprobs: None,
        max_body_bytes: None,
        connect_timeout_secs: None,
    }
}

#[test]
fn defaults() {
    let config = ProxyConfig::load(None, no_env());
    assert_eq!(config.listen_addr, "0.0.0.0:8080");
    assert_eq!(config.upstream_url, "https://api.openai.com");
    assert_eq!(f(config.thresholds.answer_alpha), -0.5);
    assert_eq!(f(config.thresholds.abstain_beta), -1.2);
    assert_eq!(config.thresholds.min_tokens, 4);
    assert!(config.thresholds.degenerate_guard);
    assert!(config.inject_logprobs);
    assert_eq!(config.max_body_bytes, 2097152);
    assert_eq!(config.connect_timeout_secs, 10);
    let thresholds = GatingThresholds::default();
    assert_eq!(f(thresholds.abstain_beta), -1.2);
    let empty = ProxyConfig::load(Some(empty_file()), no_env());
    assert_eq!(empty.listen_addr, config.listen_addr);
    assert_eq!(empty.max_body_bytes, config.max_body_bytes);
}

#[test]
fn file_settings_in_either_place() {
    let mut file = empty_file();
    file.proxy.listen_addr = Some("1.2.3.4:5".to_string());
    file.proxy.upstream_url = Some("http://u".to_string());
    file.thresholds = Some(TomlThresholds {
        answer_alpha: b(-0.25),
        abstain_beta: b(-2.0),
        min_tokens: None,
        degenerate_guard: Some(false),
    });
    file.inject_logprobs = Some(false);
    file.proxy.max_body_bytes = Some(7);
    file.max_body_bytes = Some(8);
    file.connect_timeout_secs = Some(9);
    let config = ProxyConfig::load(Some(file), no_env());
    assert_eq!(config.listen_addr, "1.2.3.4:5");
    assert_eq!(config.upstream_url, "http://u");
    assert_eq!(f(config.thresholds.answer_alpha), -0.25);
    assert_eq!(f(config.thresholds.abstain_beta), -2.0);
    assert_eq!(config.thresholds.min_tokens, 4);
    assert!(!config.thresholds.degenerate_guard);
    assert!(!config.inject_logprobs);
    assert_eq!(config.max_body_bytes, 7);
    assert_eq!(config.connect_timeout_secs, 9);
}

#[test]
fn environment_wins() {
    let mut file = empty_file();
    file.proxy.listen_addr = Some("file".to_string());
    file.inject_logprobs = Some(true);
    file.max_body_bytes = Some(1);
    let mut env = no_env();
    env.listen_addr = Some("env".to_string());
    env.upstream_url = Some("http://env".to_string());
    env.answer_alpha = Some(b(-0.1));
    env.abstain_beta = Some(b(-0.2));
    env.min_tokens = Some("12".to_string());
    env.inject_logprobs = Some("false".to_string());
    env.max_body_bytes = Some("+99".to_string());
    env.connect_timeout_secs = Some("0".to_string());
    let config = ProxyConfig::load(Some(file), env);
    assert_eq!(config.listen_addr, "env");
    assert_eq!(config.upstream_url, "http://env");
    assert_eq!(f(config.thresholds.answer_alpha), -0.1);
    assert_eq!(f(config.thresholds.abstain_beta), -0.2);
    assert_eq!(config.thresholds.min_tokens, 12);
    assert!(!config.inject_logprobs);
    assert_eq!(config.max_body_bytes, 99);
    assert_eq!(config.connect_timeout_secs, 0);
}

#[test]
fn variables_that_denote_nothing_change_nothing() {
    let mut env = no_env();
    env.min_tokens = Some("-1".to_string());
    env.inject_logprobs = Some("no".to_string());
    env.max_body_bytes = Some("1e6".to_string());
    env.connect_timeout_secs = Some("".to_string());
    let config = ProxyConfig::load(None, env);
    assert_eq!(config.thresholds.min_tokens, 4);
    assert!(config.inject_logprobs);
    assert_eq!(config.max_body_bytes, 2097152);
    assert_eq!(config.connect_timeout_secs, 10);
}

#[test]
fn path_of_the_file() {
    assert_eq!(config_path(None), "rag-gate.toml");
    assert_eq!(config_path(Some("other.toml".to_string())), "other.toml");
}
