use ciqadamq::cluster::{
    cluster_raft_plugin_config, join_failed, peer_urls, toml_string_array, JoinStep,
};
use ciqadamq::config::{
    AclConfig, ApiConfig, ClusterConfig, Config, ConfigError, DbConfig, FanoutConfig, MqttConfig,
    Overrides,
};
use ciqadamq::startup::{
    cache_lifetime, env_u32, flag, flush_interval, hash_concurrency, hash_costs, initial_pepper,
    initial_token, max_bytes, max_inflight, max_msgs, number_or, positive_or, raft_workers,
    random_token, token_of, HashCosts, SWEEP_SECS,
};
use ciqadamq::vault::Secret;

fn strings(items: &[&str]) -> Vec<String> {
    items.iter().map(|s| s.to_string()).collect()
}

fn no_overrides() -> Overrides {
    Overrides { api_token: None, db_url: None, node_id: None }
}

#[test]
fn defaults_are_those_of_a_single_node() {
    let m = MqttConfig::default();
    assert_eq!((m.tcp_addr.host.as_str(), m.tcp_addr.port), ("0.0.0.0", 1883));
    assert_eq!((m.ws_addr.host.as_str(), m.ws_addr.port), ("0.0.0.0", 8083));
    assert_eq!(m.message_expiry_secs, 1200);
    assert_eq!(m.max_mqueue_len, 1000);
    assert_eq!(m.max_inflight, 65535);
    assert!(!m.busy_check && !m.persist_messages);
    let a = ApiConfig::default();
    assert_eq!((a.addr.host.as_str(), a.addr.port), ("0.0.0.0", 8090));
    assert!(a.token.is_none());
    assert_eq!(DbConfig::default().url, "redb://data/users.redb");
    let f = FanoutConfig::default();
    assert!(!f.auto_subscribe);
    assert_eq!(f.qos, 1);
    let acl = AclConfig::default();
    assert!(acl.enabled);
    assert_eq!(acl.publish_topics, vec!["chatsync", "updates"]);
    assert_eq!(acl.fanout_prefixes, vec!["fanout"]);
    assert_eq!(acl.admin_prefixes, vec!["adminfanout"]);
    let c = ClusterConfig::default();
    assert!(!c.enabled);
    assert_eq!((c.node_id, c.leader_id), (1, 1));
    assert_eq!((c.grpc_laddr.host.as_str(), c.grpc_laddr.port), ("0.0.0.0", 5363));
    assert_eq!(c.raft_laddr, "0.0.0.0:6003");
    assert!(c.node_grpc_addrs.is_empty() && c.raft_peer_addrs.is_empty());
    assert_eq!((c.join_max_retries, c.join_retry_secs), (10, 5));
}

#[test]
fn environment_overrides_the_file() {
    let mut file = Config::default();
    file.api.token = Some("from-file".to_string());
    file.mqtt.max_mqueue_len = 7;
    let kept = Config::load(Some(file.clone()), no_overrides()).unwrap();
    assert_eq!(kept.api.token.as_deref(), Some("from-file"));
    assert_eq!(kept.cluster.node_id, 1);
    let env = Overrides {
        api_token: Some("from-env".to_string()),
        db_url: Some("redb://x".to_string()),
        node_id: Some("3".to_string()),
    };
    let c = Config::load(Some(file), env).unwrap();
    assert_eq!(c.api.token.as_deref(), Some("from-env"));
    assert_eq!(c.db.url, "redb://x");
    assert_eq!(c.cluster.node_id, 3);
    assert_eq!(c.mqtt.max_mqueue_len, 7);
}

#[test]
fn missing_file_means_defaults() {
    let c = Config::load(None, no_overrides()).unwrap();
    assert_eq!(c.db.url, "redb://data/users.redb");
    assert!(c.api.token.is_none());
}

#[test]
fn node_id_has_to_be_a_number() {
    for bad in ["", "x", "-1", "1.5", "18446744073709551616"] {
        let env = Overrides { api_token: None, db_url: None, node_id: Some(bad.to_string()) };
        assert_eq!(Config::load(None, env).err(), Some(ConfigError::BadNodeId));
    }
}

#[test]
fn peers_are_the_other_nodes() {
    let addrs = strings(&["1@node1:5363", "2@node2:5363", "3@10.0.0.3", "x@node4:1", "node5:1", "+1@me"]);
    assert_eq!(peer_urls(&addrs, 1, 8090), vec!["http://node2:8090", "http://10.0.0.3:8090"]);
    assert_eq!(peer_urls(&strings(&["7@a@b:1:2"]), 1, 80), vec!["http://a@b:80"]);
    assert!(peer_urls(&Vec::new(), 1, 8090).is_empty());
}

#[test]
fn arrays_are_quoted() {
    assert_eq!(toml_string_array(&Vec::new()), "[]");
    assert_eq!(toml_string_array(&strings(&["a"])), "[\"a\"]");
    assert_eq!(toml_string_array(&strings(&["a", "b"])), "[\"a\", \"b\"]");
}

#[test]
fn plugin_is_configured_in_toml() {
    let mut c = ClusterConfig::default();
    c.node_grpc_addrs = strings(&["1@n1:5363", "2@n2:5363"]);
    c.raft_peer_addrs = strings(&["1@n1:6003"]);
    c.leader_id = 2;
    let expected = r#"
worker_threads = 6
message_type = 198
node_grpc_addrs = ["1@n1:5363", "2@n2:5363"]
raft_peer_addrs = ["1@n1:6003"]
laddr = "0.0.0.0:6003"
leader_id = 2
verify_addr = true
try_lock_timeout = "3s"
health.exit_on_node_unavailable = false
raft.check_quorum = true
raft.pre_vote = true
raft.election_tick = 30
raft.heartbeat_tick = 3
raft.proposal_batch_size = 250
raft.proposal_batch_timeout = "20ms"
raft.grpc_breaker_threshold = 50
raft.grpc_breaker_retry_interval = "500ms"
"#;
    assert_eq!(cluster_raft_plugin_config(&c, 6), expected);
}

#[test]
fn joining_is_retried() {
    let mut c = ClusterConfig::default();
    c.join_max_retries = 2;
    assert_eq!(join_failed(0, &c), JoinStep::Retry { attempt: 1, wait_secs: 5 });
    assert_eq!(join_failed(1, &c), JoinStep::Retry { attempt: 2, wait_secs: 5 });
    assert_eq!(join_failed(2, &c), JoinStep::GiveUp);
}

#[test]
fn numbers_fall_back_to_defaults() {
    assert_eq!(number_or(None, u64::MAX, 300), 300);
    assert_eq!(number_or(Some("60"), u64::MAX, 300), 60);
    assert_eq!(number_or(Some("+60"), u64::MAX, 300), 60);
    assert_eq!(number_or(Some("0"), u64::MAX, 300), 0);
    assert_eq!(number_or(Some(" 60"), u64::MAX, 300), 300);
    assert_eq!(number_or(Some("-1"), u64::MAX, 300), 300);
    assert_eq!(number_or(Some("18446744073709551616"), u64::MAX, 300), 300);
    assert_eq!(positive_or(Some("0"), u64::MAX, 6), 6);
    assert_eq!(positive_or(Some("8"), u64::MAX, 6), 8);
    assert_eq!(positive_or(None, u64::MAX, 6), 6);
    assert_eq!(env_u32(Some("4294967295"), 1), 4294967295);
    assert_eq!(env_u32(Some("4294967296"), 9216), 9216);
}

#[test]
fn flags_are_one_or_true() {
    for on in ["1", "true", "TRUE", "tRuE"] {
        assert!(flag(Some(on)));
    }
    for off in ["", "0", "yes", "true ", "11", "truth"] {
        assert!(!flag(Some(off)));
    }
    assert!(!flag(None));
}

#[test]
fn zero_inflight_is_no_limit() {
    assert_eq!(max_inflight(0), 65535);
    assert_eq!(max_inflight(10), 10);
}

#[test]
fn tokens_are_random_and_hexadecimal() {
    let mut bytes = [0u8; 24];
    bytes[0] = 0xab;
    bytes[23] = 0x0f;
    let t = token_of(&bytes);
    assert!(t.starts_with("ab00") && t.ends_with("000f"));
    let a = random_token();
    assert_eq!(a.len(), 48);
    assert!(a.chars().all(|c| c.is_ascii_digit() || ('a'..='f').contains(&c)));
    assert_ne!(a, random_token());
    assert_ne!(a, "0".repeat(48));
}

#[test]
fn vault_comes_first() {
    let v = || Some(Secret::Value("vaulted".to_string()));
    assert_eq!(initial_token("cfg".to_string(), v()), "vaulted");
    assert_eq!(initial_token("cfg".to_string(), Some(Secret::Missing)), "cfg");
    assert_eq!(initial_token("cfg".to_string(), Some(Secret::Unavailable)), "cfg");
    assert_eq!(initial_token("cfg".to_string(), None), "cfg");
    assert_eq!(initial_pepper(Some("p".to_string()), v()), Some(b"vaulted".to_vec()));
    assert_eq!(initial_pepper(Some("p".to_string()), None), Some(b"p".to_vec()));
    assert_eq!(initial_pepper(Some(String::new()), Some(Secret::Missing)), None);
    assert_eq!(initial_pepper(None, None), None);
}

#[test]
fn hashing_has_default_costs() {
    let usual = HashCosts { m_cost: 9216, t_cost: 2, p_cost: 1 };
    assert_eq!(hash_costs(None, None, None), usual);
    assert_eq!(hash_costs(Some("x"), Some("-1"), Some("4294967296")), usual);
    let asked = HashCosts { m_cost: 16, t_cost: 3, p_cost: 2 };
    assert_eq!(hash_costs(Some("16"), Some("3"), Some("2")), asked);
    assert_eq!(hash_concurrency(None, Some(16)), 16);
    assert_eq!(hash_concurrency(None, None), 4);
    assert_eq!(hash_concurrency(Some("0"), Some(16)), 16);
    assert_eq!(hash_concurrency(Some("3"), Some(16)), 3);
}

#[test]
fn caches_remember_for_five_minutes() {
    assert_eq!(cache_lifetime(None), 300_000_000_000);
    assert_eq!(cache_lifetime(Some("never")), 300_000_000_000);
    assert_eq!(cache_lifetime(Some("0")), 0);
    assert_eq!(cache_lifetime(Some("7")), 7_000_000_000);
    let most = u64::MAX.to_string();
    assert_eq!(cache_lifetime(Some(&most)), u64::MAX as u128 * 1_000_000_000);
    assert_eq!(SWEEP_SECS, 60);
}

#[test]
fn queue_has_default_limits() {
    assert_eq!(max_msgs(None), 0);
    assert_eq!(max_msgs(Some("12")), 12);
    assert_eq!(max_bytes(None), 256 * 1024 * 1024);
    assert_eq!(max_bytes(Some("many")), 256 * 1024 * 1024);
    assert_eq!(max_bytes(Some("0")), 0);
    assert_eq!(flush_interval(None), Some(5));
    assert_eq!(flush_interval(Some("")), Some(5));
    assert_eq!(flush_interval(Some("0")), None);
    assert_eq!(flush_interval(Some("9")), Some(9));
}

#[test]
fn cluster_has_six_workers_by_default() {
    assert_eq!(raft_workers(None), 6);
    assert_eq!(raft_workers(Some("0")), 6);
    assert_eq!(raft_workers(Some("six")), 6);
    assert_eq!(raft_workers(Some("2")), 2);
}
