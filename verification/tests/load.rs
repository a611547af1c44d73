use ciqadamq::perf::{
    chart_path, connect_failed, container_id, csv_path, distinct_levels, expected_deliveries,
    find_stats, largest, latency, load_resource_settings, load_settings, message_topic, name,
    parse_mem, parse_nodes, parse_stats, payload, publish_interval, publisher_request, subscriber,
    topic, user_ready, user_request, user_url, users_for, users_url, ConnectStep, LoadTest,
    MemUnit, PerfEnv, Progress, ResEnv, RoundStep, SettingError, Workload, PASSWORD,
};
use ciqadamq::text::hexadecimal_of;

const SECOND: u128 = 1_000_000_000;

fn env() -> PerfEnv {
    PerfEnv {
        nodes: None,
        api: None,
        token: None,
        subs: None,
        msgs: None,
        devices_per_user: None,
        payload: None,
        out: None,
    }
}

fn res_env() -> ResEnv {
    ResEnv {
        nodes: None,
        api: None,
        token: None,
        subs: None,
        devices_per_user: None,
        services: None,
        settle_secs: None,
        samples: None,
        msg_rate: None,
        payload: None,
        out: None,
    }
}

#[test]
fn throughput_settings_have_defaults() {
    let s = load_settings(env()).unwrap();
    let nodes: Vec<(String, u16)> = s.nodes.into_iter().map(|n| (n.host, n.port)).collect();
    assert_eq!(
        nodes,
        vec![
            ("127.0.0.1".to_string(), 1883),
            ("127.0.0.1".to_string(), 1884),
            ("127.0.0.1".to_string(), 1885)
        ]
    );
    assert_eq!(s.sub_counts, vec![100, 500, 1000, 2500, 5000]);
    assert_eq!(s.messages, 10000);
    assert_eq!(s.devices_per_user, 1);
    assert_eq!(s.payload_size, 256);
    assert_eq!(s.api, "http://127.0.0.1:8090");
    assert_eq!(s.token, "change-me");
    assert_eq!(s.out, "perf-results.svg");
}

#[test]
fn resource_settings_have_defaults() {
    let s = load_resource_settings(res_env()).unwrap();
    assert_eq!(s.nodes.len(), 3);
    assert_eq!(s.sub_levels, vec![0, 1000, 2500, 5000, 7500, 10000]);
    assert_eq!(s.services, vec!["node1", "node2", "node3"]);
    assert_eq!((s.settle_secs, s.samples), (10, 3));
    assert_eq!((s.msg_rate, s.payload_size), (10, 64));
    assert_eq!(s.out, "perf-resources.svg");
}

#[test]
fn settings_are_read_and_refused() {
    let mut e = res_env();
    e.subs = Some("5, 1,5 ,3".to_string());
    e.services = Some(" a ,b".to_string());
    let s = load_resource_settings(e).unwrap();
    assert_eq!(s.sub_levels, vec![1, 3, 5]);
    assert_eq!(s.services, vec!["a", "b"]);
    let mut e = env();
    e.subs = Some("5,x".to_string());
    assert_eq!(load_settings(e).err(), Some(SettingError::BadNumber));
    let mut e = env();
    e.msgs = Some(" 5".to_string());
    assert_eq!(load_settings(e).err(), Some(SettingError::BadNumber));
    let mut e = env();
    e.nodes = Some("a:1,b".to_string());
    assert_eq!(load_settings(e).err(), Some(SettingError::BadNode));
    assert_eq!(parse_nodes("a:99999").err(), Some(SettingError::BadPort));
    let n = parse_nodes(" ::1:5 ").unwrap();
    assert_eq!((n[0].host.as_str(), n[0].port), ("::1", 5));
}

#[test]
fn levels_are_sorted_and_distinct() {
    assert_eq!(distinct_levels(&vec![3, 1, 2, 3, 1]), vec![1, 2, 3]);
    assert_eq!(distinct_levels(&Vec::new()), Vec::<usize>::new());
    assert_eq!(largest(&vec![3, 9, 2]), 9);
    assert_eq!(largest(&Vec::new()), 0);
}

#[test]
fn users_are_rounded_up() {
    assert_eq!(users_for(0, 3), 0);
    assert_eq!(users_for(1, 3), 1);
    assert_eq!(users_for(3, 3), 1);
    assert_eq!(users_for(4, 3), 2);
}

#[test]
fn subscribers_go_round_the_nodes() {
    let s = subscriber("perf-", "run", 7, 2, 3);
    assert_eq!(s.node, 1);
    assert_eq!(s.client_id, "perf-run-7");
    assert_eq!(s.username, "tok-run-3");
    assert_eq!(s.topic, "chat/uid-run-3/m/all");
    assert_eq!(name("uid-", "r", 12), "uid-r-12");
    assert_eq!(topic("r", 0), "chat/uid-r-0/m/all");
    assert_eq!(message_topic("r", 7, 5), "chat/uid-r-2/m/all");
    assert_eq!(expected_deliveries(10000, 3), 30000);
    assert_eq!(hexadecimal_of(0x19a2b), "19a2b");
    assert_eq!(hexadecimal_of(0), "0");
}

#[test]
fn latency_is_read_out_of_the_message() {
    assert_eq!(payload(1500, 3), "1500|xxx");
    assert_eq!(latency(payload(1500, 3).as_bytes(), 2000), Some(500));
    assert_eq!(latency(b"1500", 2000), Some(500));
    assert_eq!(latency(b"2000|x", 1500), Some(0));
    assert_eq!(latency(b"x|1500", 2000), None);
    assert_eq!(latency(&[0xff, b'|'], 2000), None);
}

#[test]
fn connecting_is_retried_with_growing_pauses() {
    assert_eq!(connect_failed(1), ConnectStep::Retry { wait_ms: 500, report: false });
    assert_eq!(connect_failed(3), ConnectStep::Retry { wait_ms: 1500, report: true });
    assert_eq!(connect_failed(7), ConnectStep::Retry { wait_ms: 3500, report: true });
    assert_eq!(connect_failed(8), ConnectStep::GiveUp);
    assert!(user_ready(201) && user_ready(409) && !user_ready(200) && !user_ready(500));
}

#[test]
fn rounds_end_complete_or_stalled() {
    let mut p = Progress::new(10, 0);
    assert_eq!(p.check(3, SECOND), RoundStep::Wait);
    assert_eq!(p.check(3, 16 * SECOND), RoundStep::Wait);
    assert_eq!(p.check(3, 16 * SECOND + 1), RoundStep::Stalled);
    assert_eq!(p.check(4, 170 * SECOND), RoundStep::Wait);
    assert_eq!(p.check(5, 180 * SECOND), RoundStep::Wait);
    assert_eq!(p.check(6, 180 * SECOND + 1), RoundStep::Stalled);
    assert_eq!(p.check(10, 500 * SECOND), RoundStep::Complete);
}

#[test]
fn containers_are_found() {
    assert_eq!(container_id("abc123\ndef\n"), Some("abc123".to_string()));
    assert_eq!(container_id(" abc \r\n"), Some("abc".to_string()));
    assert_eq!(container_id(""), None);
    assert_eq!(container_id("\nabc"), None);
}

#[test]
fn readings_are_parsed() {
    let out = "abc;1.50%;12.5MiB / 1GiB\nnoise\n def ; 3%% ; 2GiB\n;;\n";
    let rows = parse_stats(out);
    assert_eq!(rows.len(), 3);
    assert_eq!((rows[0].id.as_str(), rows[0].cpu.as_str(), rows[0].mem.as_str()), ("abc", "1.50", "12.5MiB"));
    assert_eq!((rows[1].id.as_str(), rows[1].cpu.as_str(), rows[1].mem.as_str()), ("def", "3", "2GiB"));
    assert_eq!((rows[2].id.as_str(), rows[2].cpu.as_str(), rows[2].mem.as_str()), ("", "", ""));
    let rows = parse_stats("abc;1%;1B\ndef;2%;2B\nabc;3%;3B");
    assert_eq!(find_stats(&rows, "abc123"), Some(2));
    assert_eq!(find_stats(&rows, "de"), Some(1));
    assert_eq!(find_stats(&rows, "x"), None);
}

#[test]
fn memory_has_a_unit() {
    assert_eq!(parse_mem("1.5TiB"), Some(("1.5".to_string(), MemUnit::TiB)));
    assert_eq!(parse_mem("1.5 GiB"), Some(("1.5".to_string(), MemUnit::GiB)));
    assert_eq!(parse_mem("2MiB"), Some(("2".to_string(), MemUnit::MiB)));
    assert_eq!(parse_mem("2KiB"), Some(("2".to_string(), MemUnit::KiB)));
    assert_eq!(parse_mem("512B"), Some(("512".to_string(), MemUnit::Byte)));
    assert_eq!(parse_mem("512"), None);
    assert_eq!(parse_mem(""), None);
}

#[test]
fn files_are_named_by_the_chart() {
    assert_eq!(csv_path("perf-results.svg"), "perf-results.csv");
    assert_eq!(csv_path("a.svg.svg"), "a.csv.csv");
    assert_eq!(csv_path("plain"), "plain");
    assert_eq!(chart_path("perf-resources.svg", Workload::Idle), "perf-resources.svg");
    assert_eq!(chart_path("perf-resources.svg", Workload::QosOne), "perf-resources-qos1.svg");
    assert_eq!(chart_path("perf-resources.svg", Workload::QosTwo), "perf-resources-qos2.svg");
    assert_eq!(publish_interval(10), Some(100_000));
    assert_eq!(publish_interval(0), None);
}

#[test]
fn users_of_a_run_are_asked_for() {
    let u = user_request(LoadTest::Throughput, "18f", 12);
    assert_eq!((u.username.as_str(), u.userid.as_str()), ("tok-18f-12", "uid-18f-12"));
    assert_eq!((u.password.as_str(), PASSWORD), ("perf-pass", "perf-pass"));
    assert!(!u.superuser && !u.admin);
    let u = user_request(LoadTest::Resources, "18f", 12);
    assert!(u.superuser && !u.admin);
    assert_eq!(u.username, subscriber("perfres-", "18f", 12, 1, 3).username);
    let p = publisher_request("18f");
    assert_eq!((p.username.as_str(), p.userid.as_str()), ("tok-pub-18f", "svc-perf"));
    assert_eq!(p.password, "perf-pass");
    assert!(p.superuser && !p.admin);
    assert_eq!(users_url("http://n1:8090"), "http://n1:8090/api/v1/users");
    assert_eq!(user_url("http://n1:8090", "tok-1"), "http://n1:8090/api/v1/users/tok-1");
}

#[test]
fn users_of_a_run_have_proper_names() {
    let run_id = hexadecimal_of(u64::MAX);
    let u = user_request(LoadTest::Throughput, &run_id, u64::MAX);
    assert!(ciqadamq::api::valid_username(&u.username));
    assert!(ciqadamq::api::valid_segment(&u.userid));
    assert_eq!(u.userid.len(), 41);
}
