//! What the first process decides, and what is known of the machine.

use rproxy::config::Config;
use rproxy::health::{
    auth_matches, challenge, ct_eq, metrics_authorized, metrics_text, probe_url, Pulse,
};
use rproxy::config::{Backend, Hspec};
use rproxy::platform::{
    cpu_load, detect, detect_cap_sys_nice, detect_container, env_has_container, log_summary,
    parse_policy, read_cpu_times, read_policy, sqpoll_state, worker_cpu, CpuTimes, HostFacts,
    Policy,
};
use rproxy::shared::{inc_qos_drop, inc_status, SharedMemory};
use rproxy::startup::{
    derive_sni_from_match, effective_limit, env_filter, listen_addresses, max_log_level,
    metrics_port_clash, parse_args, serves_nothing, sni_names, socket_address, split_listen,
    who_ended, workers_note, Args, Ended, WorkersNote,
};

fn texts(v: &[&str]) -> Vec<String> {
    v.iter().map(|s| s.to_string()).collect()
}

#[test]
fn test_derive_sni_from_match() {
    assert_eq!(
        derive_sni_from_match(r"^api\.example\.com$").as_deref(),
        Some("api.example.com")
    );
    assert_eq!(
        derive_sni_from_match("example.com").as_deref(),
        Some("example.com")
    );
    assert_eq!(
        derive_sni_from_match("host-1_a.local").as_deref(),
        Some("host-1_a.local")
    );
    assert_eq!(derive_sni_from_match(r".*\.example\.com"), None);
    assert_eq!(derive_sni_from_match(r"(a|b)\.example\.com"), None);
    assert_eq!(derive_sni_from_match(r"v[0-9]\.example\.com"), None);
    assert_eq!(derive_sni_from_match("^$"), None);
}

#[test]
fn given_names_come_before_the_pattern() {
    assert_eq!(sni_names(&None, "example.com"), texts(&["example.com"]));
    assert_eq!(sni_names(&Some(vec![]), "example.com"), texts(&["example.com"]));
    assert_eq!(
        sni_names(&Some(texts(&["a.com", "b.com"])), ".*"),
        texts(&["a.com", "b.com"])
    );
    assert!(sni_names(&None, ".*").is_empty());
}

#[test]
fn test_parse_policy_on() {
    assert_eq!(parse_policy("x", Some("on")), Policy::On);
    assert_eq!(parse_policy("x", Some("true")), Policy::On);
    assert_eq!(parse_policy("x", Some("1")), Policy::On);
    assert_eq!(parse_policy("x", Some("yes")), Policy::On);
}

#[test]
fn test_parse_policy_off() {
    assert_eq!(parse_policy("x", Some("off")), Policy::Off);
    assert_eq!(parse_policy("x", Some("false")), Policy::Off);
    assert_eq!(parse_policy("x", Some("0")), Policy::Off);
    assert_eq!(parse_policy("x", Some("no")), Policy::Off);
}

#[test]
fn test_parse_policy_auto_and_defaults() {
    assert_eq!(parse_policy("x", Some("auto")), Policy::Auto);
    assert_eq!(parse_policy("x", None), Policy::Auto);
    assert_eq!(parse_policy("x", Some("")), Policy::Auto);
    assert_eq!(parse_policy("x", Some("bogus")), Policy::Auto);
}

#[test]
fn policies_are_trimmed_and_typos_noticed() {
    assert_eq!(read_policy(Some(" ON ")), (Policy::On, true));
    assert_eq!(read_policy(Some("Auto")), (Policy::Auto, true));
    assert_eq!(read_policy(Some("  ")), (Policy::Auto, true));
    assert_eq!(read_policy(Some("onn")), (Policy::Auto, false));
    assert_eq!(read_policy(None), (Policy::Auto, true));
}

#[test]
fn test_env_has_container_parses_key_value() {
    assert!(env_has_container(
        b"PATH=/usr/bin\0container=systemd-nspawn\0TERM=xterm"
    ));
    assert!(env_has_container(b"container=docker\0"));
    assert!(!env_has_container(b"FOO=container=docker\0"));
    assert!(!env_has_container(b"FOO=bar\0container"));
    assert!(env_has_container(b"container=something=else"));
    assert!(!env_has_container(b"container=\0"));
    assert!(!env_has_container(b""));
    assert!(!env_has_container(b"PATH=/bin\0"));
    assert!(env_has_container(b"container=lxc"));
}

#[test]
fn smoke_detect_container() {
    assert!(detect_container(true, None, None));
    assert!(!detect_container(false, None, None));
    assert!(detect_container(false, Some("0::/system.slice/docker-1.scope"), None));
    assert!(detect_container(false, Some("1:name=/kubepods/x"), None));
    assert!(detect_container(false, Some("/lxc/1"), None));
    assert!(!detect_container(false, Some("0::/init.scope"), Some(b"A=1\0")));
    assert!(detect_container(false, Some("0::/"), Some(b"container=oci\0")));
}

#[test]
fn smoke_detect_cap_sys_nice() {
    assert!(detect_cap_sys_nice("Name:\tx\nCapEff:\t0000000000800000\n"));
    assert!(detect_cap_sys_nice("CapEff:\t000001ffffffffff\r\n"));
    assert!(!detect_cap_sys_nice("CapEff:\t00000000007fffff\n"));
    assert!(!detect_cap_sys_nice("CapPrm:\t0000000000800000\n"));
    assert!(detect_cap_sys_nice("CapEff:\tnothing\nCapEff:\t800000\n"));
    assert!(!detect_cap_sys_nice(""));
}

fn config(affinity: Option<&str>, sqpoll: Option<&str>, flags: Option<&str>) -> Config {
    Config {
        allow_ip: None,
        deny_ip: None,
        jwt_secret: None,
        cache: None,
        listen: vec!["127.0.0.1:8080".to_string()],
        tls_listen: vec![],
        listen_iface: None,
        tls_cert: None,
        tls_key: None,
        metrics_listen: None,
        metrics_path: None,
        metrics_token: None,
        metrics_basic_auth: None,
        cache_max_bytes: 104857600,
        domains: vec![],
        def: None,
        set_headers: None,
        client_timeout: 60,
        max_body_size: 2097152,
        max_headers_size: 8192,
        has_qos: false,
        max_active_requests: 10000,
        normalize_path: true,
        reject_encoded_slash: false,
        log_level: 3,
        workers: 4,
        backend_pool_size: 0,
        cpu_affinity: affinity.map(|s| s.to_string()),
        sqpoll: sqpoll.map(|s| s.to_string()),
        sqpoll_idle_ms: None,
        uring_flags: flags.map(|s| s.to_string()),
        worker_lifetime: None,
        worker_max_requests: None,
        worker_drain: 30,
    }
}

fn facts(cpus: usize, oversubscribed: bool) -> HostFacts {
    HostFacts {
        allowed_cpus: (0..cpus).collect(),
        host_cpus: 16,
        is_container: false,
        oversubscribed,
        cap_sys_nice: true,
    }
}

#[test]
fn test_detect_forced_off() {
    let cfg = config(Some("off"), Some("off"), Some("off"));
    let env = detect(&cfg, 4, facts(8, false));
    assert!(!env.affinity_on, "forced off must not pin");
    assert_eq!(env.sqpoll_idle, None, "forced off must disable sqpoll");
    assert!(!env.uring_flags_on, "forced off must disable uring_flags");
}

#[test]
fn test_detect_forced_on() {
    let cfg = config(Some("on"), Some("on"), Some("on"));
    let env = detect(&cfg, 4, facts(2, true));
    assert!(env.affinity_on, "forced on must pin");
    assert_eq!(
        env.sqpoll_idle,
        Some(1000),
        "forced on must set sqpoll idle=1000"
    );
    assert!(env.uring_flags_on, "forced on must enable uring_flags");
}

#[test]
fn test_uring_flags_auto_defaults_off() {
    let cfg = config(None, None, None);
    let env = detect(&cfg, 4, facts(8, false));
    assert!(!env.uring_flags_on, "auto must not enable uring_flags");
    assert_eq!(env.sqpoll_idle, None);
    assert!(env.affinity_on);
    assert!(!detect(&cfg, 8, facts(8, false)).affinity_on);
    assert!(!detect(&cfg, 4, facts(8, true)).affinity_on);
}

#[test]
fn workers_go_round_the_cores() {
    let env = detect(&config(Some("on"), None, None), 4, facts(3, false));
    assert_eq!(worker_cpu(&env, 0), Some(0));
    assert_eq!(worker_cpu(&env, 2), Some(2));
    assert_eq!(worker_cpu(&env, 3), Some(0));
    let off = detect(&config(Some("off"), None, None), 4, facts(3, false));
    assert_eq!(worker_cpu(&off, 0), None);
    let none = detect(&config(Some("on"), None, None), 4, facts(0, false));
    assert_eq!(worker_cpu(&none, 0), None);
}

#[test]
fn summary_is_one_line() {
    let env = detect(&config(Some("on"), Some("on"), None), 4, facts(3, false));
    assert_eq!(
        log_summary(&env),
        "runtime env: cpus_allowed=[0, 1, 2] (n=3), host_cpus=16, container=false, oversubscribed=false, cap_sys_nice=true, workers=4, shm_layout=v1 => affinity=on, sqpoll=on(idle=1000ms), uring_flags=off"
    );
    assert_eq!(sqpoll_state(None), "off");
    assert_eq!(sqpoll_state(Some(5)), "on(idle=5ms)");
}

#[test]
fn load_of_the_machine() {
    let a = read_cpu_times("cpu  10 0 10 70 10 0 0 0 0 0\ncpu0 1 2 3 4 5 6 7\n").unwrap();
    assert_eq!(a, CpuTimes { idle: 80, total: 100 });
    let b = read_cpu_times("cpu 40 0 30 110 20 0 0").unwrap();
    assert_eq!(b, CpuTimes { idle: 130, total: 200 });
    assert_eq!(cpu_load(&a, &b), Some(50));
    assert_eq!(cpu_load(&a, &a), None);
    assert_eq!(cpu_load(&b, &a), None);
    let c = CpuTimes { idle: 200, total: 210 };
    assert_eq!(cpu_load(&a, &c), Some(0));
    assert!(read_cpu_times("cpu0 1 2 3 4 5 6 7 8\n").is_none());
    assert!(read_cpu_times("cpu 1 2 3 4 5 6\n").is_none());
    assert_eq!(
        read_cpu_times("cpu x 1 1 1 1 1 1 1 9").unwrap(),
        CpuTimes { idle: 2, total: 7 }
    );
}

#[test]
fn arguments() {
    let run = |v: &[&str]| parse_args(&texts(v));
    match run(&["rproxy"]) {
        Args::Run { config_path, test_config } => {
            assert_eq!(config_path, "rproxy.yml");
            assert!(!test_config);
        }
        _ => panic!("should run"),
    }
    match run(&["rproxy", "-t", "-c", "x.yml"]) {
        Args::Run { config_path, test_config } => {
            assert_eq!(config_path, "x.yml");
            assert!(test_config);
        }
        _ => panic!("should run"),
    }
    assert!(matches!(run(&["rproxy", "-c"]), Args::MissingPath));
    assert!(matches!(run(&["rproxy", "-x"]), Args::Usage));
    assert!(matches!(run(&["rproxy", "-x", "-c"]), Args::Usage));
}

#[test]
fn levels_have_names() {
    let names = ["off", "error", "warn", "info", "debug", "trace"];
    for (i, n) in names.iter().enumerate() {
        assert_eq!(env_filter(i as u8), *n);
    }
    assert_eq!(env_filter(9), "trace");
    assert_eq!(max_log_level(&config(None, None, None)), 3);
}

#[test]
fn metrics_need_a_port_of_their_own() {
    let listen = texts(&["0.0.0.0:80", "127.0.0.1:9090"]);
    assert_eq!(metrics_port_clash(&Some("[::]:9090".to_string()), &listen), Some(1));
    assert_eq!(metrics_port_clash(&Some("80".to_string()), &listen), Some(0));
    assert_eq!(metrics_port_clash(&Some("0.0.0.0:81".to_string()), &listen), None);
    assert_eq!(metrics_port_clash(&None, &listen), None);
}

#[test]
fn addresses_to_listen_on() {
    assert_eq!(split_listen("10.0.0.1:80"), ("10.0.0.1", "80"));
    assert_eq!(split_listen("80"), ("0.0.0.0", "80"));
    assert_eq!(split_listen("a:b:c"), ("0.0.0.0", "a"));
    assert_eq!(socket_address("10.0.0.1", "80"), "10.0.0.1:80");
    assert_eq!(socket_address("::1", "80"), "[::1]:80");
    assert_eq!(socket_address("[::1]", "80"), "[::1]:80");
    let mut cfg = config(None, None, None);
    cfg.listen = texts(&["a", "b", "a"]);
    cfg.tls_listen = texts(&["c"]);
    let (plain, tls) = listen_addresses(&cfg);
    assert_eq!(plain, texts(&["a", "b"]));
    assert_eq!(tls, texts(&["c"]));
    assert!(serves_nothing(&cfg));
}

#[test]
fn limits_add_up_over_workers() {
    assert_eq!(effective_limit(100, 4), 400);
    assert_eq!(effective_limit(0, 4), 0);
    assert_eq!(effective_limit(u32::MAX, usize::MAX), u64::MAX);
}

#[test]
fn which_process_ended() {
    let workers = [(0usize, 100i32), (1, 101)];
    assert_eq!(who_ended(99, Some(99), &workers), Ended::HealthChecker);
    assert_eq!(who_ended(101, Some(99), &workers), Ended::Worker(1));
    assert_eq!(who_ended(7, Some(99), &workers), Ended::Unknown);
    assert_eq!(who_ended(100, None, &workers), Ended::Worker(0));
}

#[test]
fn test_ct_eq_basic_semantics() {
    assert!(ct_eq(b"Bearer secret", b"Bearer secret"));
    assert!(ct_eq(b"", b""));
    assert!(!ct_eq(b"Bearer secret", b"Bearer secref"));
    assert!(!ct_eq(b"a", b"b"));
    assert!(!ct_eq(b"a", b"ab"));
    assert!(!ct_eq(b"ab", b"a"));
}

#[test]
fn test_ct_eq_covers_the_full_auth_compare() {
    assert!(ct_eq(b"Bearer tok", format!("Bearer {}", "tok").as_bytes()));
    assert!(!ct_eq(
        b"Bearer tok ",
        format!("Bearer {}", "tok").as_bytes()
    ));
    assert!(!ct_eq(
        b"Bearer tok",
        format!("Bearer {}", "tok2").as_bytes()
    ));
}

#[test]
fn metrics_are_open_or_guarded() {
    let token = Some("tok".to_string());
    let basic = Some("Aladdin:open sesame".to_string());
    assert!(metrics_authorized(None, &None, &None));
    assert!(!metrics_authorized(None, &token, &None));
    assert!(metrics_authorized(Some("Bearer tok"), &token, &basic));
    assert!(metrics_authorized(
        Some("Basic QWxhZGRpbjpvcGVuIHNlc2FtZQ=="),
        &token,
        &basic
    ));
    assert!(!metrics_authorized(
        Some("Basic QWxhZGRpbjpvcGVuIHNlc2FtZQ=="),
        &token,
        &None
    ));
    assert!(!metrics_authorized(Some("bearer tok"), &token, &basic));
    assert!(auth_matches(Some("Basic abc"), None, Some("abc")));
    assert!(!auth_matches(Some("Basic abc"), Some("abc"), None));
    assert_eq!(challenge(&basic), Some("Basic realm=\"rproxy metrics\""));
    assert_eq!(challenge(&None), None);
}

#[test]
fn backends_fall_and_rise() {
    let mut p = Pulse::new();
    assert_eq!(p.observe(false, 2, 3), None);
    assert_eq!(p.observe(false, 2, 3), None);
    assert_eq!(p.observe(true, 2, 3), None);
    assert_eq!(p.observe(false, 2, 3), None);
    assert_eq!(p.observe(false, 2, 3), None);
    assert_eq!(p.observe(false, 2, 3), Some(false));
    assert_eq!(p.observe(false, 2, 3), None);
    assert_eq!(p.observe(true, 2, 3), None);
    assert_eq!(p.observe(true, 2, 3), Some(true));
    assert_eq!(p.observe(true, 2, 3), None);
}

fn backend(shm: &SharedMemory, id: usize) -> Backend {
    Backend {
        id,
        host: format!("h{}", id),
        port: 8000 + id as u16,
        addr: format!("h{}:{}", id, 8000 + id),
        weight: 1,
        connect_to: 5,
        response_to: 10,
        tls: id == 1,
        tls_skip_verify: false,
        state: shm.get_state(id),
    }
}

#[test]
fn probes_ask_for_the_health_path() {
    let shm = SharedMemory::new(2);
    let h = Hspec {
        path: "/healthz".to_string(),
        interval: 5,
        timeout: 2,
        rise: 2,
        fall: 3,
    };
    assert_eq!(probe_url(&backend(&shm, 0), &h), "http://h0:8000/healthz");
    assert_eq!(probe_url(&backend(&shm, 1), &h), "https://h1:8001/healthz");
}

#[test]
fn metrics_page_sums_up_the_workers() {
    let mut shm = SharedMemory::new(2);
    inc_status(&mut shm.metrics, 0, 200);
    inc_status(&mut shm.metrics, 1, 200);
    inc_status(&mut shm.metrics, 1, 502);
    inc_status(&mut shm.metrics, 2, 404);
    inc_qos_drop(&mut shm.metrics, 1);
    shm.metrics.global_cpu_load = 42;
    let b0 = backend(&shm, 0);
    let b1 = backend(&shm, 1);
    b1.state.set_up(&mut shm, false);
    b0.state.inc_conn(&mut shm);
    let page = metrics_text(&shm, 2, &[b0, b1]);
    let expected = "# HELP rproxy_cpu_load CPU Load Percentage
# TYPE rproxy_cpu_load gauge
rproxy_cpu_load 42
# HELP rproxy_requests_total Total Requests
# TYPE rproxy_requests_total counter
rproxy_requests_total{status=\"200\"} 2
rproxy_requests_total{status=\"502\"} 1
rproxy_qos_dropped_total 1
rproxy_rate_limit_dropped_total 0
rproxy_ip_dropped_total 0
rproxy_jwt_dropped_total 0
rproxy_rule_dropped_total 0
# HELP rproxy_bytes_total Total Bytes
# TYPE rproxy_bytes_total counter
rproxy_bytes_total{dir=\"rx\"} 0
rproxy_bytes_total{dir=\"tx\"} 0
# HELP rproxy_active_connections Total Active Connections
# TYPE rproxy_active_connections gauge
rproxy_active_connections 0
# HELP rproxy_backend_up Backend Up Status
# TYPE rproxy_backend_up gauge
rproxy_backend_up{host=\"h0:8000\"} 1
rproxy_backend_up{host=\"h1:8001\"} 0
# HELP rproxy_backend_active_connections Backend Connections
# TYPE rproxy_backend_active_connections gauge
rproxy_backend_active_connections{host=\"h0:8000\"} 1
rproxy_backend_active_connections{host=\"h1:8001\"} 0
";
    assert_eq!(page, expected);
}

#[test]
fn odd_numbers_of_workers_are_noticed() {
    let note = |s: &str| workers_note(&Some(s.to_string()));
    assert_eq!(workers_note(&None), WorkersNote::Fine);
    assert_eq!(note("auto"), WorkersNote::Fine);
    assert_eq!(note("8"), WorkersNote::Fine);
    assert_eq!(note("0"), WorkersNote::Zero);
    assert_eq!(note("many"), WorkersNote::NotANumber);
    assert_eq!(note("-1"), WorkersNote::NotANumber);
}
