//! Reading a configuration file: from its text to the configuration it describes.

use rproxy::config::{
    file_size, parse_balance, parse_hspec, parse_log_level, Backend, Balance, Config, ConfigLoader, HostEnv,
    Hspec, ValidateType, YamlBackend, YamlConfig, YamlDomain, YamlRoute, YamlRouteCache,
    YamlValidateFail, YamlValidateRule,
};
use rproxy::environment::expand_env;
use rproxy::shared::SharedMemory;
use serde_yaml::Value;
use std::collections::HashMap;

fn yaml_text(content: &str) -> String {
    content.to_string()
}

fn text(v: &Value, key: &str) -> Result<Option<String>, String> {
    match v.get(key) {
        None | Some(Value::Null) => Ok(None),
        Some(Value::String(s)) => Ok(Some(s.clone())),
        Some(other) => Err(format!("{}: not a text: {:?}", key, other)),
    }
}

fn needed_text(v: &Value, key: &str) -> Result<String, String> {
    text(v, key)?.ok_or_else(|| format!("missing field {}", key))
}

fn number(v: &Value, key: &str) -> Result<Option<u64>, String> {
    match v.get(key) {
        None | Some(Value::Null) => Ok(None),
        Some(n) => match n.as_u64() {
            Some(n) => Ok(Some(n)),
            None => Err(format!("{}: not a number", key)),
        },
    }
}

fn flag(v: &Value, key: &str) -> Result<Option<bool>, String> {
    match v.get(key) {
        None | Some(Value::Null) => Ok(None),
        Some(Value::Bool(b)) => Ok(Some(*b)),
        Some(_) => Err(format!("{}: not a flag", key)),
    }
}

fn texts(v: &Value, key: &str) -> Result<Option<Vec<String>>, String> {
    match v.get(key) {
        None | Some(Value::Null) => Ok(None),
        Some(Value::Sequence(l)) => {
            let mut out = Vec::new();
            for x in l {
                out.push(x.as_str().ok_or("not a text")?.to_string());
            }
            Ok(Some(out))
        }
        Some(_) => Err(format!("{}: not a list", key)),
    }
}

fn headers(v: &Value, key: &str) -> Result<Option<HashMap<String, String>>, String> {
    match v.get(key) {
        None | Some(Value::Null) => Ok(None),
        Some(Value::Mapping(m)) => {
            let mut out = HashMap::new();
            for (k, x) in m {
                let name = k.as_str().ok_or("not a text")?;
                let value = x.as_str().ok_or("not a text")?;
                out.insert(name.to_string(), value.to_string());
            }
            Ok(Some(out))
        }
        Some(_) => Err(format!("{}: not a mapping", key)),
    }
}

fn backends(v: &Value, key: &str) -> Result<Option<Vec<YamlBackend>>, String> {
    match v.get(key) {
        None | Some(Value::Null) => Ok(None),
        Some(Value::Sequence(l)) => {
            let mut out = Vec::new();
            for x in l {
                out.push(match x {
                    Value::String(s) => YamlBackend::Simple(s.clone()),
                    Value::Mapping(_) => YamlBackend::Detailed {
                        host: text(x, "host")?,
                        connect: number(x, "connect")?,
                        response: number(x, "response")?,
                        weight: number(x, "weight")?.map(|n| n as u32),
                        tls_skip_verify: flag(x, "tls_skip_verify")?,
                    },
                    _ => return Err(format!("{}: not a backend", key)),
                });
            }
            Ok(Some(out))
        }
        Some(_) => Err(format!("{}: not a list", key)),
    }
}

fn cache(v: &Value) -> Result<Option<YamlRouteCache>, String> {
    match v.get("cache") {
        None | Some(Value::Null) => Ok(None),
        Some(c) => Ok(Some(YamlRouteCache {
            ttl: number(c, "ttl")?.ok_or("missing field ttl")?,
            max_size: number(c, "max_size")?.map(|n| n as usize),
            respect_headers: flag(c, "respect_headers")?,
        })),
    }
}

fn rules(v: &Value) -> Result<Option<Vec<YamlValidateRule>>, String> {
    let list = match v.get("validate") {
        None | Some(Value::Null) => return Ok(None),
        Some(l) => l.as_sequence().ok_or("validate: not a list")?,
    };
    let mut out = Vec::new();
    for x in list {
        let rule_type = match needed_text(x, "type")?.as_str() {
            "header" => ValidateType::Header,
            "cookie" => ValidateType::Cookie,
            "query" => ValidateType::Query,
            "post" => ValidateType::Post,
            other => return Err(format!("unknown variant {}", other)),
        };
        let on_fail = match x.get("on_fail") {
            None | Some(Value::Null) => None,
            Some(f) => Some(YamlValidateFail {
                status: number(f, "status")?.map(|n| n as u16),
                body: text(f, "body")?,
                backends: backends(f, "backends")?,
            }),
        };
        out.push(YamlValidateRule {
            rule_type,
            name: needed_text(x, "name")?,
            regex: text(x, "regex")?,
            invert: flag(x, "invert")?.unwrap_or(false),
            on_fail,
        });
    }
    Ok(Some(out))
}

fn route(v: &Value) -> Result<YamlRoute, String> {
    Ok(YamlRoute {
        match_: needed_text(v, "match")?,
        backends: backends(v, "backends")?,
        method: text(v, "method")?,
        header: text(v, "header")?,
        absent_header: text(v, "absent_header")?,
        query: text(v, "query")?,
        cookie: text(v, "cookie")?,
        balance: text(v, "balance")?,
        connect: number(v, "connect")?,
        response: number(v, "response")?,
        set_headers: headers(v, "set_headers")?,
        validate: rules(v)?,
        client_timeout: number(v, "client_timeout")?,
        max_body_size: number(v, "max_body_size")?,
        drop_threshold: number(v, "drop_threshold")?.map(|n| n as u8),
        rate_limit: number(v, "rate_limit")?.map(|n| n as u32),
        allow_ip: texts(v, "allow_ip")?,
        deny_ip: texts(v, "deny_ip")?,
        jwt_secret: text(v, "jwt_secret")?,
        cache: cache(v)?,
        post: text(v, "post")?,
        log_level: text(v, "log_level")?,
        backend_pool_size: number(v, "backend_pool_size")?.map(|n| n as usize),
    })
}

fn domain(v: &Value) -> Result<YamlDomain, String> {
    let mut routes = Vec::new();
    if let Some(Value::Sequence(l)) = v.get("routes") {
        for x in l {
            routes.push(route(x)?);
        }
    }
    Ok(YamlDomain {
        match_: needed_text(v, "match")?,
        routes,
        default: backends(v, "default")?,
        balance: text(v, "balance")?,
        health: text(v, "health")?,
        connect: number(v, "connect")?,
        response: number(v, "response")?,
        set_headers: headers(v, "set_headers")?,
        client_timeout: number(v, "client_timeout")?,
        max_body_size: number(v, "max_body_size")?,
        allow_ip: texts(v, "allow_ip")?,
        deny_ip: texts(v, "deny_ip")?,
        jwt_secret: text(v, "jwt_secret")?,
        cache: cache(v)?,
        log_level: text(v, "log_level")?,
        backend_pool_size: number(v, "backend_pool_size")?.map(|n| n as usize),
        listen: texts(v, "listen")?,
        tls_listen: texts(v, "tls_listen")?,
        tls_cert: text(v, "tls_cert")?,
        tls_key: text(v, "tls_key")?,
        tls_sni: texts(v, "tls_sni")?,
    })
}

fn file(v: &Value) -> Result<YamlConfig, String> {
    let domains = match v.get("domains") {
        None | Some(Value::Null) => None,
        Some(l) => {
            let mut out = Vec::new();
            for x in l.as_sequence().ok_or("domains: not a list")? {
                out.push(domain(x)?);
            }
            Some(out)
        }
    };
    Ok(YamlConfig {
        listen: texts(v, "listen")?,
        tls_listen: texts(v, "tls_listen")?,
        listen_iface: text(v, "listen_iface")?,
        balance: text(v, "balance")?,
        health: text(v, "health")?,
        default: backends(v, "default")?,
        set_headers: headers(v, "set_headers")?,
        metrics_listen: text(v, "metrics_listen")?,
        metrics_path: text(v, "metrics_path")?,
        metrics_token: text(v, "metrics_token")?,
        metrics_basic_auth: text(v, "metrics_basic_auth")?,
        cache_max_bytes: number(v, "cache_max_bytes")?.map(|n| n as usize),
        domains,
        client_timeout: number(v, "client_timeout")?,
        max_body_size: number(v, "max_body_size")?,
        max_headers_size: number(v, "max_headers_size")?,
        max_active_requests: number(v, "max_active_requests")?.map(|n| n as usize),
        normalize_path: flag(v, "normalize_path")?,
        reject_encoded_slash: flag(v, "reject_encoded_slash")?,
        connect: number(v, "connect")?,
        response: number(v, "response")?,
        tls_cert: text(v, "tls_cert")?,
        tls_key: text(v, "tls_key")?,
        log_level: text(v, "log_level")?,
        allow_ip: texts(v, "allow_ip")?,
        deny_ip: texts(v, "deny_ip")?,
        jwt_secret: text(v, "jwt_secret")?,
        cache: cache(v)?,
        workers: text(v, "workers")?,
        backend_pool_size: number(v, "backend_pool_size")?.map(|n| n as usize),
        cpu_affinity: text(v, "cpu_affinity")?,
        sqpoll: text(v, "sqpoll")?,
        sqpoll_idle_ms: number(v, "sqpoll_idle_ms")?.map(|n| n as u32),
        uring_flags: text(v, "uring_flags")?,
        worker_lifetime: number(v, "worker_lifetime")?,
        worker_max_requests: number(v, "worker_max_requests")?,
        worker_drain: number(v, "worker_drain")?,
    })
}

type Loaded = (Config, Vec<(Backend, Option<Hspec>)>);

fn load_with_env(content: &str, env: &[(&str, &str)]) -> Result<Loaded, String> {
    let vars: Vec<(String, String)> = env
        .iter()
        .map(|(k, v)| (k.to_string(), v.to_string()))
        .collect();
    let expanded = expand_env(content, &vars);
    let value: Value = serde_yaml::from_str(&expanded).map_err(|e| e.to_string())?;
    let yc = file(&value)?;
    let host = HostEnv {
        parallelism: Some(8),
        tls_cert_path: None,
        tls_key_path: None,
    };
    let shm = SharedMemory::new(16);
    let mut loader = ConfigLoader::new(&shm);
    loader
        .load_within(&yc, &host)
        .expect("the backends should fit the shared memory")
}

fn load(content: &str) -> Result<Loaded, String> {
    load_with_env(content, &[])
}

fn load_config(content: &str) -> Result<Config, String> {
    load(content).map(|(cfg, _)| cfg)
}

fn load_config_with_env(content: &str, env: &[(&str, &str)]) -> Result<Config, String> {
    load_with_env(content, env).map(|(cfg, _)| cfg)
}

fn load_config_with_health(content: &str) -> Result<Loaded, String> {
    load(content)
}

#[test]
fn test_parse_hspec() {
    let h1 = parse_hspec("path=/health interval=10 timeout=5 rise=3 fall=4").unwrap();
    assert_eq!(h1.path, "/health");
    assert_eq!(h1.interval, 10);
    assert_eq!(h1.timeout, 5);
    assert_eq!(h1.rise, 3);
    assert_eq!(h1.fall, 4);

    let h2 = parse_hspec("path=/").unwrap();
    assert_eq!(h2.path, "/");
    assert_eq!(h2.interval, 5);
    assert_eq!(h2.timeout, 2);
    assert_eq!(h2.rise, 2);
    assert_eq!(h2.fall, 3);

    let h3 = parse_hspec("invalid=yes").unwrap();
    assert_eq!(h3.path, "/");
}

#[test]
fn test_parse_hspec_defaults_and_garbage() {
    let h = parse_hspec("").unwrap();
    assert_eq!(h.path, "/");
    assert_eq!(h.interval, 5);
    assert_eq!(h.timeout, 2);
    assert_eq!(h.rise, 2);
    assert_eq!(h.fall, 3);

    let h2 = parse_hspec("garbage").unwrap();
    assert_eq!(h2.path, "/");
    assert_eq!(h2.interval, 5);
}

#[test]
fn test_parse_log_level() {
    assert_eq!(parse_log_level("error"), 1);
    assert_eq!(parse_log_level("warn"), 2);
    assert_eq!(parse_log_level("info"), 3);
    assert_eq!(parse_log_level("debug"), 4);
    assert_eq!(parse_log_level("trace"), 5);
    assert_eq!(parse_log_level("none"), 0);
    assert_eq!(parse_log_level("off"), 0);
    assert_eq!(parse_log_level("bogus"), 3);
    assert_eq!(parse_log_level("ERROR"), 1);
    assert_eq!(parse_log_level("NONE"), 0);
}

#[test]
fn test_parse_balance() {
    assert_eq!(parse_balance("roundrobin").unwrap(), Balance::RoundRobin);
    assert_eq!(parse_balance("round_robin").unwrap(), Balance::RoundRobin);
    assert_eq!(parse_balance("rr").unwrap(), Balance::RoundRobin);
    assert_eq!(parse_balance("ROUNDROBIN").unwrap(), Balance::RoundRobin);
    assert_eq!(parse_balance("RR").unwrap(), Balance::RoundRobin);
    assert_eq!(parse_balance("random").unwrap(), Balance::Random);
    assert_eq!(parse_balance("first").unwrap(), Balance::First);
    assert_eq!(parse_balance("leastconn").unwrap(), Balance::Leastconn);
    assert_eq!(parse_balance("weighted").unwrap(), Balance::Weighted);
    assert_eq!(parse_balance("iphash").unwrap(), Balance::Iphash);
    assert_eq!(parse_balance("urlhash").unwrap(), Balance::Urlhash);
    assert!(parse_balance("totally_invalid").is_err());
}

#[test]
fn test_load_minimal() {
    let path =
        yaml_text("listen: [\"127.0.0.1:1\"]\ndefault:\n  - \"127.0.0.1:2\"\n");
    let (cfg, _) = load(&path).unwrap();
    assert_eq!(cfg.client_timeout, 60);
    assert_eq!(cfg.max_body_size, 2097152);
    assert_eq!(cfg.max_headers_size, 8192);
    assert_eq!(cfg.max_active_requests, 10000);
    assert!(cfg.normalize_path);
    assert!(!cfg.reject_encoded_slash);
    assert_eq!(cfg.cache_max_bytes, 104857600);
}

#[test]
fn test_load_workers_clamp() {
    let path = yaml_text(
        "listen: [\"127.0.0.1:1\"]\ndefault:\n  - \"127.0.0.1:2\"\nworkers: \"999\"\n",
    );
    let (cfg, _) = load(&path).unwrap();
    assert_eq!(cfg.workers, 256);
}

#[test]
fn test_load_workers_invalid() {
    let path = yaml_text(
        "listen: [\"127.0.0.1:1\"]\ndefault:\n  - \"127.0.0.1:2\"\nworkers: \"not_a_number\"\n",
    );
    let (cfg, _) = load(&path).unwrap();
    assert!(cfg.workers >= 1 && cfg.workers <= 256);
}

#[test]
fn test_load_workers_zero_clamped_to_one() {
    let path = yaml_text(
        "listen: [\"127.0.0.1:1\"]\ndefault:\n  - \"127.0.0.1:2\"\nworkers: \"0\"\n",
    );
    let (cfg, _) = load(&path).unwrap();
    assert_eq!(cfg.workers, 1);
}

#[test]
fn test_load_acl_invalid_entry_fails_loud() {
    let path = yaml_text(
        "listen: [\"127.0.0.1:1\"]\ndefault:\n  - \"127.0.0.1:2\"\nallow_ip:\n  - \"10.0.0.0/8\"\n  - \"not-an-ip\"\n",
    );
    let result = load(&path);
    assert!(result.is_err());
    assert!(result.err().unwrap().contains("allow_ip"));
}

#[test]
fn test_load_acl_invalid_domain_entry_fails_loud() {
    let path = yaml_text(
        "listen: [\"127.0.0.1:1\"]\ndefault:\n  - \"127.0.0.1:2\"\ndomains:\n  - match: \"x.example.com\"\n    allow_ip: [\"10.0.0.0/33\"]\n",
    );
    let result = load(&path);
    assert!(result.is_err());
}

#[test]
fn test_load_backend_missing_host() {
    let path = yaml_text(
        "listen: [\"127.0.0.1:1\"]\ndefault:\n  - addr: \"127.0.0.1:2\"\n",
    );
    let result = load(&path);
    assert!(result.is_err());
    assert!(result.err().unwrap().contains("host"));
}

#[test]
fn test_load_tls_skip_verify_without_https_is_rejected() {
    let path = yaml_text(
        "listen: [\"127.0.0.1:1\"]\ndefault:\n  - host: \"127.0.0.1:2\"\n    tls_skip_verify: true\n",
    );
    let result = load(&path);
    assert!(result.is_err());
    assert!(result.err().unwrap().contains("tls_skip_verify"));
}

#[test]
fn test_load_tls_skip_verify_with_https_is_accepted() {
    let path = yaml_text(
        "listen: [\"127.0.0.1:1\"]\ndefault:\n  - host: \"https://127.0.0.1:2\"\n    tls_skip_verify: true\n",
    );
    let (cfg, _) = load(&path).unwrap();
    let be = &cfg.def.unwrap().backends[0];
    assert!(be.tls);
    assert!(be.tls_skip_verify);
}

#[test]
fn test_load_tls_skip_verify_defaults_false() {
    let path = yaml_text(
        "listen: [\"127.0.0.1:1\"]\ndefault:\n  - host: \"https://127.0.0.1:2\"\n",
    );
    let (cfg, _) = load(&path).unwrap();
    assert!(!cfg.def.unwrap().backends[0].tls_skip_verify);
}

#[test]
fn test_load_tls_skip_verify_simple_string_form_defaults_false() {
    let path = yaml_text(
        "listen: [\"127.0.0.1:1\"]\ndefault:\n  - \"https://127.0.0.1:2\"\n",
    );
    let (cfg, _) = load(&path).unwrap();
    let be = &cfg.def.unwrap().backends[0];
    assert!(be.tls);
    assert!(!be.tls_skip_verify);
}

#[test]
fn test_load_unknown_top_level_key() {
    let path = yaml_text(
        "listen: [\"127.0.0.1:1\"]\ndefault:\n  - \"127.0.0.1:2\"\nbogus_key: 123\n",
    );
    let result = load(&path);
    assert!(result.is_ok());
}

#[test]
fn test_load_invalid_balance() {
    let path = yaml_text(
        "listen: [\"127.0.0.1:1\"]\ndefault:\n  - \"127.0.0.1:2\"\nbalance: \"totally_invalid\"\n",
    );
    let result = load(&path);
    assert!(result.is_err());
}

#[test]
fn test_load_env_var_substitution() {
    let env_name = "RPROXY_TEST_ENV_SUBST_A";
    let env_val = "hello_from_env";
    let yaml = format!(
        "listen: [\"127.0.0.1:1\"]\ndefault:\n  - \"127.0.0.1:2\"\nset_headers:\n  X-Custom: \"${{{}}}\"\n",
        env_name
    );
    let (cfg, _) = load_with_env(&yaml, &[(env_name, env_val)]).unwrap();
    let headers = cfg.set_headers.as_ref().unwrap();
    assert_eq!(headers.get("X-Custom").unwrap(), env_val);
}

#[test]
fn test_load_client_ip_not_substituted() {
    let path = yaml_text(
        "listen: [\"127.0.0.1:1\"]\ndefault:\n  - \"127.0.0.1:2\"\nset_headers:\n  X-Forwarded-For: $client_ip\n",
    );
    let (cfg, _) = load(&path).unwrap();
    let headers = cfg.set_headers.as_ref().unwrap();
    assert_eq!(headers.get("X-Forwarded-For").unwrap(), "$client_ip");
}

#[test]
fn test_load_braced_client_ip_not_substituted() {
    let path = yaml_text(
        "listen: [\"127.0.0.1:1\"]\ndefault:\n  - \"127.0.0.1:2\"\nset_headers:\n  X-Forwarded-For: ${client_ip}\n",
    );
    let (cfg, _) = load(&path).unwrap();
    let headers = cfg.set_headers.as_ref().unwrap();
    assert_eq!(headers.get("X-Forwarded-For").unwrap(), "${client_ip}");
}

#[test]
fn test_load_worker_lifetime_zero() {
    let path = yaml_text(
        "listen: [\"127.0.0.1:1\"]\ndefault:\n  - \"127.0.0.1:2\"\nworker_lifetime: 0\n",
    );
    let (cfg, _) = load(&path).unwrap();
    assert_eq!(cfg.worker_lifetime, None);
}

#[test]
fn test_load_worker_drain_from_response() {
    let path = yaml_text(
        "listen: [\"127.0.0.1:1\"]\ndefault:\n  - \"127.0.0.1:2\"\nresponse: 45\n",
    );
    let (cfg, _) = load(&path).unwrap();
    assert_eq!(cfg.worker_drain, 50);
}

#[test]
fn errors_come_before_a_lack_of_room() {
    let host = HostEnv {
        parallelism: Some(8),
        tls_cert_path: None,
        tls_key_path: None,
    };
    let read = |content: &str| file(&serde_yaml::from_str(content).unwrap()).unwrap();
    let two = read("default:\n  - \"127.0.0.1:2\"\n  - \"127.0.0.1:3\"\nresponse: 90\n");
    let wrong = read("default:\n  - \"127.0.0.1:2\"\n  - connect: 3\n");
    assert_eq!(file_size(&two), (Some(2), Some(0)));
    let none = SharedMemory::new(0);
    let mut loader = ConfigLoader::new(&none);
    assert!(loader.load_within(&two, &host).is_none());
    match loader.load_within(&wrong, &host) {
        Some(Err(e)) => assert_eq!(e, "Backend missing 'host' field"),
        _ => panic!("the error of the file"),
    }
    let some = SharedMemory::new(3);
    let mut loader = ConfigLoader::new(&some);
    let (cfg, _) = loader.load_within(&two, &host).unwrap().unwrap();
    assert_eq!(cfg.worker_drain, 95);
    assert!(loader.load_within(&two, &host).is_none());
    let one = read("default:\n  - \"127.0.0.1:4\"\n");
    let (cfg, _) = loader.load_within(&one, &host).unwrap().unwrap();
    assert_eq!(cfg.def.unwrap().backends[0].id, 2);
    assert_eq!(cfg.worker_drain, 95);
    assert!(loader.load_within(&one, &host).is_none());
}

#[test]
fn short_responses_leave_half_a_minute_to_drain() {
    for (response, drain) in [("10", 30), ("25", 30), ("26", 31), ("30", 35)] {
        let mut file =
            String::from("listen: [\"127.0.0.1:1\"]\ndefault:\n  - \"127.0.0.1:2\"\nresponse: ");
        file.push_str(response);
        file.push('\n');
        let (cfg, _) = load(&yaml_text(&file)).unwrap();
        assert_eq!(cfg.worker_drain, drain);
    }
}

#[test]
fn test_load_domain_client_timeout_cascade() {
    let path = yaml_text(
        "listen: [\"127.0.0.1:1\"]\ndefault:\n  - \"127.0.0.1:2\"\ndomains:\n  - match: \"x.example.com\"\n    client_timeout: 10\n    routes:\n      - match: \"/api\"\n",
    );
    let (cfg, _) = load(&path).unwrap();
    assert_eq!(cfg.domains[0].routes[0].client_timeout, 10);
}

#[test]
fn test_load_validate_defaults() {
    let path = yaml_text(
        "listen: [\"127.0.0.1:1\"]\ndefault:\n  - \"127.0.0.1:2\"\ndomains:\n  - match: \"x.example.com\"\n    routes:\n      - match: \"/api\"\n        validate:\n          - type: header\n            name: X-Token\n            on_fail: {}\n",
    );
    let (cfg, _) = load(&path).unwrap();
    assert_eq!(cfg.domains[0].routes[0].validate[0].on_fail.status, 403);
    assert_eq!(
        cfg.domains[0].routes[0].validate[0].on_fail.body,
        "Forbidden\n"
    );
}

#[test]
fn test_load_validate_on_fail_fully_omitted() {
    let path = yaml_text(
        "listen: [\"127.0.0.1:1\"]\ndefault:\n  - \"127.0.0.1:2\"\ndomains:\n  - match: \"x.example.com\"\n    routes:\n      - match: \"/api\"\n        validate:\n          - type: header\n            name: X-Token\n",
    );
    let (cfg, _) = load(&path).unwrap();
    assert_eq!(cfg.domains[0].routes[0].validate[0].on_fail.status, 403);
    assert_eq!(
        cfg.domains[0].routes[0].validate[0].on_fail.body,
        "Forbidden\n"
    );
}

#[test]
fn config_minimal_valid() {
    let path = yaml_text(
        r#"
listen:
  - "0.0.0.0:80"
workers: "auto"
default:
  - "127.0.0.1:8081"
"#,
    );
    let cfg = load_config(&path).expect("minimal config should parse");
    assert_eq!(cfg.listen.len(), 1);
    assert_eq!(cfg.listen[0], "0.0.0.0:80");
}

#[test]
fn config_domains_valid() {
    let path = yaml_text(
        r#"
listen:
  - "0.0.0.0:80"
domains:
  - match: "api.example.com"
    routes:
      - match: "/v1/"
        method: "GET,POST"
        backends:
          - "10.0.0.5:8080"
"#,
    );
    let cfg = load_config(&path).expect("domains config should parse");
    assert_eq!(cfg.domains.len(), 1);
    assert_eq!(cfg.domains[0].re.as_str(), "api.example.com");
}

#[test]
fn config_balance_weighted_valid() {
    let path = yaml_text(
        r#"
listen:
  - "0.0.0.0:80"
balance: "weighted"
default:
  - host: "10.0.0.5:8080"
    weight: 3
  - host: "10.0.0.6:8080"
    weight: 1
"#,
    );
    let cfg = load_config(&path).expect("weighted config should parse");
    assert_eq!(
        cfg.def.as_ref().unwrap().balance,
        rproxy::config::Balance::Weighted
    );
}

#[test]
fn config_health_spec_valid() {
    let path = yaml_text(
        r#"
listen:
  - "0.0.0.0:80"
health: "path=/healthz interval=5 fall=2"
default:
  - "127.0.0.1:8081"
"#,
    );
    let (cfg, health_checks) = load_config_with_health(&path).expect("health spec should parse");
    assert_eq!(cfg.def.as_ref().unwrap().backends.len(), 1);
    assert!(
        health_checks.iter().any(|(_, h)| h.is_some()),
        "backend should get a health spec"
    );
}

#[test]
fn config_metrics_auth_valid() {
    let path = yaml_text(
        r#"
listen:
  - "0.0.0.0:80"
metrics_listen: "127.0.0.1:9090"
metrics_token: "secret-token"
metrics_basic_auth: "admin:pass123"
default:
  - "127.0.0.1:8081"
"#,
    );
    let cfg = load_config(&path).expect("metrics auth config should parse");
    assert_eq!(cfg.metrics_token.as_deref(), Some("secret-token"));
    assert_eq!(cfg.metrics_basic_auth.as_deref(), Some("admin:pass123"));
}

#[test]
fn config_invalid_yaml_syntax() {
    let path = yaml_text(
        r#"
listen: [invalid yaml {{{
default:
  - "127.0.0.1:8081"
"#,
    );
    let result = load_config(&path);
    assert!(result.is_err(), "invalid YAML should fail to parse");
}

#[test]
fn config_unknown_balance_fails() {
    let path = yaml_text(
        r#"
listen:
  - "0.0.0.0:80"
balance: "nonexistent_algorithm"
default:
  - "127.0.0.1:8081"
"#,
    );
    let result = load_config(&path);
    assert!(result.is_err(), "unknown balance algorithm should fail");
}

#[test]
fn config_backend_missing_host_fails() {
    let path = yaml_text(
        r#"
listen:
  - "0.0.0.0:80"
default:
  - weight: 1
"#,
    );
    let result = load_config(&path);
    assert!(result.is_err(), "backend without host should fail");
}

#[test]
fn config_missing_required_listen_fails() {
    let path = yaml_text(
        r#"
default:
  - "127.0.0.1:8081"
"#,
    );
    let cfg = load_config(&path);
    assert!(cfg.is_ok(), "missing listen should use default");
}

#[test]
fn config_env_substitution_replaces_value() {
    let path = yaml_text(
        r#"
listen:
  - "0.0.0.0:80"
set_headers:
  X-Env: "${RPX_DEPLOY_ENV}"
default:
  - "127.0.0.1:8081"
"#,
    );
    let cfg = load_config_with_env(&path, &[("RPX_DEPLOY_ENV", "production")]).expect("config with env var should parse");
    if let Some(headers) = &cfg.set_headers {
        assert_eq!(headers.get("X-Env").unwrap(), "production");
    }
}

#[test]
fn config_env_substitution_missing_var_becomes_empty() {
    let path = yaml_text(
        r#"
listen:
  - "0.0.0.0:80"
set_headers:
  X-Missing: "${NONEXISTENT_VAR_RPX_TEST}"
default:
  - "127.0.0.1:8081"
"#,
    );
    let cfg = load_config(&path).expect("missing env var should become empty string");
    if let Some(headers) = &cfg.set_headers {
        assert_eq!(headers.get("X-Missing").unwrap(), "");
    }
}

#[test]
fn config_env_dollar_var_syntax() {
    let path = yaml_text(
        r#"
listen:
  - "0.0.0.0:80"
set_headers:
  X-Host: "$RPX_HOST"
default:
  - "127.0.0.1:8081"
"#,
    );
    let cfg = load_config_with_env(&path, &[("RPX_HOST", "prod.example.com")]).expect("$VAR syntax should also substitute");
    if let Some(headers) = &cfg.set_headers {
        assert_eq!(headers.get("X-Host").unwrap(), "prod.example.com");
    }
}

#[test]
fn config_unknown_keys_ignored() {
    let path = yaml_text(
        r#"
listen:
  - "0.0.0.0:80"
totally_unknown_key: "should be ignored"
another_weird_field: 12345
default:
  - "127.0.0.1:8081"
"#,
    );
    let cfg = load_config(&path).expect("unknown keys should be silently ignored");
    assert_eq!(cfg.listen.len(), 1);
}

#[test]
fn config_unknown_route_keys_ignored() {
    let path = yaml_text(
        r#"
listen:
  - "0.0.0.0:80"
domains:
  - match: "example.com"
    routes:
      - match: "/api/"
        method: "GET"
        backends:
          - "127.0.0.1:8081"
        some_fake_route_key: true
"#,
    );
    let cfg = load_config(&path).expect("unknown route keys should be ignored");
    assert_eq!(cfg.domains.len(), 1);
    assert_eq!(cfg.domains[0].routes.len(), 1);
}

#[test]
fn config_literal_match_exact() {
    let path = yaml_text(
        r#"
listen:
  - "0.0.0.0:80"
domains:
  - match: "api.example.com"
    routes:
      - match: "/v1/"
        backends:
          - "127.0.0.1:8081"
"#,
    );
    let cfg = load_config(&path).expect("literal domain match should parse");
    assert_eq!(cfg.domains[0].re.as_str(), "api.example.com");
}

#[test]
fn config_regex_match_parsed() {
    let path = yaml_text(
        r#"
listen:
  - "0.0.0.0:80"
domains:
  - match: "^api.*\\.example\\.com$"
    routes:
      - match: "/v1/"
        backends:
          - "127.0.0.1:8081"
"#,
    );
    let cfg = load_config(&path).expect("regex domain match should parse");
    assert!(cfg.domains[0].re.as_str().contains('.'));
}

#[test]
fn config_route_prefix_match() {
    let path = yaml_text(
        r#"
listen:
  - "0.0.0.0:80"
domains:
  - match: "example.com"
    routes:
      - match: "/api/"
        backends:
          - "127.0.0.1:8081"
"#,
    );
    let cfg = load_config(&path).expect("prefix route match should parse");
    assert_eq!(cfg.domains[0].routes[0].re.as_str(), "/api/");
}

#[test]
fn config_acl_allow_ip_valid() {
    let path = yaml_text(
        r#"
listen:
  - "0.0.0.0:80"
allow_ip:
  - "10.0.0.0/8"
  - "192.168.0.0/16"
default:
  - "127.0.0.1:8081"
"#,
    );
    let cfg = load_config(&path).expect("allow_ip ACL should parse");
    assert_eq!(cfg.allow_ip.as_ref().unwrap().len(), 2);
}

#[test]
fn config_acl_deny_ip_valid() {
    let path = yaml_text(
        r#"
listen:
  - "0.0.0.0:80"
deny_ip:
  - "0.0.0.0/0"
default:
  - "127.0.0.1:8081"
"#,
    );
    let cfg = load_config(&path).expect("deny_ip ACL should parse");
    assert_eq!(cfg.deny_ip.as_ref().unwrap().len(), 1);
}

#[test]
fn config_rate_limit_valid() {
    let path = yaml_text(
        r#"
listen:
  - "0.0.0.0:80"
domains:
  - match: "example.com"
    routes:
      - match: "/"
        rate_limit: 5000
        backends:
          - "127.0.0.1:8081"
"#,
    );
    let cfg = load_config(&path).expect("rate_limit should parse");
    assert_eq!(cfg.domains[0].routes[0].rate_limit.unwrap(), 5000);
}

#[test]
fn config_max_body_size_valid() {
    let path = yaml_text(
        r#"
listen:
  - "0.0.0.0:80"
max_body_size: 10485760
default:
  - "127.0.0.1:8081"
"#,
    );
    let cfg = load_config(&path).expect("max_body_size should parse");
    assert_eq!(cfg.max_body_size, 10485760);
}

#[test]
fn config_max_headers_size_valid() {
    let path = yaml_text(
        r#"
listen:
  - "0.0.0.0:80"
max_headers_size: 16384
default:
  - "127.0.0.1:8081"
"#,
    );
    let cfg = load_config(&path).expect("max_headers_size should parse");
    assert_eq!(cfg.max_headers_size, 16384);
}

#[test]
fn config_balance_roundrobin_aliases() {
    for alias in &["roundrobin", "round_robin", "rr"] {
        let path = yaml_text(&format!(
            r#"
listen:
  - "0.0.0.0:80"
balance: "{}"
default:
  - "127.0.0.1:8081"
"#,
            alias
        ));
        let cfg =
            load_config(&path).unwrap_or_else(|_| panic!("balance alias '{}' should work", alias));
        assert_eq!(
            cfg.def.as_ref().unwrap().balance,
            rproxy::config::Balance::RoundRobin
        );
    }
}

#[test]
fn config_balance_all_algorithms_valid() {
    for alg in &[
        "roundrobin",
        "random",
        "first",
        "leastconn",
        "weighted",
        "iphash",
        "urlhash",
    ] {
        let path = yaml_text(&format!(
            r#"
listen:
  - "0.0.0.0:80"
balance: "{}"
default:
  - "127.0.0.1:8081"
"#,
            alg
        ));
        let result = load_config(&path);
        assert!(result.is_ok(), "balance '{}' should be valid", alg);
    }
}

#[test]
fn doc_config_substitution_env_var_replaced() {
    let path = yaml_text(
        r#"
listen:
  - "0.0.0.0:80"
set_headers:
  X-Test: "${RPX_TEST_VAR_12345}"
default:
  - "127.0.0.1:8081"
"#,
    );
    let cfg = load_config_with_env(&path, &[("RPX_TEST_VAR_12345", "substituted_value")]).expect("config with ${VAR} should parse");
    if let Some(headers) = &cfg.set_headers {
        assert_eq!(headers.get("X-Test").unwrap(), "substituted_value");
    }
}

#[test]
fn doc_config_substitution_missing_var_empty() {
    let path = yaml_text(
        r#"
listen:
  - "0.0.0.0:80"
set_headers:
  X-Missing: "${RPX_NONEXIST_67890}"
default:
  - "127.0.0.1:8081"
"#,
    );
    let cfg = load_config(&path).expect("missing env var should become empty");
    if let Some(headers) = &cfg.set_headers {
        assert_eq!(headers.get("X-Missing").unwrap(), "");
    }
}

#[test]
fn doc_unknown_keys_globally_ignored() {
    let path = yaml_text(
        r#"
listen:
  - "0.0.0.0:80"
fake_global_key: true
another_fake: 42
default:
  - "127.0.0.1:8081"
"#,
    );
    let cfg = load_config(&path).expect("unknown global keys should be ignored");
    assert_eq!(cfg.listen.len(), 1);
}

#[test]
fn doc_unknown_keys_in_domain_ignored() {
    let path = yaml_text(
        r#"
listen:
  - "0.0.0.0:80"
domains:
  - match: "example.com"
    fake_domain_key: true
    routes:
      - match: "/"
        fake_route_key: "value"
        backends:
          - "127.0.0.1:8081"
"#,
    );
    let cfg = load_config(&path).expect("unknown domain/route keys should be ignored");
    assert_eq!(cfg.domains.len(), 1);
    assert_eq!(cfg.domains[0].routes.len(), 1);
}

#[test]
fn doc_backend_pool_size_default_is_16() {
    let path = yaml_text(
        r#"
listen:
  - "0.0.0.0:80"
default:
  - "127.0.0.1:8081"
"#,
    );
    let cfg = load_config(&path).expect("minimal config should parse");
    assert_eq!(cfg.backend_pool_size, 16);
}

#[test]
fn doc_backend_pool_size_zero_disables_reuse() {
    let path = yaml_text(
        r#"
listen:
  - "0.0.0.0:80"
backend_pool_size: 0
default:
  - "127.0.0.1:8081"
"#,
    );
    let cfg = load_config(&path).expect("pool_size=0 should parse");
    assert_eq!(cfg.backend_pool_size, 0);
}

#[test]
fn doc_cache_ttl_required() {
    let path = yaml_text(
        r#"
listen:
  - "0.0.0.0:80"
cache:
  ttl: 60
  max_size: 1048576
default:
  - "127.0.0.1:8081"
"#,
    );
    let cfg = load_config(&path).expect("valid cache config should parse");
    assert!(cfg.cache.is_some());
}

#[test]
fn doc_cache_max_bytes_per_worker() {
    let path = yaml_text(
        r#"
listen:
  - "0.0.0.0:80"
cache_max_bytes: 209715200
workers: "4"
default:
  - "127.0.0.1:8081"
"#,
    );
    let cfg = load_config(&path).expect("cache config should parse");
    assert_eq!(cfg.cache_max_bytes, 209715200);
}

#[test]
fn doc_health_default_spec() {
    let path = yaml_text(
        r#"
listen:
  - "0.0.0.0:80"
health: "path=/health interval=10 timeout=5 rise=3 fall=2"
default:
  - "127.0.0.1:8081"
"#,
    );
    let (_cfg, health_checks) = load_config_with_health(&path).expect("health spec should parse");
    let spec = health_checks
        .iter()
        .filter_map(|(_, h)| h.as_ref())
        .next()
        .expect("backend should get a health spec");
    assert_eq!(spec.path, "/health");
    assert_eq!(spec.interval, 10);
    assert_eq!(spec.timeout, 5);
    assert_eq!(spec.rise, 3);
    assert_eq!(spec.fall, 2);
}

#[test]
fn doc_normalize_path_default_true() {
    let path = yaml_text(
        r#"
listen:
  - "0.0.0.0:80"
default:
  - "127.0.0.1:8081"
"#,
    );
    let cfg = load_config(&path).expect("minimal config should parse");
    assert!(cfg.normalize_path);
}

#[test]
fn doc_reject_encoded_slash_default_false() {
    let path = yaml_text(
        r#"
listen:
  - "0.0.0.0:80"
default:
  - "127.0.0.1:8081"
"#,
    );
    let cfg = load_config(&path).expect("minimal config should parse");
    assert!(!cfg.reject_encoded_slash);
}

#[test]
fn doc_workers_auto_valid() {
    let path = yaml_text(
        r#"
listen:
  - "0.0.0.0:80"
workers: "auto"
default:
  - "127.0.0.1:8081"
"#,
    );
    let cfg = load_config(&path).expect("workers=auto should parse");
    assert!(
        (1..=256).contains(&cfg.workers),
        "workers=auto should resolve to 1..=256, got {}",
        cfg.workers
    );
}

#[test]
fn doc_tls_config_valid() {
    let path = yaml_text(
        r#"
listen:
  - "0.0.0.0:80"
tls_listen:
  - "0.0.0.0:443"
tls_cert: "/etc/ssl/cert.pem"
tls_key: "/etc/ssl/key.pem"
default:
  - "127.0.0.1:8081"
"#,
    );
    let cfg = load_config(&path).expect("TLS config should parse");
    assert_eq!(cfg.tls_listen.len(), 1);
}

#[test]
fn doc_metrics_token_only() {
    let path = yaml_text(
        r#"
listen:
  - "0.0.0.0:80"
metrics_listen: "127.0.0.1:9090"
metrics_token: "mytoken"
default:
  - "127.0.0.1:8081"
"#,
    );
    let cfg = load_config(&path).expect("metrics with token should parse");
    assert_eq!(cfg.metrics_token.as_deref(), Some("mytoken"));
}

#[test]
fn doc_balance_inheritance_domain_overrides() {
    let path = yaml_text(
        r#"
listen:
  - "0.0.0.0:80"
balance: "roundrobin"
default:
  - "127.0.0.1:8080"
domains:
  - match: "example.com"
    balance: "leastconn"
    routes:
      - match: "/"
        backends:
          - "127.0.0.1:8081"
"#,
    );
    let cfg = load_config(&path).expect("domain balance override should parse");
    assert_eq!(
        cfg.def.as_ref().unwrap().balance,
        rproxy::config::Balance::RoundRobin
    );
    assert_eq!(
        cfg.domains[0].routes[0].bl.as_ref().unwrap().balance,
        rproxy::config::Balance::Leastconn
    );
}

#[test]
fn doc_backend_tls_skip_verify_valid() {
    let path = yaml_text(
        r#"
listen:
  - "0.0.0.0:80"
default:
  - host: "https://internal.example.com:8443"
    tls_skip_verify: true
"#,
    );
    let cfg = load_config(&path).expect("tls_skip_verify should parse");
    let bl = cfg.def.as_ref().expect("default backend list should parse");
    assert_eq!(bl.backends.len(), 1);
    let be = &bl.backends[0];
    assert!(be.tls, "https:// backend should be flagged as TLS");
    assert!(
        be.tls_skip_verify,
        "tls_skip_verify should be honored in detailed form"
    );
}

#[test]
fn doc_validate_rule_valid() {
    let path = yaml_text(
        r#"
listen:
  - "0.0.0.0:80"
domains:
  - match: "example.com"
    routes:
      - match: "/api/"
        validate:
          - type: header
            name: "X-Api-Key"
            regex: "^[a-f0-9]{32}$"
            on_fail:
              status: 418
              body: "nope\n"
        backends:
          - "127.0.0.1:8081"
"#,
    );
    let cfg = load_config(&path).expect("validate rule should parse");
    assert_eq!(cfg.domains[0].routes.len(), 1);
}
