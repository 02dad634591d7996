//! How a request is routed and judged.

use rproxy::balancer::BalancerState;
use rproxy::config::{
    ConfigLoader, HostEnv, ValidateType, YamlBackend, YamlConfig, YamlDomain, YamlRoute,
    YamlRouteCache, YamlValidateFail, YamlValidateRule,
};
use rproxy::fast_proxy::{
    effective_policy, failed_rule, post_conditions_hold, rule_matches, BalancerAt, FastRouter,
    Routed,
};
use rproxy::http::{parse_request, Parsed, RequestHead};
use rproxy::jwt::JwtCache;
use rproxy::net::{any_contains, IpAddr};
use rproxy::rate::RateLimiter;
use rproxy::request::{
    combine, domain_at, injected_headers, judge_body, judge_head, make_room, over_capacity,
    partial_head, request_target, route_at, route_cache, rule_tally, settings, upstream_keepalive,
    wants_upgrade, BodyReader, DropCounter, Judgement, Refusal, Room, ServedBy, Settings, Tally,
};
use rproxy::shared::SharedMemory;
use std::collections::HashMap;

const LOCAL: &str = "127.0.0.1:8080";

fn text(s: &str) -> Option<String> {
    Some(s.to_string())
}

fn texts(v: &[&str]) -> Option<Vec<String>> {
    Some(v.iter().map(|s| s.to_string()).collect())
}

fn servers(v: &[&str]) -> Option<Vec<YamlBackend>> {
    Some(
        v.iter()
            .map(|s| YamlBackend::Simple(s.to_string()))
            .collect(),
    )
}

fn pairs(v: &[(&str, &str)]) -> Option<HashMap<String, String>> {
    Some(
        v.iter()
            .map(|(k, x)| (k.to_string(), x.to_string()))
            .collect(),
    )
}

fn file() -> YamlConfig {
    YamlConfig {
        listen: texts(&[LOCAL]),
        tls_listen: None,
        listen_iface: None,
        balance: None,
        health: None,
        default: None,
        set_headers: None,
        metrics_listen: None,
        metrics_path: None,
        metrics_token: None,
        metrics_basic_auth: None,
        cache_max_bytes: None,
        domains: None,
        client_timeout: None,
        max_body_size: None,
        max_headers_size: None,
        max_active_requests: None,
        normalize_path: None,
        reject_encoded_slash: None,
        connect: None,
        response: None,
        tls_cert: None,
        tls_key: None,
        log_level: None,
        allow_ip: None,
        deny_ip: None,
        jwt_secret: None,
        cache: None,
        workers: text("1"),
        backend_pool_size: None,
        cpu_affinity: None,
        sqpoll: None,
        sqpoll_idle_ms: None,
        uring_flags: None,
        worker_lifetime: None,
        worker_max_requests: None,
        worker_drain: None,
    }
}

fn domain(pattern: &str) -> YamlDomain {
    YamlDomain {
        match_: pattern.to_string(),
        routes: vec![],
        default: None,
        balance: None,
        health: None,
        connect: None,
        response: None,
        set_headers: None,
        client_timeout: None,
        max_body_size: None,
        allow_ip: None,
        deny_ip: None,
        jwt_secret: None,
        cache: None,
        log_level: None,
        backend_pool_size: None,
        listen: None,
        tls_listen: None,
        tls_cert: None,
        tls_key: None,
        tls_sni: None,
    }
}

fn route(pattern: &str) -> YamlRoute {
    YamlRoute {
        match_: pattern.to_string(),
        backends: servers(&["r:1"]),
        method: None,
        header: None,
        absent_header: None,
        query: None,
        cookie: None,
        balance: None,
        connect: None,
        response: None,
        set_headers: None,
        validate: None,
        client_timeout: None,
        max_body_size: None,
        drop_threshold: None,
        rate_limit: None,
        allow_ip: None,
        deny_ip: None,
        jwt_secret: None,
        cache: None,
        post: None,
        log_level: None,
        backend_pool_size: None,
    }
}

fn router(yc: &YamlConfig) -> FastRouter {
    let shm = SharedMemory::new(64);
    let host = HostEnv {
        parallelism: Some(1),
        tls_cert_path: None,
        tls_key_path: None,
    };
    let (cfg, _) = ConfigLoader::new(&shm)
        .load_within(yc, &host)
        .unwrap()
        .unwrap();
    FastRouter::new(cfg)
}

fn router_with(r: YamlRoute) -> FastRouter {
    let mut d = domain("example.com");
    d.routes = vec![r];
    let mut yc = file();
    yc.domains = Some(vec![d]);
    router(&yc)
}

fn parsed(raw: &str) -> RequestHead<'_> {
    match parse_request(raw.as_bytes()) {
        Parsed::Complete(h, n) => {
            assert_eq!(n, raw.len());
            h
        }
        _ => panic!("a whole head"),
    }
}

fn get(target: &str, extra: &str) -> String {
    format!("GET {target} HTTP/1.1\r\nHost: example.com\r\n{extra}\r\n")
}

fn places(r: &FastRouter, raw: &str) -> Option<(BalancerAt, Option<usize>, Option<usize>)> {
    let h = parsed(raw);
    let host = h
        .headers
        .iter()
        .find(|x| x.name == "Host")
        .map(|x| std::str::from_utf8(x.value).unwrap())
        .unwrap();
    r.route(h.method.unwrap(), host, h.path.unwrap(), &h.headers, LOCAL)
        .map(|at| (at.balancer, at.route, at.domain))
}

fn refusal(r: &FastRouter, raw: &str, ip: &IpAddr) -> Option<Refusal> {
    let head = parsed(raw);
    judge_head(
        r,
        &head,
        ip,
        LOCAL,
        1000,
        1,
        &mut JwtCache::new(),
        &mut RateLimiter::new(),
    )
    .err()
}

fn client() -> IpAddr {
    IpAddr::v4(10, 1, 2, 3)
}

#[test]
fn most_specific_domain_wins() {
    let mut yc = file();
    let mut any = domain(".*");
    any.default = servers(&["any:1"]);
    let mut own = domain("api.example.com");
    own.default = servers(&["own:1"]);
    yc.domains = Some(vec![any, own]);
    let r = router(&yc);
    let at = |host: &str| r.route("GET", host, "/", &[], LOCAL).map(|a| a.domain);
    assert_eq!(at("api.example.com"), Some(Some(1)));
    assert_eq!(at("api.example.com:8443"), Some(Some(1)));
    assert_eq!(at("other"), Some(Some(0)));
    assert_eq!(
        r.route("GET", "other", "/", &[], "127.0.0.1:1").map(|a| a.domain),
        None
    );
}

#[test]
fn routes_are_tried_in_order() {
    let mut yc = file();
    yc.default = servers(&["g:1"]);
    let mut d = domain("example.com");
    let mut bare = route("/shared");
    bare.backends = None;
    d.routes = vec![route("/api/v1"), route("/api"), bare];
    yc.domains = Some(vec![d]);
    let r = router(&yc);
    assert_eq!(
        places(&r, &get("/api/v1/x", "")),
        Some((BalancerAt::Route, Some(0), Some(0)))
    );
    assert_eq!(
        places(&r, &get("/api/v2", "")),
        Some((BalancerAt::Route, Some(1), Some(0)))
    );
    assert_eq!(
        places(&r, &get("/shared", "")),
        Some((BalancerAt::Global, Some(2), Some(0)))
    );
    assert_eq!(
        places(&r, &get("/", "")),
        Some((BalancerAt::Global, None, None))
    );
}

#[test]
fn domain_default_takes_what_no_route_does() {
    let mut yc = file();
    let mut d = domain("example.com");
    d.default = servers(&["d:1"]);
    let mut bare = route("/bare");
    bare.backends = None;
    d.routes = vec![bare];
    yc.domains = Some(vec![d]);
    let r = router(&yc);
    assert_eq!(
        places(&r, &get("/bare", "")),
        Some((BalancerAt::Domain, Some(0), Some(0)))
    );
    assert_eq!(
        places(&r, &get("/", "")),
        Some((BalancerAt::Domain, None, Some(0)))
    );
    assert!(r.route("GET", "elsewhere", "/", &[], LOCAL).is_none());
}

#[test]
fn filters_of_a_route() {
    let mut x = route("/");
    x.method = text("get, HEAD");
    x.header = text("X-A, x-b");
    x.absent_header = text("X-No");
    x.cookie = text("session=1");
    x.query = text("v=2");
    let r = router_with(x);
    let good = "X-A: 1\r\nX-B: 2\r\nCookie: a=b; session=1\r\n";
    let is_taken = |raw: &str| places(&r, raw).is_some();
    assert!(is_taken(&get("/?v=2", good)));
    assert!(is_taken(&get("/?a&v=2", good)));
    assert!(!is_taken(&get("/?v=3", good)));
    assert!(!is_taken(&get("/", good)));
    assert!(!is_taken(&get("/?v=2", "X-A: 1\r\nCookie: session=1\r\n")));
    assert!(!is_taken(&get(
        "/?v=2",
        "X-A: 1\r\nX-B: 2\r\nCookie: session=2\r\n"
    )));
    assert!(!is_taken(&get("/?v=2", &format!("{good}x-no: 1\r\n"))));
    assert!(!is_taken(
        &get("/?v=2", good).replace("GET", "POST")
    ));
    assert!(is_taken(&get("/?v=2", good).replace("GET", "HEAD")));
    let state = &r.domains[0].routes[0].route;
    let h = parsed("GET / HTTP/1.1\r\nHost: a\r\n\r\n").headers;
    assert!(!FastRouter::check_filters("GET", "/?v=2", &h, state));
}

#[test]
fn query_values_are_decoded() {
    let mut x = route("/");
    x.query = text("name=a/b n=int");
    let r = router_with(x);
    assert!(places(&r, &get("/?name=a/b&n=-7", "")).is_some());
    assert!(places(&r, &get("/?n=7&na%6De=a%2Fb", "")).is_some());
    assert!(places(&r, &get("/?name=ab&n=7", "")).is_none());
    assert!(places(&r, &get("/?name=a/b&n=seven", "")).is_none());
}

#[test]
fn post_fields_are_decoded() {
    assert!(post_conditions_hold("kind=x/y", Some(b"a=1&kind=x%2Fy")));
    assert!(!post_conditions_hold("kind=x/y", Some(b"kind=xy")));
    assert!(!post_conditions_hold("kind=x", None));
    assert!(post_conditions_hold("kind", Some(b"kind=")));
}

#[test]
fn rules_of_each_sort() {
    let rule = |rule_type: ValidateType, name: &str, regex: Option<&str>, invert: bool| {
        YamlValidateRule {
            rule_type,
            name: name.to_string(),
            regex: regex.map(|s| s.to_string()),
            invert,
            on_fail: None,
        }
    };
    let mut x = route("/");
    x.validate = Some(vec![
        rule(ValidateType::Header, "X-Key", Some("^[a-z]+$"), false),
        rule(ValidateType::Cookie, "sid", Some("^7"), false),
        rule(ValidateType::Query, "q", None, false),
        rule(ValidateType::Post, "p", Some("^1$"), true),
    ]);
    let r = router_with(x);
    let rules = &r.domains[0].routes[0].validate;
    let head = get("/?q", "x-key: abc\r\nCookie: a=1; sid=77\r\n");
    let hs = parsed(&head).headers;
    let body = b"p=2".to_vec();
    for rule in rules.iter() {
        assert!(rule_matches(rule, &hs, "/?q", Some(&body)) != rule.invert);
    }
    assert_eq!(failed_rule(rules, &hs, "/?q", Some(&body)), None);
    assert_eq!(failed_rule(rules, &hs, "/?q", None), None);
    let bad = b"p=1".to_vec();
    assert_eq!(failed_rule(rules, &hs, "/?q", Some(&bad)), Some(3));
    assert_eq!(failed_rule(rules, &hs, "/?z", Some(&bad)), Some(2));
    let other = get("/", "x-key: abc\r\nCookie: sid=1\r\n");
    assert_eq!(
        failed_rule(rules, &parsed(&other).headers, "/?q", None),
        Some(1)
    );
    let other = get("/", "x-key: ABC\r\n");
    assert_eq!(
        failed_rule(rules, &parsed(&other).headers, "/?q", None),
        Some(0)
    );
}

#[test]
fn malformed_requests_are_refused_first() {
    let mut yc = file();
    yc.default = servers(&["g:1"]);
    yc.deny_ip = texts(&["0.0.0.0/0"]);
    let r = router(&yc);
    let bad = |raw: &str| refusal(&r, raw, &client());
    assert_eq!(bad("GET / HTTP/1.1\r\n\r\n"), Some(Refusal::BadRequest));
    assert_eq!(bad(&get("/page#section", "")), Some(Refusal::BadRequest));
    assert_eq!(
        bad(&get("/", "Content-Length: 1\r\nContent-Length: 2\r\n")),
        Some(Refusal::BadRequest)
    );
    assert_eq!(bad(&get("/", "")), Some(Refusal::Forbidden));
}

#[test]
fn requests_that_nothing_serves() {
    let r = router_with(route("/api"));
    assert_eq!(refusal(&r, &get("/", ""), &client()), Some(Refusal::NoRoute));
    assert_eq!(refusal(&r, &get("/api", ""), &client()), None);
}

#[test]
fn path_traversal_does_not_pass_an_address_list() {
    let mut admin = route("/admin");
    admin.deny_ip = texts(&["10.0.0.0/8"]);
    let mut d = domain("example.com");
    d.routes = vec![admin, route("/")];
    let mut yc = file();
    yc.domains = Some(vec![d]);
    let on = router(&yc);
    for target in ["/admin", "/x/../admin", "/%2e%2e/admin", "/x/%2E%2e/admin"] {
        assert_eq!(
            refusal(&on, &get(target, ""), &client()),
            Some(Refusal::Forbidden)
        );
        assert_eq!(refusal(&on, &get(target, ""), &IpAddr::v4(11, 0, 0, 1)), None);
    }
    assert_eq!(
        refusal(&on, &get("/pub#/../admin", ""), &client()),
        Some(Refusal::BadRequest)
    );
    yc.normalize_path = Some(false);
    let off = router(&yc);
    assert_eq!(refusal(&off, &get("/x/../admin", ""), &client()), None);
}

#[test]
fn encoded_slashes_are_refused_on_request() {
    let mut yc = file();
    yc.default = servers(&["g:1"]);
    assert_eq!(refusal(&router(&yc), &get("/a%2Fb", ""), &client()), None);
    yc.reject_encoded_slash = Some(true);
    assert_eq!(
        refusal(&router(&yc), &get("/a%2Fb", ""), &client()),
        Some(Refusal::BadRequest)
    );
}

#[test]
fn inner_lists_take_the_place_of_outer_ones() {
    let mut yc = file();
    yc.allow_ip = texts(&["192.168.0.0/16"]);
    yc.jwt_secret = text("outer");
    let mut d = domain("example.com");
    d.allow_ip = texts(&["10.0.0.0/8"]);
    let mut open = route("/open");
    open.allow_ip = texts(&["0.0.0.0/0", "::/0"]);
    d.routes = vec![open, route("/")];
    yc.domains = Some(vec![d]);
    let r = router(&yc);
    let d = &r.domains[0];
    let p = effective_policy(Some(&d.routes[0]), Some(d), &r.cfg);
    assert!(any_contains(p.allow.unwrap(), &IpAddr::v4(8, 8, 8, 8)));
    assert_eq!(p.jwt_secret.unwrap(), "outer");
    let p = effective_policy(Some(&d.routes[1]), Some(d), &r.cfg);
    assert!(any_contains(p.allow.unwrap(), &client()));
    assert!(!any_contains(p.allow.unwrap(), &IpAddr::v4(8, 8, 8, 8)));
    let p = effective_policy(None, None, &r.cfg);
    assert!(any_contains(p.allow.unwrap(), &IpAddr::v4(192, 168, 1, 1)));
    assert!(!any_contains(p.allow.unwrap(), &client()));
    assert!(p.deny.is_none());
}

#[test]
fn tokens_are_asked_for() {
    let mut x = route("/");
    x.jwt_secret = text("s");
    let r = router_with(x);
    assert_eq!(
        refusal(&r, &get("/", ""), &client()),
        Some(Refusal::Unauthorized)
    );
    assert_eq!(
        refusal(&r, &get("/", "Authorization: Bearer a.b.c\r\n"), &client()),
        Some(Refusal::Unauthorized)
    );
}

#[test]
fn rate_limit_holds_for_a_second() {
    let mut x = route("/");
    x.rate_limit = Some(2);
    let r = router_with(x);
    let raw = get("/", "");
    let head = parsed(&raw);
    let mut tokens = JwtCache::new();
    let mut limiter = RateLimiter::new();
    let mut ask = |now_secs: u64| {
        judge_head(
            &r,
            &head,
            &client(),
            LOCAL,
            now_secs,
            1,
            &mut tokens,
            &mut limiter,
        )
        .err()
    };
    assert_eq!(ask(10), None);
    assert_eq!(ask(10), None);
    assert_eq!(ask(10), Some(Refusal::RateLimited));
    assert_eq!(ask(11), None);
}

fn admitted<'a>(r: &FastRouter, raw: &'a str) -> rproxy::request::Admitted<'a> {
    let head = parsed(raw);
    match judge_head(
        r,
        &head,
        &client(),
        LOCAL,
        1,
        1,
        &mut JwtCache::new(),
        &mut RateLimiter::new(),
    ) {
        Ok(a) => a,
        Err(e) => panic!("refused: {:?}", e),
    }
}

#[test]
fn what_is_known_of_an_admitted_request() {
    let mut x = route("/");
    x.post = text("a=1");
    let r = router_with(x);
    let raw = "POST /x/../y?q HTTP/1.1\r\nHost: example.com:81\r\nContent-Length: 3\r\n\r\n";
    let a = admitted(&r, raw);
    assert_eq!(a.host, "example.com:81");
    assert_eq!(a.target, "/y?q");
    assert_eq!(a.clen, 3);
    assert!(!a.is_chunked);
    assert!(a.keep_alive);
    assert!(a.read_body);
    let raw = "POST / HTTP/1.1\r\nHost: example.com\r\nConnection: close\r\nTransfer-Encoding: chunked\r\n\r\n";
    let a = admitted(&r, raw);
    assert!(a.is_chunked);
    assert!(!a.keep_alive);
    assert_eq!(a.clen, 0);
    let raw = get("/a", "");
    assert!(!admitted(&router_with(route("/")), &raw).read_body);
}

#[test]
fn bodies_are_limited_twice() {
    let mut x = route("/");
    x.max_body_size = Some(3);
    let r = router_with(x.clone());
    let raw = "POST / HTTP/1.1\r\nHost: example.com\r\nContent-Length: 4\r\n\r\n";
    let a = admitted(&r, raw);
    assert_eq!(
        judge_body(&r, &a, &parsed(raw).headers, None, 0, 1),
        Judgement::Refused(Refusal::TooLarge)
    );
    x.post = text("a=1");
    let r = router_with(x);
    assert_eq!(refusal(&r, raw, &client()), Some(Refusal::TooLarge));
}

#[test]
fn bodies_that_are_judged() {
    let mut x = route("/");
    x.post = text("a=1");
    let r = router_with(x);
    let raw = "POST / HTTP/1.1\r\nHost: example.com\r\nContent-Length: 3\r\n\r\n";
    let a = admitted(&r, raw);
    let hs = parsed(raw).headers;
    assert_eq!(
        judge_body(&r, &a, &hs, Some(&b"a=2".to_vec()), 0, 1),
        Judgement::Refused(Refusal::PostRejected)
    );
    assert_eq!(
        judge_body(&r, &a, &hs, Some(&b"a=1".to_vec()), 0, 1),
        Judgement::Forward(ServedBy::Routed(BalancerAt::Route))
    );
}

#[test]
fn rules_answer_or_send_elsewhere() {
    let rule = |name: &str, on_fail: YamlValidateFail| YamlValidateRule {
        rule_type: ValidateType::Header,
        name: name.to_string(),
        regex: None,
        invert: false,
        on_fail: Some(on_fail),
    };
    let mut x = route("/");
    x.validate = Some(vec![
        rule(
            "X-A",
            YamlValidateFail {
                status: Some(422),
                body: text("no"),
                backends: None,
            },
        ),
        rule(
            "X-B",
            YamlValidateFail {
                status: None,
                body: None,
                backends: servers(&["other:1"]),
            },
        ),
    ]);
    let r = router_with(x);
    let judged = |raw: &str| judge_body(&r, &admitted(&r, raw), &parsed(raw).headers, None, 0, 1);
    assert_eq!(judged(&get("/", "")), Judgement::RuleAnswer(0));
    assert_eq!(
        judged(&get("/", "X-A: 1\r\n")),
        Judgement::Forward(ServedBy::Rule(1))
    );
    assert_eq!(
        judged(&get("/", "X-A: 1\r\nX-B: 1\r\n")),
        Judgement::Forward(ServedBy::Routed(BalancerAt::Route))
    );
    let first = &r.domains[0].routes[0].validate[0];
    let answer = String::from_utf8(first.on_fail.precomputed_resp.clone()).unwrap();
    assert!(answer.starts_with("HTTP/1.1 422 "));
    assert!(answer.ends_with("\r\n\r\nno"));
    assert_eq!(
        rule_tally(first),
        Tally {
            status: Some(422),
            drop: Some(DropCounter::Rule),
            bytes_tx: first.on_fail.precomputed_resp.len() as u64,
        }
    );
}

#[test]
fn load_sheds_marked_routes() {
    let mut x = route("/");
    x.drop_threshold = Some(80);
    let mut d = domain("example.com");
    d.routes = vec![x];
    let mut yc = file();
    yc.max_active_requests = Some(5);
    yc.domains = Some(vec![d]);
    let r = router(&yc);
    let raw = get("/", "");
    let a = admitted(&r, &raw);
    let hs = parsed(&raw).headers;
    let judged = |cpu: u8, active: usize| judge_body(&r, &a, &hs, None, cpu, active);
    assert_eq!(judged(81, 1), Judgement::Refused(Refusal::QosDrop));
    assert_eq!(judged(80, 6), Judgement::Refused(Refusal::QosDrop));
    assert_eq!(
        judged(80, 5),
        Judgement::Forward(ServedBy::Routed(BalancerAt::Route))
    );
}

#[test]
fn settings_come_from_the_nearest_place() {
    let mut yc = file();
    yc.client_timeout = Some(11);
    yc.max_body_size = Some(100);
    yc.backend_pool_size = Some(4);
    yc.log_level = text("warn");
    yc.default = servers(&["g:1"]);
    yc.cache = Some(YamlRouteCache {
        ttl: 9,
        max_size: None,
        respect_headers: None,
    });
    let mut d = domain("example.com");
    d.client_timeout = Some(22);
    d.log_level = text("debug");
    let mut x = route("/x");
    x.max_body_size = Some(5);
    x.backend_pool_size = Some(1);
    x.log_level = text("error");
    d.routes = vec![x, route("/")];
    yc.domains = Some(vec![d]);
    let r = router(&yc);
    let at = |target: &str| r.route("GET", "example.com", target, &[], LOCAL).unwrap();
    assert_eq!(
        settings(&r, &at("/x")),
        Settings {
            client_timeout: 22,
            max_body_size: 5,
            pool_size: 1,
            log_level: 1,
        }
    );
    assert_eq!(
        settings(&r, &at("/")),
        Settings {
            client_timeout: 22,
            max_body_size: 100,
            pool_size: 4,
            log_level: 4,
        }
    );
    let global = r.route("GET", "else", "/", &[], LOCAL).unwrap();
    assert_eq!(
        settings(&r, &global),
        Settings {
            client_timeout: 11,
            max_body_size: 100,
            pool_size: 4,
            log_level: 2,
        }
    );
    assert_eq!(route_cache(&r, &at("/x")).unwrap().ttl, 9);
    assert!(route_cache(&r, &global).is_none());
    assert!(route_at(&r, &at("/x")).is_some());
    assert!(route_at(&r, &global).is_none());
    assert!(domain_at(&r, &global).is_none());
}

#[test]
fn injected_headers_come_from_the_nearest_place() {
    let mut yc = file();
    yc.default = servers(&["g:1"]);
    yc.set_headers = pairs(&[("X-G", "1")]);
    let mut d = domain("example.com");
    d.set_headers = pairs(&[("X-D", "1")]);
    let mut x = route("/x");
    x.set_headers = pairs(&[("X-R", "1")]);
    d.routes = vec![x, route("/")];
    yc.domains = Some(vec![d]);
    let r = router(&yc);
    let names = |host: &str, target: &str| {
        let at: Routed = r.route("GET", host, target, &[], LOCAL).unwrap();
        injected_headers(&r, &at).1.clone()
    };
    assert_eq!(names("example.com", "/x"), vec![b"X-R".to_vec()]);
    assert_eq!(names("example.com", "/"), vec![b"X-D".to_vec()]);
    assert_eq!(names("other", "/"), vec![b"X-G".to_vec()]);
}

#[test]
fn answers_to_refused_requests() {
    let all = [
        (Refusal::Busy, "503", Some(503), None),
        (Refusal::HeadTooLarge, "431", None, None),
        (Refusal::BadRequest, "400", None, None),
        (Refusal::NoRoute, "502", None, None),
        (Refusal::Forbidden, "403", Some(403), Some(DropCounter::Ip)),
        (Refusal::Unauthorized, "401", Some(401), Some(DropCounter::Jwt)),
        (Refusal::RateLimited, "429", Some(429), Some(DropCounter::RateLimit)),
        (Refusal::TooLarge, "413", Some(413), None),
        (Refusal::PostRejected, "403", Some(403), Some(DropCounter::Rule)),
        (Refusal::QosDrop, "503", Some(503), Some(DropCounter::Qos)),
        (Refusal::BadGateway, "502", Some(502), None),
    ];
    for (r, code, status, drop) in all {
        let answer = r.response();
        assert!(answer.starts_with(&format!("HTTP/1.1 {code} ")));
        assert!(answer.contains("\r\nConnection: close\r\n"));
        let t = r.tally();
        assert_eq!(t.status, status);
        assert_eq!(t.drop, drop);
        let counted = r == Refusal::QosDrop || r == Refusal::BadGateway;
        assert_eq!(t.bytes_tx, if counted { answer.len() as u64 } else { 0 });
    }
}

#[test]
fn heads_and_their_room() {
    assert!(over_capacity(11, 10));
    assert!(!over_capacity(10, 10));
    assert_eq!(partial_head(100, 100), Some(Refusal::HeadTooLarge));
    assert_eq!(partial_head(99, 100), None);
    assert_eq!(
        make_room(0, 5, 10),
        Room {
            compact: false,
            grow: 0,
        }
    );
    assert!(make_room(4, 10, 10).compact);
    assert!(make_room(0, 10, 10).grow > 0);
    assert_eq!(request_target(true, "/a/./b?c"), "/a/b?c");
    assert_eq!(request_target(true, "/é/../ü%7E/"), "/ü~/");
    assert_eq!(request_target(true, "*"), "*");
    assert_eq!(request_target(false, "/a/./b?c"), "/a/./b?c");
}

#[test]
fn a_body_is_read_in_pieces() {
    let (mut b, used) = BodyReader::new(b"abcNEXT", 3);
    assert_eq!(used, 3);
    assert_eq!(b.next(), None);
    assert_eq!(b.body, b"abc");
    assert!(!b.received(b""));
    let (mut b, used) = BodyReader::new(b"ab", 5);
    assert_eq!(used, 2);
    assert_eq!(b.next(), Some(3));
    assert!(b.received(b"c"));
    assert_eq!(b.next(), Some(2));
    assert!(b.received(b"de"));
    assert_eq!(b.next(), None);
    assert_eq!(b.body, b"abcde");
}

#[test]
fn upgrades_are_noticed() {
    let ws = get("/", "Connection: keep-alive, Upgrade\r\nUpgrade: websocket\r\n");
    assert!(wants_upgrade(&parsed(&ws).headers));
    assert!(!wants_upgrade(&parsed(&get("/", "")).headers));
    assert!(upstream_keepalive(1, false));
    assert!(!upstream_keepalive(0, false));
    assert!(!upstream_keepalive(1, true));
}

#[test]
fn small_bodies_ride_with_the_head() {
    let mut x = b"HEAD----".to_vec();
    let (n, with) = combine(&mut x, 4, Some(b"body"));
    assert!(with);
    assert_eq!(&x[..n], b"HEADbody");
    let mut x = b"HEAD----".to_vec();
    assert_eq!(combine(&mut x, 4, None), (4, false));
    let large = vec![7u8; 100_000];
    assert_eq!(combine(&mut x, 4, Some(&large)), (4, false));
}

#[test]
fn a_router_starts_its_balancers_anew() {
    let r = router_with(route("/"));
    let b: &BalancerState = r.domains[0].routes[0].balancer.as_ref().unwrap();
    assert_eq!(b.rr_index, 0);
    assert_eq!(b.list.backends.len(), 1);
    assert_eq!(b.list.backends[0].addr, "r:1");
}
