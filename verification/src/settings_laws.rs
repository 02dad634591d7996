//! The settings of the file and what they come to.

use vstd::prelude::*;
use vstd::string::*;
use vstd::utf8::*;

use crate::config;
use crate::config::{
    Backend, BackendModel, Balance, Check, Config, Domain, DomainModel, HostEnv,
    HspecModel, InheritedModel, ListModel, Route, RouteCache, RouteModel, ValidateRule, YamlBackend,
    YamlConfig, YamlDomain, YamlRoute, YamlRouteCache, YamlValidateRule,
};
use crate::config_laws;
use crate::net;
use crate::net::IpNet;
use crate::text;
use crate::text_laws;

verus! {

/// A setting, or else what holds without it.
pub open spec fn set_or<T>(v: Option<T>, without: T) -> T {
    match v {
        Some(x) => x,
        None => without,
    }
}

// ---------------------------------------------------------------------------
// Backends
// ---------------------------------------------------------------------------

/// Whether a backend has the settings that its entry in the file gives, and where the entry gives
/// none those that it inherits: weight 1, and the certificate checked.
pub open spec fn as_written(b: BackendModel, yb: YamlBackend, connect: u64, response: u64) -> bool {
    match yb {
        YamlBackend::Simple(_) => {
            &&& b.weight == 1
            &&& b.connect_to == connect
            &&& b.response_to == response
            &&& !b.tls_skip_verify
        },
        YamlBackend::Detailed { host: _, connect: c, response: r, weight: w, tls_skip_verify: t } => {
            &&& b.weight == set_or(w, 1u32)
            &&& b.connect_to == set_or(c, connect)
            &&& b.response_to == set_or(r, response)
            &&& b.tls_skip_verify == set_or(t, false)
        },
    }
}

/// Each backend of a list has the settings of its own entry, in the order of the file, and the list
/// is balanced as was said.
pub proof fn law_backends_are_as_written(
    ybs: Seq<YamlBackend>,
    balance: Balance,
    connect: u64,
    response: u64,
    start: int,
)
    ensures
        ybs.len() == 0 <==> config::list_from(ybs, balance, connect, response, start) is None,
        ybs.len() > 0 ==> {
            let l = config::list_from(ybs, balance, connect, response, start)->0;
            &&& l.balance == balance
            &&& l.backends.len() == ybs.len()
            &&& forall|i: int|
                0 <= i < ybs.len() ==> as_written(
                    #[trigger] l.backends[i],
                    ybs[i],
                    connect,
                    response,
                ) && l.backends[i].slot == start + i
        },
{
}

/// The text that an entry gives for the address of a backend.
pub open spec fn address_of(yb: YamlBackend) -> Option<Seq<char>> {
    match yb {
        YamlBackend::Simple(s) => Some(s@),
        YamlBackend::Detailed { host: Some(h), .. } => Some(h@),
        _ => None,
    }
}

/// An address `name:port` is reached at that name and port; `https://` before it asks for TLS, and
/// `http://` for none.
pub proof fn law_address_is_name_and_port(
    yb: YamlBackend,
    connect: u64,
    response: u64,
    id: int,
    name: Seq<char>,
    port: u16,
)
    requires
        !name.contains(':'),
    ensures
        ({
            let b = config::backend_model(yb, connect, response, id);
            let plain = name + seq![':'] + text::decimal(port as nat);
            let there = b.host == name && b.port == port && b.addr == plain;
            &&& address_of(yb) == Some(plain) ==> there && !b.tls
            &&& address_of(yb) == Some("https://"@ + plain) ==> there && b.tls
            &&& address_of(yb) == Some("http://"@ + plain) ==> there && !b.tls
        }),
{
    let plain = name + seq![':'] + text::decimal(port as nat);
    reveal_strlit("https://");
    reveal_strlit("http://");
    reveal_strlit(":");
    assert(":"@ =~= seq![':']);
    lemma_no_scheme(name, port as nat, "https://"@, 5);
    lemma_no_scheme(name, port as nat, "http://"@, 4);
    let s = "https://"@ + plain;
    let h = "http://"@ + plain;
    assert(s.subrange(0, 8) =~= "https://"@);
    assert(h.subrange(0, 7) =~= "http://"@);
    assert(s.skip(8) =~= plain);
    assert(h.skip(7) =~= plain);
    assert(!("https://"@.is_prefix_of(h))) by {
        if "https://"@.is_prefix_of(h) {
            assert(h.subrange(0, 8)[4] == "https://"@[4]);
        }
    }
    assert(config::strip_all(plain, "https://"@) == plain);
    assert(config::strip_all(plain, "http://"@) == plain);
    assert(config::strip_all(s, "https://"@) == plain);
    assert(config::strip_all(h, "http://"@) == plain);
    let n = name.len() as int;
    assert forall|i: int| 0 <= i < n implies plain[i] != ':' by {
        assert(plain[i] == name[i]);
        assert(name.contains(name[i]));
    }
    text::lemma_find_is(plain, ':', n);
    assert(plain.take(n) =~= name);
    assert(plain.skip(n + 1) =~= text::decimal(port as nat));
    text_laws::law_decimal_reads_back(port as nat, 65535);
}

/// A name without a colon, a colon and a number do not begin with a scheme.
proof fn lemma_no_scheme(name: Seq<char>, n: nat, scheme: Seq<char>, at: int)
    requires
        !name.contains(':'),
        0 <= at,
        scheme.len() == at + 3,
        scheme[at] == ':',
        scheme[at + 1] == '/',
        forall|i: int| 0 <= i < at ==> scheme[i] != ':',
    ensures
        !scheme.is_prefix_of(name + seq![':'] + text::decimal(n)),
{
    let plain = name + seq![':'] + text::decimal(n);
    lemma_digits(n);
    let k = name.len() as int;
    if scheme.is_prefix_of(plain) {
        let begin = plain.subrange(0, scheme.len() as int);
        assert(begin == scheme);
        assert(plain[at] == begin[at]);
        assert(plain[at + 1] == begin[at + 1]);
        assert(plain[k] == ':');
        if at < k {
            assert(name[at] == ':');
            assert(name.contains(name[at]));
        } else if at > k {
            assert(plain[k] == begin[k]);
        } else {
            assert(plain[at + 1] == text::decimal(n)[0]);
        }
    }
}

proof fn lemma_digits(n: nat)
    ensures
        text::decimal(n).len() > 0,
        forall|i: int| 0 <= i < text::decimal(n).len() ==> '0' <= #[trigger] text::decimal(n)[i] <= '9',
    decreases n,
{
    if n >= 10 {
        lemma_digits(n / 10);
    }
}

/// Every backend of the file is loaded as its entry says, and where the entry says nothing as its
/// route says, or its domain, or the file as a whole; at last a connection may take 5 seconds and a
/// response 30.
pub proof fn law_backends_inherit_their_times(
    yc: YamlConfig,
    host: HostEnv,
    start: int,
    m: u64,
    j: int,
    k: int,
)
    requires
        0 <= j < config::domains_of(yc).len(),
        0 <= k < config::domains_of(yc)[j].routes@.len(),
    ensures
        ({
            let c = config::config_model(yc, host, start, m);
            let yd = config::domains_of(yc)[j];
            let yr = yd.routes@[k];
            let connect = set_or(yc.connect, 5u64);
            let response = set_or(yc.response, 30u64);
            let d_connect = set_or(yd.connect, connect);
            let d_response = set_or(yd.response, response);
            let r_connect = set_or(yr.connect, d_connect);
            let r_response = set_or(yr.response, d_response);
            &&& list_as_written(c.def, yc.default, connect, response)
            &&& list_as_written(c.domains[j].def, yd.default, d_connect, d_response)
            &&& list_as_written(c.domains[j].routes[k].bl, yr.backends, r_connect, r_response)
        }),
{
    let c = config::config_model(yc, host, start, m);
    let yds = config::domains_of(yc);
    let g = config::global_level(yc);
    let first = start + config::given(yc.default).len();
    config_laws::lemma_domain_at(yds, g, c.listen, c.tls_listen, first, j);
    let yd = yds[j];
    let d = config::domain_level(yd, g);
    config_laws::lemma_route_at(
        yd.routes@,
        d,
        first + config::domains_count(yds.take(j)) + config::given(yd.default).len(),
        config::routes_total(yds.take(j)) as int,
        k,
    );
}

/// Whether a list holds a backend for each entry, as it is written.
pub open spec fn list_as_written(
    l: Option<ListModel>,
    entries: Option<Vec<YamlBackend>>,
    connect: u64,
    response: u64,
) -> bool {
    match entries {
        Some(v) if v@.len() > 0 => {
            &&& l is Some
            &&& l->0.backends.len() == v@.len()
            &&& forall|i: int|
                0 <= i < v@.len() ==> as_written(
                    #[trigger] l->0.backends[i],
                    v@[i],
                    connect,
                    response,
                )
        },
        _ => l is None,
    }
}

/// A list is balanced as its route says, or else its domain, or else the file as a whole, and round
/// robin where nothing is said.
pub proof fn law_balance_is_inherited(
    yc: YamlConfig,
    host: HostEnv,
    start: int,
    m: u64,
    j: int,
    k: int,
)
    requires
        0 <= j < config::domains_of(yc).len(),
        0 <= k < config::domains_of(yc)[j].routes@.len(),
    ensures
        ({
            let c = config::config_model(yc, host, start, m);
            let yd = config::domains_of(yc)[j];
            let yr = yd.routes@[k];
            let l = c.domains[j].routes[k].bl;
            &&& l is Some && yr.balance is Some ==> l->0.balance
                == config::balance_of(yr.balance->0@)->0
            &&& l is Some && yr.balance is None && yd.balance is Some ==> l->0.balance
                == config::balance_of(yd.balance->0@)->0
            &&& l is Some && yr.balance is None && yd.balance is None && yc.balance is Some
                ==> l->0.balance == config::balance_of(yc.balance->0@)->0
            &&& l is Some && yr.balance is None && yd.balance is None && yc.balance is None
                ==> l->0.balance == Balance::RoundRobin
        }),
{
    law_backends_inherit_their_times(yc, host, start, m, j, k);
    let c = config::config_model(yc, host, start, m);
    let yds = config::domains_of(yc);
    let g = config::global_level(yc);
    let first = start + config::given(yc.default).len();
    config_laws::lemma_domain_at(yds, g, c.listen, c.tls_listen, first, j);
    let yd = yds[j];
    let d = config::domain_level(yd, g);
    config_laws::lemma_route_at(
        yd.routes@,
        d,
        first + config::domains_count(yds.take(j)) + config::given(yd.default).len(),
        config::routes_total(yds.take(j)) as int,
        k,
    );
}

/// The names of the ways to balance, in either case; anything else is none.
pub proof fn law_balance_names(s: Seq<char>)
    ensures
        ({
            let b = encode_utf8(s);
            &&& text::eq_ci(b, "roundrobin".spec_bytes()) || text::eq_ci(
                b,
                "round_robin".spec_bytes(),
            ) || text::eq_ci(b, "rr".spec_bytes()) <==> config::balance_of(s) == Some(
                Balance::RoundRobin,
            )
            &&& text::eq_ci(b, "random".spec_bytes()) <==> config::balance_of(s) == Some(
                Balance::Random,
            )
            &&& text::eq_ci(b, "first".spec_bytes()) <==> config::balance_of(s) == Some(
                Balance::First,
            )
            &&& text::eq_ci(b, "leastconn".spec_bytes()) <==> config::balance_of(s) == Some(
                Balance::Leastconn,
            )
            &&& text::eq_ci(b, "weighted".spec_bytes()) <==> config::balance_of(s) == Some(
                Balance::Weighted,
            )
            &&& text::eq_ci(b, "iphash".spec_bytes()) <==> config::balance_of(s) == Some(
                Balance::Iphash,
            )
            &&& text::eq_ci(b, "urlhash".spec_bytes()) <==> config::balance_of(s) == Some(
                Balance::Urlhash,
            )
        }),
{
    let b = encode_utf8(s);
    reveal_strlit("roundrobin");
    reveal_strlit("round_robin");
    reveal_strlit("rr");
    reveal_strlit("random");
    reveal_strlit("first");
    reveal_strlit("leastconn");
    reveal_strlit("weighted");
    reveal_strlit("iphash");
    reveal_strlit("urlhash");
    assert("roundrobin".is_ascii());
    assert("round_robin".is_ascii());
    assert("rr".is_ascii());
    assert("random".is_ascii());
    assert("first".is_ascii());
    assert("leastconn".is_ascii());
    assert("weighted".is_ascii());
    assert("iphash".is_ascii());
    assert("urlhash".is_ascii());
    let x = "random".spec_bytes();
    let y = "iphash".spec_bytes();
    assert(x[0] == 114 && y[0] == 105);
    if text::eq_ci(b, x) {
        assert(text::lower(b[0]) == text::lower(x[0]));
    }
    if text::eq_ci(b, y) {
        assert(text::lower(b[0]) == text::lower(y[0]));
    }
}

/// The names of the log levels, in either case; anything else is `info`.
pub proof fn law_log_levels(s: Seq<char>)
    ensures
        ({
            let b = encode_utf8(s);
            let l = config::log_level_of(s);
            &&& l == 1 <==> text::eq_ci(b, "error".spec_bytes())
            &&& l == 2 <==> text::eq_ci(b, "warn".spec_bytes())
            &&& l == 4 <==> text::eq_ci(b, "debug".spec_bytes())
            &&& l == 5 <==> text::eq_ci(b, "trace".spec_bytes())
            &&& l == 0 <==> text::eq_ci(b, "none".spec_bytes()) || text::eq_ci(
                b,
                "off".spec_bytes(),
            )
            &&& l == 3 || l == 1 || l == 2 || l == 4 || l == 5 || l == 0
        }),
{
    let b = encode_utf8(s);
    reveal_strlit("error");
    reveal_strlit("warn");
    reveal_strlit("info");
    reveal_strlit("debug");
    reveal_strlit("trace");
    reveal_strlit("none");
    reveal_strlit("off");
    assert("error".is_ascii());
    assert("warn".is_ascii());
    assert("info".is_ascii());
    assert("debug".is_ascii());
    assert("trace".is_ascii());
    assert("none".is_ascii());
    assert("off".is_ascii());
    let e = "error".spec_bytes();
    let w = "warn".spec_bytes();
    let i = "info".spec_bytes();
    let d = "debug".spec_bytes();
    let t = "trace".spec_bytes();
    let n = "none".spec_bytes();
    assert(e[0] == 101 && w[0] == 119 && i[0] == 105 && d[0] == 100 && t[0] == 116 && n[0] == 110);
    if text::eq_ci(b, e) {
        assert(text::lower(b[0]) == text::lower(e[0]));
    }
    if text::eq_ci(b, w) {
        assert(text::lower(b[0]) == text::lower(w[0]));
    }
    if text::eq_ci(b, i) {
        assert(text::lower(b[0]) == text::lower(i[0]));
    }
    if text::eq_ci(b, d) {
        assert(text::lower(b[0]) == text::lower(d[0]));
    }
    if text::eq_ci(b, t) {
        assert(text::lower(b[0]) == text::lower(t[0]));
    }
    if text::eq_ci(b, n) {
        assert(text::lower(b[0]) == text::lower(n[0]));
    }
}

// ---------------------------------------------------------------------------
// The file as a whole
// ---------------------------------------------------------------------------

/// What a text setting comes to: itself.
pub open spec fn same_text(v: Option<Seq<char>>, s: Option<String>) -> bool {
    match s {
        Some(t) => v == Some(t@),
        None => v is None,
    }
}

/// Every setting of the file as a whole is taken over as it is written, and has its default where it
/// is not.
pub proof fn law_settings_are_taken_over(yc: YamlConfig, host: HostEnv, start: int, m: u64)
    ensures
        ({
            let c = config::config_model(yc, host, start, m);
            &&& c.listen == (match yc.listen {
                Some(l) => l@.map_values(|s: String| s@),
                None => seq!["0.0.0.0:80"@],
            })
            &&& c.tls_listen == (match yc.tls_listen {
                Some(l) => l@.map_values(|s: String| s@),
                None => seq![],
            })
            &&& same_text(c.listen_iface, yc.listen_iface)
            &&& yc.tls_cert is Some ==> same_text(c.tls_cert, yc.tls_cert)
            &&& yc.tls_cert is None ==> same_text(c.tls_cert, host.tls_cert_path)
            &&& yc.tls_key is Some ==> same_text(c.tls_key, yc.tls_key)
            &&& yc.tls_key is None ==> same_text(c.tls_key, host.tls_key_path)
            &&& same_text(c.metrics_listen, yc.metrics_listen)
            &&& yc.metrics_path is Some ==> same_text(c.metrics_path, yc.metrics_path)
            &&& yc.metrics_path is None ==> c.metrics_path == Some("/metrics"@)
            &&& same_text(c.metrics_token, yc.metrics_token)
            &&& same_text(c.metrics_basic_auth, yc.metrics_basic_auth)
            &&& c.cache_max_bytes == set_or(yc.cache_max_bytes, 104857600usize)
            &&& c.client_timeout == set_or(yc.client_timeout, 60u64)
            &&& c.max_body_size == set_or(yc.max_body_size, 2097152u64)
            &&& c.max_headers_size == set_or(yc.max_headers_size, 8192u64)
            &&& c.max_active_requests == set_or(yc.max_active_requests, 10000usize)
            &&& c.normalize_path == set_or(yc.normalize_path, true)
            &&& c.reject_encoded_slash == set_or(yc.reject_encoded_slash, false)
            &&& c.backend_pool_size == set_or(yc.backend_pool_size, 16usize)
            &&& same_text(c.cpu_affinity, yc.cpu_affinity)
            &&& same_text(c.sqpoll, yc.sqpoll)
            &&& c.sqpoll_idle_ms == yc.sqpoll_idle_ms
            &&& same_text(c.uring_flags, yc.uring_flags)
            &&& same_text(c.jwt_secret, yc.jwt_secret)
            &&& yc.worker_lifetime == Some(0u64) ==> c.worker_lifetime is None
            &&& yc.worker_lifetime != Some(0u64) ==> c.worker_lifetime == yc.worker_lifetime
            &&& yc.worker_max_requests == Some(0u64) ==> c.worker_max_requests is None
            &&& yc.worker_max_requests != Some(0u64) ==> c.worker_max_requests
                == yc.worker_max_requests
            &&& yc.worker_drain matches Some(n) ==> c.worker_drain == n
            &&& yc.set_headers matches Some(h) ==> c.set_headers == Some(h@)
            &&& yc.set_headers is None ==> c.set_headers is None
            &&& yc.log_level is None ==> c.log_level == 3
            &&& yc.log_level matches Some(s) ==> c.log_level == config::log_level_of(s@)
            &&& same_nets(c.allow_ip, yc.allow_ip)
            &&& same_nets(c.deny_ip, yc.deny_ip)
            &&& same_cache(c.cache, yc.cache)
        }),
{
    let c = config::config_model(yc, host, start, m);
    if let Some(l) = yc.listen {
        assert(c.listen =~= l@.map_values(|s: String| s@));
    }
    if let Some(l) = yc.tls_listen {
        assert(c.tls_listen =~= l@.map_values(|s: String| s@));
    }
}

/// What a list of networks comes to: each network, in the order of the file.
pub open spec fn same_nets(v: Option<Seq<IpNet>>, l: Option<Vec<String>>) -> bool {
    match l {
        Some(ts) => v matches Some(ns) && ns.len() == ts@.len() && forall|i: int|
            0 <= i < ns.len() ==> #[trigger] ns[i] == net::parsed_net(ts@[i]@)->0,
        None => v is None,
    }
}

/// What a cache setting comes to: the time as written, a limit of one mebibyte where none is given,
/// and conditional requests heeded only where that is said.
pub open spec fn same_cache(v: Option<RouteCache>, y: Option<YamlRouteCache>) -> bool {
    match y {
        Some(c) => v matches Some(r) && r.ttl == c.ttl && r.max_size == set_or(
            c.max_size,
            1048576usize,
        ) && r.respect_headers == set_or(c.respect_headers, false),
        None => v is None,
    }
}

/// As many workers run as the file says, or as there are threads where it says `auto` or nothing
/// that is a number, but at least 1 and at most 256.
pub proof fn law_number_of_workers(setting: Option<String>, host: HostEnv, n: nat)
    requires
        setting matches Some(s) && s@ == text::decimal(n),
        n <= usize::MAX,
    ensures
        config::workers_of(setting, host) == (if n > 256 {
            256
        } else if n == 0 {
            1
        } else {
            n as int
        }),
        config::workers_of(None, host) == (match host.parallelism {
            Some(k) => if k > 256 {
                256
            } else if k == 0 {
                1
            } else {
                k as int
            },
            None => 4,
        }),
{
    text_laws::law_decimal_reads_back(n, usize::MAX as nat);
    lemma_digits(n);
    reveal_strlit("auto");
    assert(text::decimal(n)[0] != "auto"@[0]);
}

// ---------------------------------------------------------------------------
// Routes and domains
// ---------------------------------------------------------------------------

/// The comma-separated parts of a setting, without the blanks around them.
pub open spec fn listed(v: Option<Seq<Seq<char>>>, s: Option<String>) -> bool {
    match s {
        Some(t) => v == Some(text::split(t@, ',').map_values(|p: Seq<char>| text::trim(p))),
        None => v is None,
    }
}

/// A route asks for what the file says that it asks for.
pub proof fn law_route_is_as_written(yr: YamlRoute, d: InheritedModel, start: int, id: int)
    ensures
        ({
            let r = config::route_model(yr, d, start, id);
            &&& r.re == yr.match_@
            &&& same_text(r.post, yr.post)
            &&& same_text(r.query, yr.query)
            &&& listed(r.header, yr.header)
            &&& listed(r.absent_header, yr.absent_header)
            &&& listed(r.cookie, yr.cookie)
            &&& yr.method is None <==> r.method is None
            &&& yr.method matches Some(t) ==> r.method == Some(
                text::split(t@, ',').map_values(|p: Seq<char>| text::uppercase(text::trim(p))),
            )
            &&& r.rate_limit == yr.rate_limit
            &&& yr.drop_threshold matches Some(p) ==> r.drop_threshold == Some(
                if p <= 100 {
                    p
                } else {
                    100u8
                },
            )
            &&& yr.drop_threshold is None ==> r.drop_threshold is None
            &&& yr.log_level matches Some(s) ==> r.log_level == Some(config::log_level_of(s@))
            &&& yr.log_level is None ==> r.log_level is None
            &&& yr.set_headers matches Some(h) ==> r.set_headers == Some(h@)
            &&& yr.set_headers is None ==> r.set_headers is None
            &&& r.client_timeout == set_or(yr.client_timeout, d.client_timeout)
            &&& r.max_body_size == set_or(yr.max_body_size, d.max_body_size)
            &&& r.backend_pool_size == set_or(yr.backend_pool_size, d.backend_pool_size)
            &&& yr.jwt_secret is Some ==> same_text(r.jwt_secret, yr.jwt_secret)
            &&& yr.jwt_secret is None ==> r.jwt_secret == d.jwt_secret
            &&& yr.allow_ip is Some ==> same_nets(r.allow_ip, yr.allow_ip)
            &&& yr.allow_ip is None ==> r.allow_ip == d.allow_ip
            &&& yr.deny_ip is Some ==> same_nets(r.deny_ip, yr.deny_ip)
            &&& yr.deny_ip is None ==> r.deny_ip == d.deny_ip
            &&& yr.cache is Some ==> same_cache(r.cache, yr.cache)
            &&& yr.cache is None ==> r.cache == d.cache
        }),
{
    let r = config::route_model(yr, d, start, id);
    let f = |p: Seq<char>| text::trim(p);
    if let Some(t) = yr.header {
        assert(r.header->0 =~= text::split(t@, ',').map_values(f));
    }
    if let Some(t) = yr.absent_header {
        assert(r.absent_header->0 =~= text::split(t@, ',').map_values(f));
    }
    if let Some(t) = yr.cookie {
        assert(r.cookie->0 =~= text::split(t@, ',').map_values(f));
    }
    if let Some(t) = yr.method {
        assert(r.method->0 =~= text::split(t@, ',').map_values(
            |p: Seq<char>| text::uppercase(text::trim(p)),
        ));
    }
}

/// A domain has what the file says of it, and hands down what the file as a whole says where it says
/// nothing.
pub proof fn law_domain_is_as_written(
    yd: YamlDomain,
    g: InheritedModel,
    listen: Seq<Seq<char>>,
    tls_listen: Seq<Seq<char>>,
    start: int,
    id: int,
)
    ensures
        ({
            let d = config::domain_model(yd, g, listen, tls_listen, start, id);
            &&& d.re == yd.match_@
            &&& yd.listen matches Some(l) ==> d.listen == l@.map_values(|s: String| s@)
            &&& yd.listen is None ==> d.listen == listen
            &&& yd.tls_listen matches Some(l) ==> d.tls_listen == l@.map_values(|s: String| s@)
            &&& yd.tls_listen is None ==> d.tls_listen == tls_listen
            &&& same_text(d.tls_cert, yd.tls_cert)
            &&& same_text(d.tls_key, yd.tls_key)
            &&& yd.tls_sni matches Some(l) ==> d.tls_sni == Some(l@.map_values(|s: String| s@))
            &&& yd.tls_sni is None ==> d.tls_sni is None
            &&& yd.set_headers matches Some(h) ==> d.set_headers == Some(h@)
            &&& yd.set_headers is None ==> d.set_headers is None
            &&& d.client_timeout == set_or(yd.client_timeout, g.client_timeout)
            &&& d.max_body_size == set_or(yd.max_body_size, g.max_body_size)
            &&& d.backend_pool_size == Some(set_or(yd.backend_pool_size, g.backend_pool_size))
            &&& yd.log_level matches Some(s) ==> d.log_level == Some(config::log_level_of(s@))
            &&& yd.log_level is None ==> d.log_level is None
            &&& yd.jwt_secret is Some ==> same_text(d.jwt_secret, yd.jwt_secret)
            &&& yd.jwt_secret is None ==> d.jwt_secret == g.jwt_secret
            &&& yd.allow_ip is Some ==> same_nets(d.allow_ip, yd.allow_ip)
            &&& yd.allow_ip is None ==> d.allow_ip == g.allow_ip
            &&& yd.deny_ip is Some ==> same_nets(d.deny_ip, yd.deny_ip)
            &&& yd.deny_ip is None ==> d.deny_ip == g.deny_ip
            &&& yd.cache is Some ==> same_cache(d.cache, yd.cache)
            &&& yd.cache is None ==> d.cache == g.cache
        }),
{
    let d = config::domain_model(yd, g, listen, tls_listen, start, id);
    let f = |s: String| s@;
    if let Some(l) = yd.listen {
        assert(d.listen =~= l@.map_values(f));
    }
    if let Some(l) = yd.tls_listen {
        assert(d.tls_listen =~= l@.map_values(f));
    }
    if let Some(l) = yd.tls_sni {
        assert(d.tls_sni->0 =~= l@.map_values(f));
    }
}

/// A rule is what the file says; where it says nothing of a failure the answer is 403 with
/// `Forbidden`.
pub proof fn law_rule_is_as_written(
    v: YamlValidateRule,
    balance: Balance,
    connect: u64,
    response: u64,
    start: int,
)
    ensures
        ({
            let r = config::rule_model(v, balance, connect, response, start);
            &&& r.rule_type == v.rule_type
            &&& r.name == v.name@
            &&& same_text(r.regex, v.regex)
            &&& r.invert == v.invert
            &&& v.on_fail is None ==> r.status == 403 && r.body == "Forbidden\n"@ && r.backends is None
            &&& v.on_fail matches Some(f) ==> {
                &&& r.status == set_or(f.status, 403u16)
                &&& f.body matches Some(b) ==> r.body == b@
                &&& f.body is None ==> r.body == "Forbidden\n"@
                &&& list_as_written(r.backends, f.backends, connect, response)
            }
        }),
{
}

// ---------------------------------------------------------------------------
// Health checks
// ---------------------------------------------------------------------------

/// A health check asks for `/` every 5 seconds, waits 2, and takes 2 successes or 3 failures in a
/// row, unless a word says otherwise; each word sets what it names and nothing else, the last one
/// last.
pub proof fn law_health_words(ws: Seq<Seq<char>>, value: Seq<char>, n: nat)
    requires
        n <= i32::MAX,
    ensures
        config::hspec_of(seq![]) == (HspecModel {
            path: "/"@,
            interval: 5,
            timeout: 2,
            rise: 2,
            fall: 3,
        }),
        config::hspec_of(ws.push("path="@ + value)) == (HspecModel {
            path: value,
            ..config::hspec_of(ws)
        }),
        config::hspec_of(ws.push("interval="@ + text::decimal(n))) == (HspecModel {
            interval: n as u64,
            ..config::hspec_of(ws)
        }),
        config::hspec_of(ws.push("timeout="@ + text::decimal(n))) == (HspecModel {
            timeout: n as u64,
            ..config::hspec_of(ws)
        }),
        config::hspec_of(ws.push("rise="@ + text::decimal(n))) == (HspecModel {
            rise: n as i32,
            ..config::hspec_of(ws)
        }),
        config::hspec_of(ws.push("fall="@ + text::decimal(n))) == (HspecModel {
            fall: n as i32,
            ..config::hspec_of(ws)
        }),
{
    reveal_strlit("path");
    reveal_strlit("interval");
    reveal_strlit("timeout");
    reveal_strlit("rise");
    reveal_strlit("fall");
    reveal_strlit("path=");
    reveal_strlit("interval=");
    reveal_strlit("timeout=");
    reveal_strlit("rise=");
    reveal_strlit("fall=");
    text_laws::law_decimal_reads_back(n, u64::MAX as nat);
    text_laws::law_decimal_reads_back(n, i32::MAX as nat);
    let d = text::decimal(n);
    assert("path="@ =~= "path"@ + seq!['=']);
    assert("interval="@ =~= "interval"@ + seq!['=']);
    assert("timeout="@ =~= "timeout"@ + seq!['=']);
    assert("rise="@ =~= "rise"@ + seq!['=']);
    assert("fall="@ =~= "fall"@ + seq!['=']);
    lemma_key_value("path"@, value);
    lemma_key_value("interval"@, d);
    lemma_key_value("timeout"@, d);
    lemma_key_value("rise"@, d);
    lemma_key_value("fall"@, d);
    assert(ws.push("path="@ + value).drop_last() =~= ws);
    assert(ws.push("interval="@ + d).drop_last() =~= ws);
    assert(ws.push("timeout="@ + d).drop_last() =~= ws);
    assert(ws.push("rise="@ + d).drop_last() =~= ws);
    assert(ws.push("fall="@ + d).drop_last() =~= ws);
    assert("rise"@[0] != "path"@[0]);
    assert("fall"@[0] != "path"@[0]);
    assert("fall"@[0] != "rise"@[0]);
    lemma_decimal_is_no_sign(n);
}

proof fn lemma_decimal_is_no_sign(n: nat)
    ensures
        text::decimal_bytes(n).len() > 0,
        text::decimal_bytes(n)[0] != 45,
{
    text_laws::law_decimal_reads_back(n, n);
    if text::decimal_bytes(n).len() > 0 {
        assert(48 <= text::decimal_bytes(n)[0]);
    }
}

proof fn lemma_key_value(key: Seq<char>, value: Seq<char>)
    requires
        !key.contains('='),
    ensures
        ({
            let w = key + seq!['='] + value;
            &&& text::find(w, '=') == key.len()
            &&& w.take(key.len() as int) == key
            &&& w.skip(key.len() as int + 1) == value
        }),
{
    let w = key + seq!['='] + value;
    assert forall|i: int| 0 <= i < key.len() implies w[i] != '=' by {
        assert(w[i] == key[i]);
        assert(key.contains(key[i]));
    }
    text::lemma_find_is(w, '=', key.len() as int);
    assert(w.take(key.len() as int) =~= key);
    assert(w.skip(key.len() as int + 1) =~= value);
}

/// The health check of a domain is its own, or else that of the file as a whole.
pub proof fn law_health_is_inherited(yc: YamlConfig, yd: YamlDomain)
    ensures
        ({
            let g = config::global_level(yc);
            let d = config::domain_level(yd, g);
            &&& yd.health matches Some(s) ==> d.health == Some(config::hspec_of(text::words(s@)))
            &&& yd.health is None ==> d.health == g.health
            &&& yc.health matches Some(s) ==> g.health == Some(config::hspec_of(text::words(s@)))
            &&& yc.health is None ==> g.health is None
        }),
{
}

/// Every backend of the file's and of a domain's default, and of every route, is checked, as the
/// file or the domain says.
pub proof fn law_backends_are_checked(
    yc: YamlConfig,
    host: HostEnv,
    start: int,
    m: u64,
    j: int,
    k: int,
    i: int,
)
    requires
        0 <= j < config::domains_of(yc).len(),
        0 <= k < config::domains_of(yc)[j].routes@.len(),
    ensures
        ({
            let c = config::config_model(yc, host, start, m);
            let cs = config::config_checks(yc, c);
            let g = config::global_level(yc).health;
            let h = config::domain_level(
                config::domains_of(yc)[j],
                config::global_level(yc),
            ).health;
            let d = c.domains[j];
            &&& c.def matches Some(l) ==> (0 <= i < l.backends.len() ==> cs.contains(
                (l.backends[i], g),
            ))
            &&& d.def matches Some(l) ==> (0 <= i < l.backends.len() ==> cs.contains(
                (l.backends[i], h),
            ))
            &&& d.routes[k].bl matches Some(l) ==> (0 <= i < l.backends.len() ==> cs.contains(
                (l.backends[i], h),
            ))
        }),
{
    let c = config::config_model(yc, host, start, m);
    let yds = config::domains_of(yc);
    let gl = config::global_level(yc);
    let first = start + config::given(yc.default).len();
    config_laws::lemma_domain_at(yds, gl, c.listen, c.tls_listen, first, j);
    let d = c.domains[j];
    config_laws::lemma_route_at(
        yds[j].routes@,
        config::domain_level(yds[j], gl),
        first + config::domains_count(yds.take(j)) + config::given(yds[j].default).len(),
        config::routes_total(yds.take(j)) as int,
        k,
    );
    let own = config::list_checks(c.def, gl.health);
    let all = config::domains_checks(yds, c.domains, gl);
    let h = config::domain_level(yds[j], gl).health;
    if let Some(l) = c.def {
        if 0 <= i < l.backends.len() {
            assert(own[i] == (l.backends[i], gl.health));
            lemma_in_sum(own, all, (l.backends[i], gl.health));
        }
    }
    let ds = config::list_checks(d.def, h);
    let rs = config::routes_checks(d.routes, h);
    if let Some(l) = d.def {
        if 0 <= i < l.backends.len() {
            let x = (l.backends[i], h);
            assert(ds[i] == x);
            lemma_in_sum(ds, rs, x);
            lemma_domain_is_checked(yds, c.domains, gl, j, x);
            lemma_in_sum(own, all, x);
        }
    }
    if let Some(l) = d.routes[k].bl {
        if 0 <= i < l.backends.len() {
            let x = (l.backends[i], h);
            assert(config::list_checks(d.routes[k].bl, h)[i] == x);
            lemma_route_is_checked(d.routes, h, k, x);
            lemma_in_sum(ds, rs, x);
            lemma_domain_is_checked(yds, c.domains, gl, j, x);
            lemma_in_sum(own, all, x);
        }
    }
}

proof fn lemma_in_sum(a: Seq<Check>, b: Seq<Check>, x: Check)
    requires
        a.contains(x) || b.contains(x),
    ensures
        (a + b).contains(x),
{
    if a.contains(x) {
        let i = choose|i: int| 0 <= i < a.len() && a[i] == x;
        assert((a + b)[i] == x);
    } else {
        let i = choose|i: int| 0 <= i < b.len() && b[i] == x;
        assert((a + b)[a.len() + i] == x);
    }
}

proof fn lemma_route_is_checked(rs: Seq<RouteModel>, h: Option<HspecModel>, k: int, x: Check)
    requires
        0 <= k < rs.len(),
        config::list_checks(rs[k].bl, h).contains(x),
    ensures
        config::routes_checks(rs, h).contains(x),
    decreases rs.len(),
{
    if k < rs.len() - 1 {
        lemma_route_is_checked(rs.drop_last(), h, k, x);
    }
    lemma_in_sum(
        config::routes_checks(rs.drop_last(), h),
        config::list_checks(rs.last().bl, h),
        x,
    );
}

proof fn lemma_domain_is_checked(
    yds: Seq<YamlDomain>,
    ds: Seq<DomainModel>,
    g: InheritedModel,
    j: int,
    x: Check,
)
    requires
        yds.len() == ds.len(),
        0 <= j < ds.len(),
        config::domain_checks(ds[j], config::domain_level(yds[j], g).health).contains(x),
    ensures
        config::domains_checks(yds, ds, g).contains(x),
    decreases yds.len(),
{
    if j < ds.len() - 1 {
        lemma_domain_is_checked(yds.drop_last(), ds.drop_last(), g, j, x);
    }
    lemma_in_sum(
        config::domains_checks(yds.drop_last(), ds.drop_last(), g),
        config::domain_checks(ds.last(), config::domain_level(yds.last(), g).health),
        x,
    );
}

// ---------------------------------------------------------------------------
// What is said of a configuration is said of its fields
// ---------------------------------------------------------------------------

/// A backend is what its fields are.
pub proof fn law_backend_is_its_fields(b: Backend)
    ensures
        b@.response_to == b.response_to,
        b@.host == b.host@,
        b@.port == b.port,
        b@.addr == b.addr@,
        b@.connect_to == b.connect_to,
        b@.weight == b.weight,
        b@.id == b.id,
        b@.tls == b.tls,
        b@.tls_skip_verify == b.tls_skip_verify,
        b@.slot == b.state.slot(),
{
}

/// So is a rule.
pub proof fn law_rule_is_its_fields(r: ValidateRule)
    ensures
        r@.rule_type == r.rule_type,
        r@.name == r.name@,
        r@.invert == r.invert,
        r@.status == r.on_fail.status,
        r@.body == r.on_fail.body@,
        r.regex is Some == r@.regex is Some,
        r.regex matches Some(p) ==> r@.regex == Some(p@),
        r.on_fail.backends is Some == r@.backends is Some,
        r.on_fail.backends matches Some(l) ==> r@.backends == Some(l@),
{
}

/// So is a route.
pub proof fn law_route_is_its_fields(r: Route)
    ensures
        r@.re == r.re@,
        r@.client_timeout == r.client_timeout,
        r@.max_body_size == r.max_body_size,
        r@.drop_threshold == r.drop_threshold,
        r@.rate_limit == r.rate_limit,
        r@.log_level == r.log_level,
        r@.backend_pool_size == r.backend_pool_size,
        r@.cache == r.cache,
        r@.id == r.id,
        same_text(r@.jwt_secret, r.jwt_secret),
        same_text(r@.post, r.post),
        same_text(r@.query, r.query),
        r.allow_ip matches Some(n) ==> r@.allow_ip == Some(n@),
        r.allow_ip is None ==> r@.allow_ip is None,
        r.deny_ip matches Some(n) ==> r@.deny_ip == Some(n@),
        r.deny_ip is None ==> r@.deny_ip is None,
        r.bl matches Some(l) ==> r@.bl == Some(l@),
        r.bl is None ==> r@.bl is None,
        r@.validate.len() == r.validate@.len(),
        forall|i: int| 0 <= i < r.validate@.len() ==> #[trigger] r@.validate[i] == r.validate@[i]@,
{
}

/// So is a domain.
pub proof fn law_domain_is_its_fields(d: Domain)
    ensures
        d@.re == d.re@,
        d@.client_timeout == d.client_timeout,
        d@.max_body_size == d.max_body_size,
        d@.log_level == d.log_level,
        d@.backend_pool_size == d.backend_pool_size,
        d@.cache == d.cache,
        same_text(d@.jwt_secret, d.jwt_secret),
        same_text(d@.tls_cert, d.tls_cert),
        same_text(d@.tls_key, d.tls_key),
        d.allow_ip matches Some(n) ==> d@.allow_ip == Some(n@),
        d.allow_ip is None ==> d@.allow_ip is None,
        d.deny_ip matches Some(n) ==> d@.deny_ip == Some(n@),
        d.deny_ip is None ==> d@.deny_ip is None,
        d.def matches Some(l) ==> d@.def == Some(l@),
        d.def is None ==> d@.def is None,
        d@.routes.len() == d.routes@.len(),
        forall|i: int| 0 <= i < d.routes@.len() ==> #[trigger] d@.routes[i] == d.routes@[i]@,
        d@.listen.len() == d.listen@.len(),
        forall|i: int| 0 <= i < d.listen@.len() ==> #[trigger] d@.listen[i] == d.listen@[i]@,
        d@.tls_listen.len() == d.tls_listen@.len(),
        forall|i: int|
            0 <= i < d.tls_listen@.len() ==> #[trigger] d@.tls_listen[i] == d.tls_listen@[i]@,
{
}

/// So is a configuration.
pub proof fn law_config_is_its_fields(c: Config)
    ensures
        c@.cache == c.cache,
        c@.cache_max_bytes == c.cache_max_bytes,
        c@.client_timeout == c.client_timeout,
        c@.max_body_size == c.max_body_size,
        c@.max_headers_size == c.max_headers_size,
        c@.has_qos == c.has_qos,
        c@.max_active_requests == c.max_active_requests,
        c@.normalize_path == c.normalize_path,
        c@.reject_encoded_slash == c.reject_encoded_slash,
        c@.log_level == c.log_level,
        c@.workers == c.workers,
        c@.backend_pool_size == c.backend_pool_size,
        c@.sqpoll_idle_ms == c.sqpoll_idle_ms,
        c@.worker_lifetime == c.worker_lifetime,
        c@.worker_max_requests == c.worker_max_requests,
        c@.worker_drain == c.worker_drain,
        same_text(c@.jwt_secret, c.jwt_secret),
        same_text(c@.listen_iface, c.listen_iface),
        same_text(c@.tls_cert, c.tls_cert),
        same_text(c@.tls_key, c.tls_key),
        same_text(c@.metrics_listen, c.metrics_listen),
        same_text(c@.metrics_path, c.metrics_path),
        same_text(c@.metrics_token, c.metrics_token),
        same_text(c@.metrics_basic_auth, c.metrics_basic_auth),
        c.allow_ip matches Some(n) ==> c@.allow_ip == Some(n@),
        c.allow_ip is None ==> c@.allow_ip is None,
        c.deny_ip matches Some(n) ==> c@.deny_ip == Some(n@),
        c.deny_ip is None ==> c@.deny_ip is None,
        c.def matches Some(l) ==> c@.def == Some(l@),
        c.def is None ==> c@.def is None,
        c@.domains.len() == c.domains@.len(),
        forall|i: int| 0 <= i < c.domains@.len() ==> #[trigger] c@.domains[i] == c.domains@[i]@,
        c@.listen.len() == c.listen@.len(),
        forall|i: int| 0 <= i < c.listen@.len() ==> #[trigger] c@.listen[i] == c.listen@[i]@,
{
}

/// A number of a check that cannot be read leaves that number at its default.
pub proof fn law_unreadable_health_numbers(s: Seq<char>, d: u64, e: i32)
    ensures
        text::parse_unsigned(encode_utf8(s), 10, u64::MAX as nat) is None ==> config::u64_or(s, d) == d,
        text::parse_unsigned(encode_utf8(s), 10, u64::MAX as nat) matches Some(n) ==> (n <= u64::MAX
            ==> config::u64_or(s, d) == n),
        text::parse_signed(encode_utf8(s), i32::MAX as nat) is None ==> config::i32_or(s, e) == e,
        text::parse_signed(encode_utf8(s), i32::MAX as nat) matches Some(n) ==> (i32::MIN <= n
            <= i32::MAX ==> config::i32_or(s, e) == n),
{
}

/// A word of a check sets the one number that it names, by its value or its default, and any other
/// word changes nothing.
pub proof fn law_health_word_by_word(h: HspecModel, value: Seq<char>)
    ensures
        config::hspec_step(h, "path="@ + value) == (HspecModel { path: value, ..h }),
        config::hspec_step(h, "interval="@ + value) == (HspecModel {
            interval: config::u64_or(value, 5),
            ..h
        }),
        config::hspec_step(h, "timeout="@ + value) == (HspecModel {
            timeout: config::u64_or(value, 2),
            ..h
        }),
        config::hspec_step(h, "rise="@ + value) == (HspecModel { rise: config::i32_or(value, 2), ..h }),
        config::hspec_step(h, "fall="@ + value) == (HspecModel { fall: config::i32_or(value, 3), ..h }),
        !value.contains('=') ==> config::hspec_step(h, value) == h,
{
    reveal_strlit("path=");
    reveal_strlit("interval=");
    reveal_strlit("timeout=");
    reveal_strlit("rise=");
    reveal_strlit("fall=");
    reveal_strlit("path");
    reveal_strlit("interval");
    reveal_strlit("timeout");
    reveal_strlit("rise");
    reveal_strlit("fall");
    lemma_key_value("path"@, value);
    lemma_key_value("interval"@, value);
    lemma_key_value("timeout"@, value);
    lemma_key_value("rise"@, value);
    lemma_key_value("fall"@, value);
    assert("path"@ + seq!['='] =~= "path="@);
    assert("interval"@ + seq!['='] =~= "interval="@);
    assert("timeout"@ + seq!['='] =~= "timeout="@);
    assert("rise"@ + seq!['='] =~= "rise="@);
    assert("fall"@ + seq!['='] =~= "fall="@);
    assert("rise"@[0] == 'r' && "fall"@[0] == 'f' && "path"@[0] == 'p');
    text::lemma_find(value, '=');
    if text::find(value, '=') < value.len() {
        assert(value.contains(value[text::find(value, '=')]));
    }
}

} // verus!
