//! Configuration: the values of a configuration file, and what they come to.
//!
//! A [`YamlConfig`] holds a file as it is written. [`ConfigLoader::load`] checks it, hands
//! settings down from the whole to domains, from domains to routes and from routes to backends,
//! and numbers backends and routes.

use std::collections::HashMap;

use vstd::prelude::*;
use vstd::string::*;
use vstd::utf8::*;

use crate::net;
use crate::net::{parse_net, IpNet};
use crate::pattern;
use crate::pattern::Pattern;
use crate::shared::{SharedMemory, SharedState};
use crate::text;
use crate::text::{
    append_decimal, plus, quoted, read_i32, read_unsigned, split_once, split_str, split_words,
    str_eq, str_eq_ci, strip_prefix, to_uppercase, trim_str,
};

verus! {

// ---------------------------------------------------------------------------
// The file
// ---------------------------------------------------------------------------

/// The part of a request that a validate rule looks at.
#[derive(Debug, Clone, Copy, PartialEq, Eq, Structural)]
pub enum ValidateType {
    Header,
    Cookie,
    Query,
    Post,
}

/// What the file says about a failed rule.
#[derive(Debug, Clone)]
pub struct YamlValidateFail {
    pub status: Option<u16>,
    pub body: Option<String>,
    pub backends: Option<Vec<YamlBackend>>,
}

/// What the file says about a validate rule.
#[derive(Debug, Clone)]
pub struct YamlValidateRule {
    pub rule_type: ValidateType,
    pub name: String,
    pub regex: Option<String>,
    pub invert: bool,
    pub on_fail: Option<YamlValidateFail>,
}

/// What the file says about a backend: its address alone, or with settings.
#[derive(Debug, Clone)]
pub enum YamlBackend {
    Simple(String),
    Detailed {
        host: Option<String>,
        connect: Option<u64>,
        response: Option<u64>,
        weight: Option<u32>,
        tls_skip_verify: Option<bool>,
    },
}

/// What the file says about caching.
#[derive(Debug, Clone)]
pub struct YamlRouteCache {
    pub ttl: u64,
    pub max_size: Option<usize>,
    pub respect_headers: Option<bool>,
}

/// What the file says about a route.
#[derive(Debug, Clone)]
pub struct YamlRoute {
    pub match_: String,
    pub backends: Option<Vec<YamlBackend>>,
    pub method: Option<String>,
    pub header: Option<String>,
    pub absent_header: Option<String>,
    pub query: Option<String>,
    pub cookie: Option<String>,
    pub balance: Option<String>,
    pub connect: Option<u64>,
    pub response: Option<u64>,
    pub set_headers: Option<HashMap<String, String>>,
    pub validate: Option<Vec<YamlValidateRule>>,
    pub client_timeout: Option<u64>,
    pub max_body_size: Option<u64>,
    pub drop_threshold: Option<u8>,
    pub rate_limit: Option<u32>,
    pub allow_ip: Option<Vec<String>>,
    pub deny_ip: Option<Vec<String>>,
    pub jwt_secret: Option<String>,
    pub cache: Option<YamlRouteCache>,
    pub post: Option<String>,
    pub log_level: Option<String>,
    pub backend_pool_size: Option<usize>,
}

/// What the file says about a domain.
#[derive(Debug, Clone)]
pub struct YamlDomain {
    pub match_: String,
    pub routes: Vec<YamlRoute>,
    pub default: Option<Vec<YamlBackend>>,
    pub balance: Option<String>,
    pub health: Option<String>,
    pub connect: Option<u64>,
    pub response: Option<u64>,
    pub set_headers: Option<HashMap<String, String>>,
    pub client_timeout: Option<u64>,
    pub max_body_size: Option<u64>,
    pub allow_ip: Option<Vec<String>>,
    pub deny_ip: Option<Vec<String>>,
    pub jwt_secret: Option<String>,
    pub cache: Option<YamlRouteCache>,
    pub log_level: Option<String>,
    pub backend_pool_size: Option<usize>,
    pub listen: Option<Vec<String>>,
    pub tls_listen: Option<Vec<String>>,
    pub tls_cert: Option<String>,
    pub tls_key: Option<String>,
    /// Host names for the certificate, where they cannot be had from `match_`.
    pub tls_sni: Option<Vec<String>>,
}

/// The whole file.
#[derive(Debug, Clone)]
pub struct YamlConfig {
    pub listen: Option<Vec<String>>,
    pub tls_listen: Option<Vec<String>>,
    pub listen_iface: Option<String>,
    pub balance: Option<String>,
    pub health: Option<String>,
    pub default: Option<Vec<YamlBackend>>,
    pub set_headers: Option<HashMap<String, String>>,
    pub metrics_listen: Option<String>,
    pub metrics_path: Option<String>,
    pub metrics_token: Option<String>,
    /// `user:password` for the metrics.
    pub metrics_basic_auth: Option<String>,
    /// Bytes that the response cache of each worker may hold.
    pub cache_max_bytes: Option<usize>,
    pub domains: Option<Vec<YamlDomain>>,
    pub client_timeout: Option<u64>,
    pub max_body_size: Option<u64>,
    pub max_headers_size: Option<u64>,
    pub max_active_requests: Option<usize>,
    pub normalize_path: Option<bool>,
    pub reject_encoded_slash: Option<bool>,
    pub connect: Option<u64>,
    pub response: Option<u64>,
    pub tls_cert: Option<String>,
    pub tls_key: Option<String>,
    pub log_level: Option<String>,
    pub allow_ip: Option<Vec<String>>,
    pub deny_ip: Option<Vec<String>>,
    pub jwt_secret: Option<String>,
    pub cache: Option<YamlRouteCache>,
    pub workers: Option<String>,
    pub backend_pool_size: Option<usize>,
    pub cpu_affinity: Option<String>,
    pub sqpoll: Option<String>,
    pub sqpoll_idle_ms: Option<u32>,
    pub uring_flags: Option<String>,
    pub worker_lifetime: Option<u64>,
    pub worker_max_requests: Option<u64>,
    pub worker_drain: Option<u64>,
}

// ---------------------------------------------------------------------------
// The configuration
// ---------------------------------------------------------------------------

/// How a request picks its backend.
#[derive(Debug, Clone, Copy, PartialEq, Eq, Structural)]
pub enum Balance {
    RoundRobin,
    Random,
    First,
    Leastconn,
    Weighted,
    Iphash,
    Urlhash,
}

/// How a backend is checked. Times are in seconds.
#[derive(Debug)]
pub struct Hspec {
    pub path: String,
    pub interval: u64,
    pub timeout: u64,
    pub rise: i32,
    pub fall: i32,
}

/// What an [`Hspec`] holds.
pub struct HspecModel {
    pub path: Seq<char>,
    pub interval: u64,
    pub timeout: u64,
    pub rise: i32,
    pub fall: i32,
}

impl View for Hspec {
    type V = HspecModel;

    open spec fn view(&self) -> HspecModel {
        HspecModel {
            path: self.path@,
            interval: self.interval,
            timeout: self.timeout,
            rise: self.rise,
            fall: self.fall,
        }
    }
}

impl Clone for Hspec {
    fn clone(&self) -> (r: Self)
        ensures
            r == *self,
    {
        Hspec {
            path: self.path.clone(),
            interval: self.interval,
            timeout: self.timeout,
            rise: self.rise,
            fall: self.fall,
        }
    }
}

/// A server that requests are forwarded to. Times are in seconds.
#[derive(Debug)]
pub struct Backend {
    pub response_to: u64,
    pub host: String,
    pub port: u16,
    pub addr: String,
    pub connect_to: u64,
    pub weight: u32,
    pub id: usize,
    pub tls: bool,
    /// Whether the certificate of the backend goes unchecked.
    pub tls_skip_verify: bool,
    pub state: SharedState,
}

/// What a [`Backend`] holds.
pub struct BackendModel {
    pub response_to: u64,
    pub host: Seq<char>,
    pub port: u16,
    pub addr: Seq<char>,
    pub connect_to: u64,
    pub weight: u32,
    pub id: usize,
    pub tls: bool,
    pub tls_skip_verify: bool,
    pub slot: int,
}

impl View for Backend {
    type V = BackendModel;

    open spec fn view(&self) -> BackendModel {
        BackendModel {
            response_to: self.response_to,
            host: self.host@,
            port: self.port,
            addr: self.addr@,
            connect_to: self.connect_to,
            weight: self.weight,
            id: self.id,
            tls: self.tls,
            tls_skip_verify: self.tls_skip_verify,
            slot: self.state.slot(),
        }
    }
}

impl Clone for Backend {
    fn clone(&self) -> (r: Self)
        ensures
            r == *self,
    {
        Backend {
            response_to: self.response_to,
            host: self.host.clone(),
            port: self.port,
            addr: self.addr.clone(),
            connect_to: self.connect_to,
            weight: self.weight,
            id: self.id,
            tls: self.tls,
            tls_skip_verify: self.tls_skip_verify,
            state: self.state,
        }
    }
}

/// Backends and how to pick one of them.
#[derive(Debug)]
pub struct BackendList {
    pub backends: Vec<Backend>,
    pub balance: Balance,
}

/// What a [`BackendList`] holds.
pub struct ListModel {
    pub backends: Seq<BackendModel>,
    pub balance: Balance,
}

/// What some backends hold.
pub open spec fn backend_models(bs: Seq<Backend>) -> Seq<BackendModel> {
    Seq::new(bs.len(), |i: int| bs[i]@)
}

impl View for BackendList {
    type V = ListModel;

    open spec fn view(&self) -> ListModel {
        ListModel { backends: backend_models(self.backends@), balance: self.balance }
    }
}

/// What an optional list of backends holds.
pub open spec fn opt_list(l: Option<BackendList>) -> Option<ListModel> {
    match l {
        Some(b) => Some(b@),
        None => None,
    }
}

impl Clone for BackendList {
    fn clone(&self) -> (r: Self)
        ensures
            r.backends@ == self.backends@,
            r.balance == self.balance,
            r@ == self@,
    {
        let mut backends: Vec<Backend> = Vec::new();
        for i in 0..self.backends.len()
            invariant
                backends@ == self.backends@.take(i as int),
        {
            backends.push(self.backends[i].clone());
            assert(self.backends@.take(i + 1) =~= self.backends@.take(i as int).push(
                self.backends@[i as int],
            ));
        }
        assert(self.backends@.take(self.backends@.len() as int) =~= self.backends@);
        BackendList { backends, balance: self.balance }
    }
}

/// Same list once more, where there is one.
pub fn copy_list(l: &Option<BackendList>) -> (r: Option<BackendList>)
    ensures
        opt_list(r) == opt_list(*l),
        match (r, *l) {
            (Some(a), Some(b)) => a.backends@ == b.backends@ && a.balance == b.balance,
            (None, None) => true,
            _ => false,
        },
{
    match l {
        Some(b) => Some(b.clone()),
        None => None,
    }
}

/// How responses of a route are cached. `ttl` is in seconds, `max_size` in bytes.
#[derive(Debug, Clone, Copy, PartialEq, Eq, Structural)]
pub struct RouteCache {
    pub ttl: u64,
    pub max_size: usize,
    pub respect_headers: bool,
}

/// What becomes of a request that fails a rule.
pub struct ValidateFail {
    pub status: u16,
    pub body: String,
    pub backends: Option<BackendList>,
}

/// A validate rule.
pub struct ValidateRule {
    pub rule_type: ValidateType,
    pub name: String,
    pub regex: Option<Pattern>,
    pub invert: bool,
    pub on_fail: ValidateFail,
}

/// What a [`ValidateRule`] holds.
pub struct RuleModel {
    pub rule_type: ValidateType,
    pub name: Seq<char>,
    pub regex: Option<Seq<char>>,
    pub invert: bool,
    pub status: u16,
    pub body: Seq<char>,
    pub backends: Option<ListModel>,
}

/// The text of an optional pattern.
pub open spec fn opt_pattern(p: Option<Pattern>) -> Option<Seq<char>> {
    match p {
        Some(x) => Some(x@),
        None => None,
    }
}

impl View for ValidateRule {
    type V = RuleModel;

    open spec fn view(&self) -> RuleModel {
        RuleModel {
            rule_type: self.rule_type,
            name: self.name@,
            regex: opt_pattern(self.regex),
            invert: self.invert,
            status: self.on_fail.status,
            body: self.on_fail.body@,
            backends: opt_list(self.on_fail.backends),
        }
    }
}

/// What some rules hold.
pub open spec fn rule_models(rs: Seq<ValidateRule>) -> Seq<RuleModel> {
    Seq::new(rs.len(), |i: int| rs[i]@)
}

/// A route.
pub struct Route {
    pub allow_ip: Option<Vec<IpNet>>,
    pub deny_ip: Option<Vec<IpNet>>,
    pub jwt_secret: Option<String>,
    pub cache: Option<RouteCache>,
    pub post: Option<String>,
    pub re: Pattern,
    pub bl: Option<BackendList>,
    pub method: Option<Vec<String>>,
    pub header: Option<Vec<String>>,
    pub absent_header: Option<Vec<String>>,
    pub query: Option<String>,
    pub cookie: Option<Vec<String>>,
    pub set_headers: Option<HashMap<String, String>>,
    pub validate: Vec<ValidateRule>,
    pub client_timeout: u64,
    pub max_body_size: u64,
    pub drop_threshold: Option<u8>,
    pub rate_limit: Option<u32>,
    pub log_level: Option<u8>,
    pub backend_pool_size: usize,
    /// The number of the route, for rate limiting.
    pub id: usize,
}

/// What a [`Route`] holds.
pub struct RouteModel {
    pub allow_ip: Option<Seq<IpNet>>,
    pub deny_ip: Option<Seq<IpNet>>,
    pub jwt_secret: Option<Seq<char>>,
    pub cache: Option<RouteCache>,
    pub post: Option<Seq<char>>,
    pub re: Seq<char>,
    pub bl: Option<ListModel>,
    pub method: Option<Seq<Seq<char>>>,
    pub header: Option<Seq<Seq<char>>>,
    pub absent_header: Option<Seq<Seq<char>>>,
    pub query: Option<Seq<char>>,
    pub cookie: Option<Seq<Seq<char>>>,
    pub set_headers: Option<Map<String, String>>,
    pub validate: Seq<RuleModel>,
    pub client_timeout: u64,
    pub max_body_size: u64,
    pub drop_threshold: Option<u8>,
    pub rate_limit: Option<u32>,
    pub log_level: Option<u8>,
    pub backend_pool_size: usize,
    pub id: usize,
}

/// What an optional list of networks holds.
pub open spec fn opt_nets(v: Option<Vec<IpNet>>) -> Option<Seq<IpNet>> {
    match v {
        Some(n) => Some(n@),
        None => None,
    }
}

/// What an optional string holds.
pub open spec fn opt_text(v: Option<String>) -> Option<Seq<char>> {
    match v {
        Some(s) => Some(s@),
        None => None,
    }
}

/// What an optional list of strings holds.
pub open spec fn opt_texts(v: Option<Vec<String>>) -> Option<Seq<Seq<char>>> {
    match v {
        Some(l) => Some(text::texts(l@)),
        None => None,
    }
}

/// What an optional map holds.
pub open spec fn opt_map(v: Option<HashMap<String, String>>) -> Option<Map<String, String>> {
    match v {
        Some(m) => Some(m@),
        None => None,
    }
}

impl View for Route {
    type V = RouteModel;

    open spec fn view(&self) -> RouteModel {
        RouteModel {
            allow_ip: opt_nets(self.allow_ip),
            deny_ip: opt_nets(self.deny_ip),
            jwt_secret: opt_text(self.jwt_secret),
            cache: self.cache,
            post: opt_text(self.post),
            re: self.re@,
            bl: opt_list(self.bl),
            method: opt_texts(self.method),
            header: opt_texts(self.header),
            absent_header: opt_texts(self.absent_header),
            query: opt_text(self.query),
            cookie: opt_texts(self.cookie),
            set_headers: opt_map(self.set_headers),
            validate: rule_models(self.validate@),
            client_timeout: self.client_timeout,
            max_body_size: self.max_body_size,
            drop_threshold: self.drop_threshold,
            rate_limit: self.rate_limit,
            log_level: self.log_level,
            backend_pool_size: self.backend_pool_size,
            id: self.id,
        }
    }
}

/// What some routes hold.
pub open spec fn route_models(rs: Seq<Route>) -> Seq<RouteModel> {
    Seq::new(rs.len(), |i: int| rs[i]@)
}

/// A domain.
pub struct Domain {
    pub allow_ip: Option<Vec<IpNet>>,
    pub deny_ip: Option<Vec<IpNet>>,
    pub jwt_secret: Option<String>,
    /// Handed down to the routes.
    pub cache: Option<RouteCache>,
    pub re: Pattern,
    pub routes: Vec<Route>,
    pub def: Option<BackendList>,
    pub set_headers: Option<HashMap<String, String>>,
    pub client_timeout: u64,
    pub max_body_size: u64,
    pub log_level: Option<u8>,
    pub backend_pool_size: Option<usize>,
    pub listen: Vec<String>,
    pub tls_listen: Vec<String>,
    pub tls_cert: Option<String>,
    pub tls_key: Option<String>,
    pub tls_sni: Option<Vec<String>>,
}

/// What a [`Domain`] holds.
pub struct DomainModel {
    pub allow_ip: Option<Seq<IpNet>>,
    pub deny_ip: Option<Seq<IpNet>>,
    pub jwt_secret: Option<Seq<char>>,
    pub cache: Option<RouteCache>,
    pub re: Seq<char>,
    pub routes: Seq<RouteModel>,
    pub def: Option<ListModel>,
    pub set_headers: Option<Map<String, String>>,
    pub client_timeout: u64,
    pub max_body_size: u64,
    pub log_level: Option<u8>,
    pub backend_pool_size: Option<usize>,
    pub listen: Seq<Seq<char>>,
    pub tls_listen: Seq<Seq<char>>,
    pub tls_cert: Option<Seq<char>>,
    pub tls_key: Option<Seq<char>>,
    pub tls_sni: Option<Seq<Seq<char>>>,
}

impl View for Domain {
    type V = DomainModel;

    open spec fn view(&self) -> DomainModel {
        DomainModel {
            allow_ip: opt_nets(self.allow_ip),
            deny_ip: opt_nets(self.deny_ip),
            jwt_secret: opt_text(self.jwt_secret),
            cache: self.cache,
            re: self.re@,
            routes: route_models(self.routes@),
            def: opt_list(self.def),
            set_headers: opt_map(self.set_headers),
            client_timeout: self.client_timeout,
            max_body_size: self.max_body_size,
            log_level: self.log_level,
            backend_pool_size: self.backend_pool_size,
            listen: text::texts(self.listen@),
            tls_listen: text::texts(self.tls_listen@),
            tls_cert: opt_text(self.tls_cert),
            tls_key: opt_text(self.tls_key),
            tls_sni: opt_texts(self.tls_sni),
        }
    }
}

/// What some domains hold.
pub open spec fn domain_models(ds: Seq<Domain>) -> Seq<DomainModel> {
    Seq::new(ds.len(), |i: int| ds[i]@)
}

/// The configuration. Times are in seconds, sizes in bytes.
pub struct Config {
    pub allow_ip: Option<Vec<IpNet>>,
    pub deny_ip: Option<Vec<IpNet>>,
    pub jwt_secret: Option<String>,
    pub cache: Option<RouteCache>,
    pub listen: Vec<String>,
    pub tls_listen: Vec<String>,
    pub listen_iface: Option<String>,
    pub tls_cert: Option<String>,
    pub tls_key: Option<String>,
    pub metrics_listen: Option<String>,
    pub metrics_path: Option<String>,
    pub metrics_token: Option<String>,
    pub metrics_basic_auth: Option<String>,
    pub cache_max_bytes: usize,
    pub domains: Vec<Domain>,
    pub def: Option<BackendList>,
    pub set_headers: Option<HashMap<String, String>>,
    pub client_timeout: u64,
    pub max_body_size: u64,
    pub max_headers_size: u64,
    pub has_qos: bool,
    pub max_active_requests: usize,
    /// Whether targets are made canonical.
    pub normalize_path: bool,
    /// Whether an encoded path separator is refused.
    pub reject_encoded_slash: bool,
    pub log_level: u8,
    pub workers: usize,
    pub backend_pool_size: usize,
    pub cpu_affinity: Option<String>,
    pub sqpoll: Option<String>,
    pub sqpoll_idle_ms: Option<u32>,
    pub uring_flags: Option<String>,
    pub worker_lifetime: Option<u64>,
    pub worker_max_requests: Option<u64>,
    pub worker_drain: u64,
}

/// What a [`Config`] holds.
pub struct ConfigModel {
    pub allow_ip: Option<Seq<IpNet>>,
    pub deny_ip: Option<Seq<IpNet>>,
    pub jwt_secret: Option<Seq<char>>,
    pub cache: Option<RouteCache>,
    pub listen: Seq<Seq<char>>,
    pub tls_listen: Seq<Seq<char>>,
    pub listen_iface: Option<Seq<char>>,
    pub tls_cert: Option<Seq<char>>,
    pub tls_key: Option<Seq<char>>,
    pub metrics_listen: Option<Seq<char>>,
    pub metrics_path: Option<Seq<char>>,
    pub metrics_token: Option<Seq<char>>,
    pub metrics_basic_auth: Option<Seq<char>>,
    pub cache_max_bytes: usize,
    pub domains: Seq<DomainModel>,
    pub def: Option<ListModel>,
    pub set_headers: Option<Map<String, String>>,
    pub client_timeout: u64,
    pub max_body_size: u64,
    pub max_headers_size: u64,
    pub has_qos: bool,
    pub max_active_requests: usize,
    pub normalize_path: bool,
    pub reject_encoded_slash: bool,
    pub log_level: u8,
    pub workers: usize,
    pub backend_pool_size: usize,
    pub cpu_affinity: Option<Seq<char>>,
    pub sqpoll: Option<Seq<char>>,
    pub sqpoll_idle_ms: Option<u32>,
    pub uring_flags: Option<Seq<char>>,
    pub worker_lifetime: Option<u64>,
    pub worker_max_requests: Option<u64>,
    pub worker_drain: u64,
}

impl View for Config {
    type V = ConfigModel;

    open spec fn view(&self) -> ConfigModel {
        ConfigModel {
            allow_ip: opt_nets(self.allow_ip),
            deny_ip: opt_nets(self.deny_ip),
            jwt_secret: opt_text(self.jwt_secret),
            cache: self.cache,
            listen: text::texts(self.listen@),
            tls_listen: text::texts(self.tls_listen@),
            listen_iface: opt_text(self.listen_iface),
            tls_cert: opt_text(self.tls_cert),
            tls_key: opt_text(self.tls_key),
            metrics_listen: opt_text(self.metrics_listen),
            metrics_path: opt_text(self.metrics_path),
            metrics_token: opt_text(self.metrics_token),
            metrics_basic_auth: opt_text(self.metrics_basic_auth),
            cache_max_bytes: self.cache_max_bytes,
            domains: domain_models(self.domains@),
            def: opt_list(self.def),
            set_headers: opt_map(self.set_headers),
            client_timeout: self.client_timeout,
            max_body_size: self.max_body_size,
            max_headers_size: self.max_headers_size,
            has_qos: self.has_qos,
            max_active_requests: self.max_active_requests,
            normalize_path: self.normalize_path,
            reject_encoded_slash: self.reject_encoded_slash,
            log_level: self.log_level,
            workers: self.workers,
            backend_pool_size: self.backend_pool_size,
            cpu_affinity: opt_text(self.cpu_affinity),
            sqpoll: opt_text(self.sqpoll),
            sqpoll_idle_ms: self.sqpoll_idle_ms,
            uring_flags: opt_text(self.uring_flags),
            worker_lifetime: self.worker_lifetime,
            worker_max_requests: self.worker_max_requests,
            worker_drain: self.worker_drain,
        }
    }
}

/// The networks of an optional list are well-formed.
pub open spec fn opt_nets_wf(v: Option<Seq<IpNet>>) -> bool {
    v matches Some(n) ==> net::nets_wf(n)
}

/// The networks of a route are well-formed.
pub open spec fn route_wf(r: RouteModel) -> bool {
    opt_nets_wf(r.allow_ip) && opt_nets_wf(r.deny_ip)
}

/// The networks of a domain and its routes are well-formed.
pub open spec fn domain_wf(d: DomainModel) -> bool {
    &&& opt_nets_wf(d.allow_ip)
    &&& opt_nets_wf(d.deny_ip)
    &&& forall|i: int| 0 <= i < d.routes.len() ==> route_wf(#[trigger] d.routes[i])
}

/// All networks of a configuration are well-formed.
pub open spec fn config_wf(c: ConfigModel) -> bool {
    &&& opt_nets_wf(c.allow_ip)
    &&& opt_nets_wf(c.deny_ip)
    &&& forall|i: int| 0 <= i < c.domains.len() ==> domain_wf(#[trigger] c.domains[i])
}

// ---------------------------------------------------------------------------
// Copies
// ---------------------------------------------------------------------------

/// The same networks once more.
pub fn copy_nets(v: &Option<Vec<IpNet>>) -> (r: Option<Vec<IpNet>>)
    ensures
        opt_nets(r) == opt_nets(*v),
{
    match v {
        Some(n) => {
            let mut out: Vec<IpNet> = Vec::new();
            for i in 0..n.len()
                invariant
                    out@ == n@.take(i as int),
            {
                out.push(n[i]);
                assert(n@.take(i + 1) =~= n@.take(i as int).push(n@[i as int]));
            }
            assert(n@.take(n@.len() as int) =~= n@);
            Some(out)
        },
        None => None,
    }
}

/// The same string once more.
pub fn copy_text(v: &Option<String>) -> (r: Option<String>)
    ensures
        r == *v,
{
    match v {
        Some(s) => Some(s.clone()),
        None => None,
    }
}

/// The same strings once more.
pub fn copy_strings(v: &Vec<String>) -> (r: Vec<String>)
    ensures
        text::texts(r@) == text::texts(v@),
        r@ == v@,
{
    let mut out: Vec<String> = Vec::new();
    for i in 0..v.len()
        invariant
            out@ == v@.take(i as int),
    {
        out.push(v[i].clone());
        assert(v@.take(i + 1) =~= v@.take(i as int).push(v@[i as int]));
    }
    assert(v@.take(v@.len() as int) =~= v@);
    out
}

/// The same strings once more.
pub fn copy_texts(v: &Option<Vec<String>>) -> (r: Option<Vec<String>>)
    ensures
        opt_texts(r) == opt_texts(*v),
{
    match v {
        Some(l) => Some(copy_strings(l)),
        None => None,
    }
}

/// The same headers once more.
pub fn copy_map(v: &Option<HashMap<String, String>>) -> (r: Option<HashMap<String, String>>)
    ensures
        opt_map(r) == opt_map(*v),
{
    match v {
        Some(m) => Some(m.clone()),
        None => None,
    }
}

/// The same health check once more.
pub fn copy_health(v: &Option<Hspec>) -> (r: Option<Hspec>)
    ensures
        r == *v,
{
    match v {
        Some(h) => Some(h.clone()),
        None => None,
    }
}

impl ValidateRule {
    /// The same rule once more.
    pub fn duplicate(&self) -> (r: ValidateRule)
        ensures
            r@ == self@,
    {
        ValidateRule {
            rule_type: self.rule_type,
            name: self.name.clone(),
            regex: match &self.regex {
                Some(p) => Some(p.duplicate()),
                None => None,
            },
            invert: self.invert,
            on_fail: ValidateFail {
                status: self.on_fail.status,
                body: self.on_fail.body.clone(),
                backends: copy_list(&self.on_fail.backends),
            },
        }
    }
}

impl Route {
    /// The same route once more.
    pub fn duplicate(&self) -> (r: Route)
        ensures
            r@ == self@,
    {
        let mut validate: Vec<ValidateRule> = Vec::new();
        for i in 0..self.validate.len()
            invariant
                rule_models(validate@) =~= rule_models(self.validate@).take(i as int),
        {
            let ghost before = validate@;
            validate.push(self.validate[i].duplicate());
            assert(rule_models(validate@) =~= rule_models(before).push(self.validate@[i as int]@));
        }
        assert(rule_models(validate@) =~= rule_models(self.validate@));
        Route {
            allow_ip: copy_nets(&self.allow_ip),
            deny_ip: copy_nets(&self.deny_ip),
            jwt_secret: copy_text(&self.jwt_secret),
            cache: self.cache,
            post: copy_text(&self.post),
            re: self.re.duplicate(),
            bl: copy_list(&self.bl),
            method: copy_texts(&self.method),
            header: copy_texts(&self.header),
            absent_header: copy_texts(&self.absent_header),
            query: copy_text(&self.query),
            cookie: copy_texts(&self.cookie),
            set_headers: copy_map(&self.set_headers),
            validate,
            client_timeout: self.client_timeout,
            max_body_size: self.max_body_size,
            drop_threshold: self.drop_threshold,
            rate_limit: self.rate_limit,
            log_level: self.log_level,
            backend_pool_size: self.backend_pool_size,
            id: self.id,
        }
    }
}

// ---------------------------------------------------------------------------
// Single settings
// ---------------------------------------------------------------------------

/// Whether a text is a keyword up to the case of ASCII letters.
pub open spec fn is_word(s: Seq<char>, word: &str) -> bool {
    text::eq_ci(encode_utf8(s), word.spec_bytes())
}

/// The number of a log level; that of `info` for an unknown one.
pub open spec fn log_level_of(s: Seq<char>) -> u8 {
    if is_word(s, "error") {
        1
    } else if is_word(s, "warn") {
        2
    } else if is_word(s, "info") {
        3
    } else if is_word(s, "debug") {
        4
    } else if is_word(s, "trace") {
        5
    } else if is_word(s, "none") || is_word(s, "off") {
        0
    } else {
        3
    }
}

/// The number of a log level; that of `info` for an unknown one.
pub fn parse_log_level(s: &str) -> (r: u8)
    ensures
        r == log_level_of(s@),
{
    if str_eq_ci(s, "error") {
        1
    } else if str_eq_ci(s, "warn") {
        2
    } else if str_eq_ci(s, "info") {
        3
    } else if str_eq_ci(s, "debug") {
        4
    } else if str_eq_ci(s, "trace") {
        5
    } else if str_eq_ci(s, "none") || str_eq_ci(s, "off") {
        0
    } else {
        3
    }
}

/// The algorithm that a text names.
pub open spec fn balance_of(s: Seq<char>) -> Option<Balance> {
    if is_word(s, "roundrobin") || is_word(s, "round_robin") || is_word(s, "rr") {
        Some(Balance::RoundRobin)
    } else if is_word(s, "random") {
        Some(Balance::Random)
    } else if is_word(s, "first") {
        Some(Balance::First)
    } else if is_word(s, "leastconn") {
        Some(Balance::Leastconn)
    } else if is_word(s, "weighted") {
        Some(Balance::Weighted)
    } else if is_word(s, "iphash") {
        Some(Balance::Iphash)
    } else if is_word(s, "urlhash") {
        Some(Balance::Urlhash)
    } else {
        None
    }
}

/// The algorithm that a text names, in any case.
pub fn parse_balance(s: &str) -> (r: Result<Balance, String>)
    ensures
        match r {
            Ok(b) => balance_of(s@) == Some(b),
            Err(e) => balance_of(s@) is None && e@ == "Unknown balance algorithm: "@ + s@,
        },
{
    if str_eq_ci(s, "roundrobin") || str_eq_ci(s, "round_robin") || str_eq_ci(s, "rr") {
        Ok(Balance::RoundRobin)
    } else if str_eq_ci(s, "random") {
        Ok(Balance::Random)
    } else if str_eq_ci(s, "first") {
        Ok(Balance::First)
    } else if str_eq_ci(s, "leastconn") {
        Ok(Balance::Leastconn)
    } else if str_eq_ci(s, "weighted") {
        Ok(Balance::Weighted)
    } else if str_eq_ci(s, "iphash") {
        Ok(Balance::Iphash)
    } else if str_eq_ci(s, "urlhash") {
        Ok(Balance::Urlhash)
    } else {
        Err("Unknown balance algorithm: ".to_owned().concat(s))
    }
}

/// The health check that nothing was said about.
pub open spec fn default_hspec() -> HspecModel {
    HspecModel { path: "/"@, interval: 5, timeout: 2, rise: 2, fall: 3 }
}

/// An unsigned 64-bit number, or a default where the text is none.
pub open spec fn u64_or(s: Seq<char>, default: u64) -> u64 {
    match text::parse_unsigned(encode_utf8(s), 10, u64::MAX as nat) {
        Some(v) => v as u64,
        None => default,
    }
}

/// A signed 32-bit number, or a default where the text is none.
pub open spec fn i32_or(s: Seq<char>, default: i32) -> i32 {
    match text::parse_signed(encode_utf8(s), i32::MAX as nat) {
        Some(v) => v as i32,
        None => default,
    }
}

/// A health check after one more `key=value` word. A word without `=` and an unknown key change
/// nothing.
pub open spec fn hspec_step(h: HspecModel, word: Seq<char>) -> HspecModel {
    let k = text::find(word, '=');
    if k < word.len() {
        let key = word.take(k);
        let value = word.skip(k + 1);
        if key == "path"@ {
            HspecModel { path: value, ..h }
        } else if key == "interval"@ {
            HspecModel { interval: u64_or(value, 5), ..h }
        } else if key == "timeout"@ {
            HspecModel { timeout: u64_or(value, 2), ..h }
        } else if key == "rise"@ {
            HspecModel { rise: i32_or(value, 2), ..h }
        } else if key == "fall"@ {
            HspecModel { fall: i32_or(value, 3), ..h }
        } else {
            h
        }
    } else {
        h
    }
}

/// The health check that a list of words describes.
pub open spec fn hspec_of(words: Seq<Seq<char>>) -> HspecModel
    decreases words.len(),
{
    if words.len() == 0 {
        default_hspec()
    } else {
        hspec_step(hspec_of(words.drop_last()), words.last())
    }
}

fn parse_u64_or(s: &str, default: u64) -> (r: u64)
    ensures
        r == u64_or(s@, default),
{
    match read_unsigned(s.as_bytes(), 10, u64::MAX) {
        Some(v) => v,
        None => default,
    }
}

fn parse_i32_or(s: &str, default: i32) -> (r: i32)
    ensures
        r == i32_or(s@, default),
{
    match read_i32(s.as_bytes()) {
        Some(v) => v,
        None => default,
    }
}

/// The health check that a text of `key=value` words describes. There always is one: what the
/// text does not say has a default.
pub fn parse_hspec(s: &str) -> (r: Option<Hspec>)
    ensures
        r matches Some(h) && h@ == hspec_of(text::words(s@)),
{
    let mut h = Hspec { path: "/".to_owned(), interval: 5, timeout: 2, rise: 2, fall: 3 };
    let ws = split_words(s);
    for i in 0..ws.len()
        invariant
            text::views(ws@) == text::words(s@),
            h@ == hspec_of(text::words(s@).take(i as int)),
    {
        proof {
            assert(text::words(s@).take(i + 1).drop_last() =~= text::words(s@).take(i as int));
            assert(text::views(ws@)[i as int] == ws@[i as int]@);
            text::lemma_find(ws@[i as int]@, '=');
        }
        if let Some((key, value)) = split_once(ws[i], '=') {
            if str_eq(key, "path") {
                h.path = value.to_owned();
            } else if str_eq(key, "interval") {
                h.interval = parse_u64_or(value, 5);
            } else if str_eq(key, "timeout") {
                h.timeout = parse_u64_or(value, 2);
            } else if str_eq(key, "rise") {
                h.rise = parse_i32_or(value, 2);
            } else if str_eq(key, "fall") {
                h.fall = parse_i32_or(value, 3);
            }
        }
    }
    assert(text::words(s@).take(text::words(s@).len() as int) =~= text::words(s@));
    Some(h)
}

/// What is wrong with a list of networks: its first entry that is none.
pub open spec fn acl_error(kind: Seq<char>, ips: Seq<Seq<char>>) -> Option<Seq<char>>
    decreases ips.len(),
{
    if ips.len() == 0 {
        None
    } else if net::parsed_net(ips[0]) is None {
        Some(
            "Invalid network in "@ + kind + ": "@ + text::debug_text(ips[0]) + " ("@
                + "invalid IP address syntax"@ + ")"@,
        )
    } else {
        acl_error(kind, ips.drop_first())
    }
}

/// The networks of a list.
pub open spec fn acl_nets(ips: Seq<Seq<char>>) -> Seq<IpNet> {
    Seq::new(ips.len(), |i: int| net::parsed_net(ips[i])->0)
}

/// The networks of an `allow_ip` or `deny_ip` list. A single entry that is no network refuses the
/// whole list: leaving it out would let in, or shut out, other addresses than were meant.
pub fn parse_acl(kind: &str, ips: &Vec<String>) -> (r: Result<Vec<IpNet>, String>)
    ensures
        match r {
            Ok(nets) => {
                &&& acl_error(kind@, text::texts(ips@)) is None
                &&& nets@ == acl_nets(text::texts(ips@))
                &&& net::nets_wf(nets@)
            },
            Err(e) => acl_error(kind@, text::texts(ips@)) == Some(e@),
        },
{
    let ghost ts = text::texts(ips@);
    let mut out: Vec<IpNet> = Vec::new();
    proof {
        assert(ts.skip(0) =~= ts);
    }
    for i in 0..ips.len()
        invariant
            ts == text::texts(ips@),
            acl_error(kind@, ts) == acl_error(kind@, ts.skip(i as int)),
            out@.len() == i,
            forall|j: int| 0 <= j < i ==> net::parsed_net(#[trigger] ts[j]) == Some(out@[j]),
            net::nets_wf(out@),
    {
        proof {
            assert(ts.skip(i as int)[0] == ips@[i as int]@);
            assert(ts.skip(i as int).drop_first() =~= ts.skip(i + 1));
        }
        match parse_net(ips[i].as_str()) {
            Ok(n) => {
                out.push(n);
            },
            Err(e) => {
                let mut m = "Invalid network in ".to_owned();
                m.append(kind);
                m.append(": ");
                m.append(quoted(ips[i].as_str()).as_str());
                m.append(" (");
                m.append(e.as_str());
                m.append(")");
                return Err(m);
            },
        }
    }
    assert(out@ =~= acl_nets(ts));
    Ok(out)
}

// ---------------------------------------------------------------------------
// Backends
// ---------------------------------------------------------------------------

/// A text without any number of repetitions of a prefix.
pub open spec fn strip_all(s: Seq<char>, prefix: Seq<char>) -> Seq<char>
    decreases s.len(),
{
    if prefix.len() > 0 && prefix.is_prefix_of(s) {
        strip_all(s.skip(prefix.len() as int), prefix)
    } else {
        s
    }
}

/// `s` without any number of repetitions of `prefix`.
fn strip_repeated<'a>(s: &'a str, prefix: &str) -> (r: &'a str)
    requires
        prefix@.len() > 0,
    ensures
        r@ == strip_all(s@, prefix@),
{
    let mut rest: &'a str = s;
    loop
        invariant
            prefix@.len() > 0,
            strip_all(s@, prefix@) == strip_all(rest@, prefix@),
        decreases rest@.len(),
    {
        match strip_prefix(rest, prefix) {
            Some(t) => {
                rest = t;
            },
            None => {
                return rest;
            },
        }
    }
}

/// The address that the file gives for a backend.
pub open spec fn yaml_host(yb: YamlBackend) -> Option<Seq<char>> {
    match yb {
        YamlBackend::Simple(s) => Some(s@),
        YamlBackend::Detailed { host, .. } => opt_text(host),
    }
}

/// Whether an address asks for TLS.
pub open spec fn wants_tls(host: Seq<char>) -> bool {
    "https://"@.is_prefix_of(host)
}

/// An address without its scheme.
pub open spec fn without_scheme(host: Seq<char>) -> Seq<char> {
    if wants_tls(host) {
        strip_all(host, "https://"@)
    } else {
        strip_all(host, "http://"@)
    }
}

/// Whether the file leaves the certificate of a backend unchecked.
pub open spec fn yaml_skip_verify(yb: YamlBackend) -> bool {
    yb matches YamlBackend::Detailed { tls_skip_verify: Some(b), .. } && b
}

/// The response time that the file gives for a backend, or the inherited one.
pub open spec fn yaml_response(yb: YamlBackend, inherited: u64) -> u64 {
    match yb {
        YamlBackend::Detailed { response: Some(r), .. } => r,
        _ => inherited,
    }
}

/// The port behind the first colon of an address.
pub open spec fn port_of(rest: Seq<char>) -> Option<nat> {
    text::parse_unsigned(encode_utf8(rest.skip(text::find(rest, ':') + 1)), 10, 65535)
}

/// What is wrong with a backend.
pub open spec fn backend_error(yb: YamlBackend) -> Option<Seq<char>> {
    match yaml_host(yb) {
        None => Some("Backend missing 'host' field"@),
        Some(host) => {
            let rest = without_scheme(host);
            if text::find(rest, ':') >= rest.len() {
                Some("Invalid backend format: "@ + host)
            } else if port_of(rest) is None {
                Some("Invalid port in backend: "@ + host)
            } else if yaml_skip_verify(yb) && !wants_tls(host) {
                Some(
                    "Backend '"@ + host
                        + "' sets tls_skip_verify but has no 'https://' host prefix — the flag would be a no-op"@,
                )
            } else {
                None
            }
        },
    }
}

/// The backend that the file describes, under the number `id`.
pub open spec fn backend_model(yb: YamlBackend, connect: u64, response: u64, id: int) -> BackendModel {
    let host = yaml_host(yb)->0;
    let rest = without_scheme(host);
    let name = rest.take(text::find(rest, ':'));
    let port = port_of(rest)->0;
    BackendModel {
        response_to: yaml_response(yb, response),
        host: name,
        port: port as u16,
        addr: name + ":"@ + text::decimal(port),
        connect_to: match yb {
            YamlBackend::Detailed { connect: Some(c), .. } => c,
            _ => connect,
        },
        weight: match yb {
            YamlBackend::Detailed { weight: Some(w), .. } => w,
            _ => 1,
        },
        id: id as usize,
        tls: wants_tls(host),
        tls_skip_verify: yaml_skip_verify(yb),
        slot: id,
    }
}

/// What is wrong with a list of backends: with its first wrong one.
pub open spec fn backends_error(ybs: Seq<YamlBackend>) -> Option<Seq<char>>
    decreases ybs.len(),
{
    if ybs.len() == 0 {
        None
    } else if backend_error(ybs[0]) is Some {
        backend_error(ybs[0])
    } else {
        backends_error(ybs.drop_first())
    }
}

/// The backends of a list, numbered from `start` on.
pub open spec fn backends_from(
    ybs: Seq<YamlBackend>,
    connect: u64,
    response: u64,
    start: int,
) -> Seq<BackendModel> {
    Seq::new(ybs.len(), |i: int| backend_model(ybs[i], connect, response, start + i))
}

/// The list that some backends make; none where there are none.
pub open spec fn list_from(
    ybs: Seq<YamlBackend>,
    balance: Balance,
    connect: u64,
    response: u64,
    start: int,
) -> Option<ListModel> {
    if ybs.len() == 0 {
        None
    } else {
        Some(ListModel { backends: backends_from(ybs, connect, response, start), balance })
    }
}

/// The longest response time of some backends, and no less than `m`.
pub open spec fn longest(ybs: Seq<YamlBackend>, response: u64, m: u64) -> u64
    decreases ybs.len(),
{
    if ybs.len() == 0 {
        m
    } else {
        max(longest(ybs.drop_last(), response, m), yaml_response(ybs.last(), response))
    }
}

/// The larger of two numbers.
pub open spec fn max(a: u64, b: u64) -> u64 {
    if a >= b {
        a
    } else {
        b
    }
}

proof fn lemma_longest(ybs: Seq<YamlBackend>, response: u64, m: u64)
    ensures
        m <= longest(ybs, response, m),
    decreases ybs.len(),
{
    if ybs.len() > 0 {
        lemma_longest(ybs.drop_last(), response, m);
    }
}

proof fn lemma_longest_grows(ybs: Seq<YamlBackend>, response: u64, m: u64, k: int)
    requires
        0 <= k <= ybs.len(),
    ensures
        m <= longest(ybs.take(k), response, m) <= longest(ybs, response, m),
    decreases ybs.len() - k,
{
    lemma_longest(ybs.take(k), response, m);
    if k < ybs.len() {
        lemma_longest_grows(ybs, response, m, k + 1);
        assert(ybs.take(k + 1).drop_last() =~= ybs.take(k));
    } else {
        assert(ybs.take(k) =~= ybs);
    }
}

/// The backends that an optional list of the file holds.
pub open spec fn given(l: Option<Vec<YamlBackend>>) -> Seq<YamlBackend> {
    match l {
        Some(v) => v@,
        None => seq![],
    }
}

/// Turns the values of a file into a configuration.
pub struct ConfigLoader<'a> {
    next_backend_id: usize,
    shm: &'a SharedMemory,
    /// Longest response time of any backend so far.
    max_response_to: u64,
}

impl<'a> ConfigLoader<'a> {
    /// Number of the next backend.
    pub closed spec fn next_id(self) -> int {
        self.next_backend_id as int
    }

    /// Longest response time of any backend so far.
    pub closed spec fn max_response(self) -> u64 {
        self.max_response_to
    }

    /// The shared values in which the backends have their state.
    pub closed spec fn memory(self) -> SharedMemory {
        *self.shm
    }

    /// Whether the loader has come this far since `before`: it has numbered at most `count`
    /// backends, and seen no response time beyond `limit`.
    pub open spec fn partway(self, before: Self, count: nat, limit: u64) -> bool {
        &&& before.next_id() <= self.next_id() <= before.next_id() + count
        &&& before.max_response() <= self.max_response() <= limit
    }

    /// A loader that numbers backends from 0 on.
    pub fn new(shm: &'a SharedMemory) -> (r: ConfigLoader<'a>)
        ensures
            r.next_id() == 0,
            r.max_response() == 0,
            r.memory() == *shm,
    {
        ConfigLoader { next_backend_id: 0, shm, max_response_to: 0 }
    }

    /// The backend that the file describes, under the next number.
    fn parse_backend(&mut self, yb: &YamlBackend, default_conn: u64, default_resp: u64) -> (r: Result<
        Backend,
        String,
    >)
        requires
            old(self).next_id() < usize::MAX,
        ensures
            final(self).memory() == old(self).memory(),
            match r {
                Ok(b) => {
                    &&& backend_error(*yb) is None
                    &&& b@ == backend_model(*yb, default_conn, default_resp, old(self).next_id())
                    &&& final(self).next_id() == old(self).next_id() + 1
                    &&& final(self).max_response() == max(
                        old(self).max_response(),
                        yaml_response(*yb, default_resp),
                    )
                },
                Err(e) => {
                    &&& backend_error(*yb) == Some(e@)
                    &&& final(self).next_id() == old(self).next_id()
                    &&& final(self).max_response() == old(self).max_response()
                },
            },
    {
        let (host_opt, c, r, w, skip_verify): (Option<&String>, u64, u64, u32, bool) = match yb {
            YamlBackend::Simple(s) => (Some(s), default_conn, default_resp, 1, false),
            YamlBackend::Detailed { host, connect, response, weight, tls_skip_verify } => (
                host.as_ref(),
                match connect {
                    Some(v) => *v,
                    None => default_conn,
                },
                match response {
                    Some(v) => *v,
                    None => default_resp,
                },
                match weight {
                    Some(v) => *v,
                    None => 1,
                },
                match tls_skip_verify {
                    Some(v) => *v,
                    None => false,
                },
            ),
        };
        let host = match host_opt {
            Some(h) => h.as_str(),
            None => {
                return Err("Backend missing 'host' field".to_owned());
            },
        };
        proof {
            reveal_strlit("https://");
            reveal_strlit("http://");
        }
        let tls = strip_prefix(host, "https://").is_some();
        let rest = if tls {
            strip_repeated(host, "https://")
        } else {
            strip_repeated(host, "http://")
        };
        proof {
            text::lemma_find(rest@, ':');
        }
        let (name, port_str) = match split_once(rest, ':') {
            Some((a, b)) => (a, b),
            None => {
                return Err("Invalid backend format: ".to_owned().concat(host));
            },
        };
        let port: u16 = match read_unsigned(port_str.as_bytes(), 10, 65535) {
            Some(p) => p as u16,
            None => {
                return Err("Invalid port in backend: ".to_owned().concat(host));
            },
        };
        if skip_verify && !tls {
            let mut m = "Backend '".to_owned();
            m.append(host);
            m.append(
                "' sets tls_skip_verify but has no 'https://' host prefix — the flag would be a no-op",
            );
            return Err(m);
        }
        if r > self.max_response_to {
            self.max_response_to = r;
        }
        let mut addr = name.to_owned();
        addr.append(":");
        append_decimal(&mut addr, port as u64);
        let be = Backend {
            host: name.to_owned(),
            port,
            addr,
            connect_to: c,
            response_to: r,
            weight: w,
            id: self.next_backend_id,
            tls,
            tls_skip_verify: skip_verify,
            state: SharedState::at(self.next_backend_id),
        };
        self.next_backend_id = self.next_backend_id + 1;
        Ok(be)
    }

    /// The backends of a list, under the next numbers.
    fn parse_backends(&mut self, ybs: &[YamlBackend], default_conn: u64, default_resp: u64) -> (r:
        Result<Vec<Backend>, String>)
        requires
            old(self).next_id() + ybs@.len() <= usize::MAX,
        ensures
            final(self).memory() == old(self).memory(),
            match r {
                Ok(bs) => {
                    &&& backends_error(ybs@) is None
                    &&& backend_models(bs@) == backends_from(
                        ybs@,
                        default_conn,
                        default_resp,
                        old(self).next_id(),
                    )
                    &&& final(self).next_id() == old(self).next_id() + ybs@.len()
                    &&& final(self).max_response() == longest(
                        ybs@,
                        default_resp,
                        old(self).max_response(),
                    )
                },
                Err(e) => {
                    &&& backends_error(ybs@) == Some(e@)
                    &&& final(self).partway(
                        *old(self),
                        ybs@.len(),
                        longest(ybs@, default_resp, old(self).max_response()),
                    )
                },
            },
    {
        let mut out: Vec<Backend> = Vec::new();
        proof {
            assert(ybs@.skip(0) =~= ybs@);
        }
        for i in 0..ybs.len()
            invariant
                old(self).next_id() + ybs@.len() <= usize::MAX,
                self.memory() == old(self).memory(),
                backends_error(ybs@) == backends_error(ybs@.skip(i as int)),
                out@.len() == i,
                forall|j: int|
                    0 <= j < i ==> (#[trigger] out@[j])@ == backend_model(
                        ybs@[j],
                        default_conn,
                        default_resp,
                        old(self).next_id() + j,
                    ),
                self.next_id() == old(self).next_id() + i,
                self.max_response() == longest(
                    ybs@.take(i as int),
                    default_resp,
                    old(self).max_response(),
                ),
        {
            proof {
                assert(ybs@.skip(i as int)[0] == ybs@[i as int]);
                assert(ybs@.skip(i as int).drop_first() =~= ybs@.skip(i + 1));
                assert(ybs@.take(i + 1).drop_last() =~= ybs@.take(i as int));
                lemma_longest_grows(ybs@, default_resp, old(self).max_response(), i as int);
            }
            match self.parse_backend(&ybs[i], default_conn, default_resp) {
                Ok(b) => {
                    out.push(b);
                },
                Err(e) => {
                    return Err(e);
                },
            }
        }
        proof {
            assert(ybs@.take(ybs@.len() as int) =~= ybs@);
            assert(backend_models(out@) =~= backends_from(
                ybs@,
                default_conn,
                default_resp,
                old(self).next_id(),
            ));
        }
        Ok(out)
    }

    /// The list that some backends make, under the next numbers; none where there are none.
    fn parse_backend_list(
        &mut self,
        yb_list: &[YamlBackend],
        balance: Balance,
        default_conn: u64,
        default_resp: u64,
    ) -> (r: Result<Option<BackendList>, String>)
        requires
            old(self).next_id() + yb_list@.len() <= usize::MAX,
        ensures
            final(self).memory() == old(self).memory(),
            match r {
                Ok(l) => {
                    &&& backends_error(yb_list@) is None
                    &&& opt_list(l) == list_from(
                        yb_list@,
                        balance,
                        default_conn,
                        default_resp,
                        old(self).next_id(),
                    )
                    &&& final(self).next_id() == old(self).next_id() + yb_list@.len()
                    &&& final(self).max_response() == longest(
                        yb_list@,
                        default_resp,
                        old(self).max_response(),
                    )
                },
                Err(e) => {
                    &&& backends_error(yb_list@) == Some(e@)
                    &&& final(self).partway(
                        *old(self),
                        yb_list@.len(),
                        longest(yb_list@, default_resp, old(self).max_response()),
                    )
                },
            },
    {
        match self.parse_backends(yb_list, default_conn, default_resp) {
            Ok(backends) => {
                proof {
                    assert(backend_models(backends@).len() == yb_list@.len());
                }
                if backends.len() == 0 {
                    Ok(None)
                } else {
                    Ok(Some(BackendList { backends, balance }))
                }
            },
            Err(e) => Err(e),
        }
    }
}

// ---------------------------------------------------------------------------
// What is handed down
// ---------------------------------------------------------------------------

/// Settings that a domain or a route has where it says nothing itself.
pub struct Inherited {
    pub balance: Balance,
    pub health: Option<Hspec>,
    pub connect: u64,
    pub response: u64,
    pub client_timeout: u64,
    pub max_body_size: u64,
    pub allow_ip: Option<Vec<IpNet>>,
    pub deny_ip: Option<Vec<IpNet>>,
    pub jwt_secret: Option<String>,
    pub cache: Option<RouteCache>,
    pub backend_pool_size: usize,
}

/// What [`Inherited`] holds.
pub struct InheritedModel {
    pub balance: Balance,
    pub health: Option<HspecModel>,
    pub connect: u64,
    pub response: u64,
    pub client_timeout: u64,
    pub max_body_size: u64,
    pub allow_ip: Option<Seq<IpNet>>,
    pub deny_ip: Option<Seq<IpNet>>,
    pub jwt_secret: Option<Seq<char>>,
    pub cache: Option<RouteCache>,
    pub backend_pool_size: usize,
}

/// What an optional health check holds.
pub open spec fn opt_health(h: Option<Hspec>) -> Option<HspecModel> {
    match h {
        Some(x) => Some(x@),
        None => None,
    }
}

impl View for Inherited {
    type V = InheritedModel;

    open spec fn view(&self) -> InheritedModel {
        InheritedModel {
            balance: self.balance,
            health: opt_health(self.health),
            connect: self.connect,
            response: self.response,
            client_timeout: self.client_timeout,
            max_body_size: self.max_body_size,
            allow_ip: opt_nets(self.allow_ip),
            deny_ip: opt_nets(self.deny_ip),
            jwt_secret: opt_text(self.jwt_secret),
            cache: self.cache,
            backend_pool_size: self.backend_pool_size,
        }
    }
}

/// The first of two messages.
pub open spec fn first(a: Option<Seq<char>>, b: Option<Seq<char>>) -> Option<Seq<char>> {
    if a is Some {
        a
    } else {
        b
    }
}

/// What is wrong with a `balance` setting.
pub open spec fn balance_error(b: Option<String>) -> Option<Seq<char>> {
    match b {
        Some(s) => if balance_of(s@) is None {
            Some("Unknown balance algorithm: "@ + s@)
        } else {
            None
        },
        None => None,
    }
}

/// The algorithm of a `balance` setting, or the inherited one.
pub open spec fn balance_or(b: Option<String>, inherited: Balance) -> Balance {
    match b {
        Some(s) => balance_of(s@)->0,
        None => inherited,
    }
}

fn pick_balance(b: &Option<String>, inherited: Balance) -> (r: Result<Balance, String>)
    ensures
        match r {
            Ok(x) => balance_error(*b) is None && x == balance_or(*b, inherited),
            Err(e) => balance_error(*b) == Some(e@),
        },
{
    match b {
        Some(s) => parse_balance(s.as_str()),
        None => Ok(inherited),
    }
}

/// What is wrong with an `allow_ip` or `deny_ip` setting.
pub open spec fn nets_error(kind: Seq<char>, v: Option<Vec<String>>) -> Option<Seq<char>> {
    match v {
        Some(l) => acl_error(kind, text::texts(l@)),
        None => None,
    }
}

/// The networks of a setting, or the inherited ones.
pub open spec fn nets_or(v: Option<Vec<String>>, inherited: Option<Seq<IpNet>>) -> Option<Seq<IpNet>> {
    match v {
        Some(l) => Some(acl_nets(text::texts(l@))),
        None => inherited,
    }
}

fn pick_nets(kind: &str, v: &Option<Vec<String>>, inherited: &Option<Vec<IpNet>>) -> (r: Result<
    Option<Vec<IpNet>>,
    String,
>)
    requires
        opt_nets_wf(opt_nets(*inherited)),
    ensures
        match r {
            Ok(n) => {
                &&& nets_error(kind@, *v) is None
                &&& opt_nets(n) == nets_or(*v, opt_nets(*inherited))
                &&& opt_nets_wf(opt_nets(n))
            },
            Err(e) => nets_error(kind@, *v) == Some(e@),
        },
{
    match v {
        Some(l) => match parse_acl(kind, l) {
            Ok(n) => Ok(Some(n)),
            Err(e) => Err(e),
        },
        None => Ok(copy_nets(inherited)),
    }
}

/// The cache that a setting asks for, or the inherited one.
pub open spec fn cache_or(c: Option<YamlRouteCache>, inherited: Option<RouteCache>) -> Option<
    RouteCache,
> {
    match c {
        Some(y) => Some(
            RouteCache {
                ttl: y.ttl,
                max_size: match y.max_size {
                    Some(n) => n,
                    None => 1048576,
                },
                respect_headers: match y.respect_headers {
                    Some(b) => b,
                    None => false,
                },
            },
        ),
        None => inherited,
    }
}

fn pick_cache(c: &Option<YamlRouteCache>, inherited: Option<RouteCache>) -> (r: Option<RouteCache>)
    ensures
        r == cache_or(*c, inherited),
{
    match c {
        Some(y) => Some(
            RouteCache {
                ttl: y.ttl,
                max_size: match y.max_size {
                    Some(n) => n,
                    None => 1048576,
                },
                respect_headers: match y.respect_headers {
                    Some(b) => b,
                    None => false,
                },
            },
        ),
        None => inherited,
    }
}

/// A value, or the inherited one.
pub open spec fn or<T>(v: Option<T>, inherited: T) -> T {
    match v {
        Some(x) => x,
        None => inherited,
    }
}

/// A text, or the inherited one.
pub open spec fn text_or(v: Option<String>, inherited: Option<Seq<char>>) -> Option<Seq<char>> {
    match v {
        Some(s) => Some(s@),
        None => inherited,
    }
}

fn pick_text(v: &Option<String>, inherited: &Option<String>) -> (r: Option<String>)
    ensures
        opt_text(r) == text_or(*v, opt_text(*inherited)),
{
    match v {
        Some(s) => Some(s.clone()),
        None => copy_text(inherited),
    }
}

/// The level of a `log_level` setting.
pub open spec fn level_of(v: Option<String>) -> Option<u8> {
    match v {
        Some(s) => Some(log_level_of(s@)),
        None => None,
    }
}

fn pick_level(v: &Option<String>) -> (r: Option<u8>)
    ensures
        r == level_of(*v),
{
    match v {
        Some(s) => Some(parse_log_level(s.as_str())),
        None => None,
    }
}

// ---------------------------------------------------------------------------
// Rules and routes
// ---------------------------------------------------------------------------

/// The backends that take the requests that fail a rule.
pub open spec fn fail_backends(v: YamlValidateRule) -> Seq<YamlBackend> {
    match v.on_fail {
        Some(f) => given(f.backends),
        None => seq![],
    }
}

/// What is wrong with a pattern of a rule.
pub open spec fn rule_regex_error(re: Option<String>) -> Option<Seq<char>> {
    match re {
        Some(s) => if pattern::regex_valid(s@) {
            None
        } else {
            Some("Bad validate regex: "@ + s@)
        },
        None => None,
    }
}

/// What is wrong with a rule.
pub open spec fn rule_error(v: YamlValidateRule) -> Option<Seq<char>> {
    first(backends_error(fail_backends(v)), rule_regex_error(v.regex))
}

/// The rule that the file describes.
pub open spec fn rule_model(
    v: YamlValidateRule,
    balance: Balance,
    connect: u64,
    response: u64,
    start: int,
) -> RuleModel {
    RuleModel {
        rule_type: v.rule_type,
        name: v.name@,
        regex: opt_text(v.regex),
        invert: v.invert,
        status: match v.on_fail {
            Some(f) => or(f.status, 403),
            None => 403,
        },
        body: match v.on_fail {
            Some(YamlValidateFail { body: Some(b), .. }) => b@,
            _ => "Forbidden\n"@,
        },
        backends: list_from(fail_backends(v), balance, connect, response, start),
    }
}

/// What is wrong with a list of rules.
pub open spec fn rules_error(vs: Seq<YamlValidateRule>) -> Option<Seq<char>>
    decreases vs.len(),
{
    if vs.len() == 0 {
        None
    } else {
        first(rule_error(vs[0]), rules_error(vs.drop_first()))
    }
}

/// Number of backends that a list of rules brings.
pub open spec fn rules_count(vs: Seq<YamlValidateRule>) -> nat
    decreases vs.len(),
{
    if vs.len() == 0 {
        0
    } else {
        rules_count(vs.drop_last()) + fail_backends(vs.last()).len()
    }
}

/// The rules of a list, their backends numbered from `start` on.
pub open spec fn rules_from(
    vs: Seq<YamlValidateRule>,
    balance: Balance,
    connect: u64,
    response: u64,
    start: int,
) -> Seq<RuleModel>
    decreases vs.len(),
{
    if vs.len() == 0 {
        seq![]
    } else {
        rules_from(vs.drop_last(), balance, connect, response, start).push(
            rule_model(
                vs.last(),
                balance,
                connect,
                response,
                start + rules_count(vs.drop_last()),
            ),
        )
    }
}

/// The longest response time of the backends of some rules, and no less than `m`.
pub open spec fn rules_longest(vs: Seq<YamlValidateRule>, response: u64, m: u64) -> u64
    decreases vs.len(),
{
    if vs.len() == 0 {
        m
    } else {
        longest(fail_backends(vs.last()), response, rules_longest(vs.drop_last(), response, m))
    }
}

/// The rules that a route of the file has.
pub open spec fn rules_of(yr: YamlRoute) -> Seq<YamlValidateRule> {
    match yr.validate {
        Some(v) => v@,
        None => seq![],
    }
}

/// What is wrong with the pattern of a domain or route.
pub open spec fn regex_error(re: Seq<char>) -> Option<Seq<char>> {
    if pattern::regex_valid(re) {
        None
    } else {
        Some("Bad regex: "@ + re)
    }
}

/// What is wrong with a route.
pub open spec fn route_error(yr: YamlRoute) -> Option<Seq<char>> {
    first(
        balance_error(yr.balance),
        first(
            backends_error(given(yr.backends)),
            first(
                rules_error(rules_of(yr)),
                first(
                    regex_error(yr.match_@),
                    first(nets_error("allow_ip"@, yr.allow_ip), nets_error("deny_ip"@, yr.deny_ip)),
                ),
            ),
        ),
    )
}

/// Number of backends that a route brings.
pub open spec fn route_count(yr: YamlRoute) -> nat {
    given(yr.backends).len() + rules_count(rules_of(yr))
}

/// The parts of a comma-separated setting, without surrounding whitespace.
pub open spec fn parts_of(s: Seq<char>) -> Seq<Seq<char>> {
    let ps = text::split(s, ',');
    Seq::new(ps.len(), |i: int| text::trim(ps[i]))
}

/// The same in upper case.
pub open spec fn upper_parts_of(s: Seq<char>) -> Seq<Seq<char>> {
    let ps = text::split(s, ',');
    Seq::new(ps.len(), |i: int| text::uppercase(text::trim(ps[i])))
}

/// The parts of an optional comma-separated setting.
pub open spec fn opt_parts(s: Option<String>) -> Option<Seq<Seq<char>>> {
    match s {
        Some(x) => Some(parts_of(x@)),
        None => None,
    }
}

/// The route that the file describes, under the number `id`, its backends numbered from `start`
/// on.
pub open spec fn route_model(yr: YamlRoute, d: InheritedModel, start: int, id: int) -> RouteModel {
    let balance = balance_or(yr.balance, d.balance);
    let connect = or(yr.connect, d.connect);
    let response = or(yr.response, d.response);
    RouteModel {
        allow_ip: nets_or(yr.allow_ip, d.allow_ip),
        deny_ip: nets_or(yr.deny_ip, d.deny_ip),
        jwt_secret: text_or(yr.jwt_secret, d.jwt_secret),
        cache: cache_or(yr.cache, d.cache),
        post: opt_text(yr.post),
        re: yr.match_@,
        bl: list_from(given(yr.backends), balance, connect, response, start),
        method: match yr.method {
            Some(x) => Some(upper_parts_of(x@)),
            None => None,
        },
        header: opt_parts(yr.header),
        absent_header: opt_parts(yr.absent_header),
        query: opt_text(yr.query),
        cookie: opt_parts(yr.cookie),
        set_headers: opt_map(yr.set_headers),
        validate: rules_from(
            rules_of(yr),
            balance,
            connect,
            response,
            start + given(yr.backends).len(),
        ),
        client_timeout: or(yr.client_timeout, d.client_timeout),
        max_body_size: or(yr.max_body_size, d.max_body_size),
        drop_threshold: match yr.drop_threshold {
            Some(p) => Some(
                if p > 100 {
                    100
                } else {
                    p
                },
            ),
            None => None,
        },
        rate_limit: yr.rate_limit,
        log_level: level_of(yr.log_level),
        backend_pool_size: or(yr.backend_pool_size, d.backend_pool_size),
        id: id as usize,
    }
}

/// The longest response time of the backends of a route, and no less than `m`.
pub open spec fn route_longest(yr: YamlRoute, inherited: u64, m: u64) -> u64 {
    let response = or(yr.response, inherited);
    rules_longest(rules_of(yr), response, longest(given(yr.backends), response, m))
}

/// What is wrong with a list of routes.
pub open spec fn routes_error(yrs: Seq<YamlRoute>) -> Option<Seq<char>>
    decreases yrs.len(),
{
    if yrs.len() == 0 {
        None
    } else {
        first(route_error(yrs[0]), routes_error(yrs.drop_first()))
    }
}

/// Number of backends that a list of routes brings.
pub open spec fn routes_count(yrs: Seq<YamlRoute>) -> nat
    decreases yrs.len(),
{
    if yrs.len() == 0 {
        0
    } else {
        routes_count(yrs.drop_last()) + route_count(yrs.last())
    }
}

/// The routes of a list, numbered from `id` on, their backends from `start` on.
pub open spec fn routes_from(yrs: Seq<YamlRoute>, d: InheritedModel, start: int, id: int) -> Seq<
    RouteModel,
>
    decreases yrs.len(),
{
    if yrs.len() == 0 {
        seq![]
    } else {
        routes_from(yrs.drop_last(), d, start, id).push(
            route_model(
                yrs.last(),
                d,
                start + routes_count(yrs.drop_last()),
                id + yrs.len() - 1,
            ),
        )
    }
}

/// The longest response time of the backends of some routes, and no less than `m`.
pub open spec fn routes_longest(yrs: Seq<YamlRoute>, inherited: u64, m: u64) -> u64
    decreases yrs.len(),
{
    if yrs.len() == 0 {
        m
    } else {
        route_longest(yrs.last(), inherited, routes_longest(yrs.drop_last(), inherited, m))
    }
}

/// A backend to check, and how.
pub type Check = (BackendModel, Option<HspecModel>);

/// What some checks hold.
pub open spec fn check_models(cs: Seq<(Backend, Option<Hspec>)>) -> Seq<Check> {
    Seq::new(cs.len(), |i: int| (cs[i].0@, opt_health(cs[i].1)))
}

/// The checks of a list of backends.
pub open spec fn list_checks(l: Option<ListModel>, h: Option<HspecModel>) -> Seq<Check> {
    match l {
        Some(m) => Seq::new(m.backends.len(), |i: int| (m.backends[i], h)),
        None => seq![],
    }
}

/// The checks of the backends of some routes. The backends for failed rules are not checked.
pub open spec fn routes_checks(rs: Seq<RouteModel>, h: Option<HspecModel>) -> Seq<Check>
    decreases rs.len(),
{
    if rs.len() == 0 {
        seq![]
    } else {
        routes_checks(rs.drop_last(), h) + list_checks(rs.last().bl, h)
    }
}

/// Whether some route of a list may be dropped under load.
pub open spec fn routes_qos(yrs: Seq<YamlRoute>) -> bool {
    exists|i: int| 0 <= i < yrs.len() && (#[trigger] yrs[i]).drop_threshold is Some
}

fn push_checks(
    checks: &mut Vec<(Backend, Option<Hspec>)>,
    l: &Option<BackendList>,
    h: &Option<Hspec>,
)
    ensures
        check_models(final(checks)@) == check_models(old(checks)@) + list_checks(
            opt_list(*l),
            opt_health(*h),
        ),
{
    match l {
        Some(b) => {
            let ghost all = list_checks(opt_list(*l), opt_health(*h));
            assert(check_models(old(checks)@) + all.take(0) =~= check_models(old(checks)@));
            for i in 0..b.backends.len()
                invariant
                    *l == Some(*b),
                    all == list_checks(opt_list(*l), opt_health(*h)),
                    check_models(checks@) == check_models(old(checks)@) + all.take(i as int),
            {
                let ghost before = checks@;
                checks.push((b.backends[i].clone(), copy_health(h)));
                proof {
                    assert(check_models(checks@) =~= check_models(before).push(all[i as int]));
                    assert(check_models(old(checks)@) + all.take(i + 1) =~= (check_models(
                        old(checks)@,
                    ) + all.take(i as int)).push(all[i as int]));
                }
            }
            assert(all.take(all.len() as int) =~= all);
        },
        None => {
            assert(check_models(old(checks)@) + Seq::<Check>::empty() =~= check_models(
                old(checks)@,
            ));
        },
    }
}

fn comma_parts(s: &Option<String>) -> (r: Option<Vec<String>>)
    ensures
        opt_texts(r) == opt_parts(*s),
{
    match s {
        Some(x) => {
            let ps = split_str(x.as_str(), ',');
            let mut out: Vec<String> = Vec::new();
            for i in 0..ps.len()
                invariant
                    text::views(ps@) == text::split(x@, ','),
                    out@.len() == i,
                    forall|j: int| 0 <= j < i ==> (#[trigger] out@[j])@ == parts_of(x@)[j],
            {
                assert(text::views(ps@)[i as int] == ps@[i as int]@);
                out.push(trim_str(ps[i]).to_owned());
            }
            assert(text::texts(out@) =~= parts_of(x@));
            Some(out)
        },
        None => None,
    }
}

fn upper_comma_parts(s: &Option<String>) -> (r: Option<Vec<String>>)
    ensures
        opt_texts(r) == (match *s {
            Some(x) => Some(upper_parts_of(x@)),
            None => None,
        }),
{
    match s {
        Some(x) => {
            let ps = split_str(x.as_str(), ',');
            let mut out: Vec<String> = Vec::new();
            for i in 0..ps.len()
                invariant
                    text::views(ps@) == text::split(x@, ','),
                    out@.len() == i,
                    forall|j: int| 0 <= j < i ==> (#[trigger] out@[j])@ == upper_parts_of(x@)[j],
            {
                assert(text::views(ps@)[i as int] == ps@[i as int]@);
                out.push(to_uppercase(trim_str(ps[i])));
            }
            assert(text::texts(out@) =~= upper_parts_of(x@));
            Some(out)
        },
        None => None,
    }
}

fn compile_pattern(re: &str) -> (r: Result<Pattern, String>)
    ensures
        match r {
            Ok(p) => regex_error(re@) is None && p@ == re@,
            Err(e) => regex_error(re@) == Some(e@),
        },
{
    match Pattern::new(re) {
        Some(p) => Ok(p),
        None => Err("Bad regex: ".to_owned().concat(re)),
    }
}

impl<'a> ConfigLoader<'a> {
    /// The rule that the file describes.
    fn parse_rule(&mut self, v: &YamlValidateRule, balance: Balance, connect: u64, response: u64) -> (r:
        Result<ValidateRule, String>)
        requires
            old(self).next_id() + fail_backends(*v).len() <= usize::MAX,
        ensures
            final(self).memory() == old(self).memory(),
            match r {
                Ok(x) => {
                    &&& rule_error(*v) is None
                    &&& x@ == rule_model(*v, balance, connect, response, old(self).next_id())
                    &&& final(self).next_id() == old(self).next_id() + fail_backends(*v).len()
                    &&& final(self).max_response() == longest(
                        fail_backends(*v),
                        response,
                        old(self).max_response(),
                    )
                },
                Err(e) => {
                    &&& rule_error(*v) == Some(e@)
                    &&& final(self).partway(
                        *old(self),
                        fail_backends(*v).len(),
                        longest(fail_backends(*v), response, old(self).max_response()),
                    )
                },
            },
    {
        proof {
            lemma_longest(fail_backends(*v), response, old(self).max_response());
        }
        let (status, body, fail_bl): (u16, String, Option<BackendList>) = match &v.on_fail {
            Some(f) => {
                let bl = match &f.backends {
                    Some(fb) => match self.parse_backend_list(
                        fb.as_slice(),
                        balance,
                        connect,
                        response,
                    ) {
                        Ok(l) => l,
                        Err(e) => {
                            return Err(e);
                        },
                    },
                    None => None,
                };
                (
                    match f.status {
                        Some(s) => s,
                        None => 403,
                    },
                    match &f.body {
                        Some(b) => b.clone(),
                        None => "Forbidden\n".to_owned(),
                    },
                    bl,
                )
            },
            None => (403, "Forbidden\n".to_owned(), None),
        };
        let regex = match &v.regex {
            Some(s) => match Pattern::new(s.as_str()) {
                Some(p) => Some(p),
                None => {
                    return Err("Bad validate regex: ".to_owned().concat(s.as_str()));
                },
            },
            None => None,
        };
        Ok(
            ValidateRule {
                rule_type: v.rule_type,
                name: v.name.clone(),
                regex,
                invert: v.invert,
                on_fail: ValidateFail { status, body, backends: fail_bl },
            },
        )
    }

    /// The rules of a list.
    fn parse_rules(&mut self, vs: &[YamlValidateRule], balance: Balance, connect: u64, response: u64) -> (r:
        Result<Vec<ValidateRule>, String>)
        requires
            old(self).next_id() + rules_count(vs@) <= usize::MAX,
        ensures
            final(self).memory() == old(self).memory(),
            match r {
                Ok(x) => {
                    &&& rules_error(vs@) is None
                    &&& rule_models(x@) == rules_from(
                        vs@,
                        balance,
                        connect,
                        response,
                        old(self).next_id(),
                    )
                    &&& final(self).next_id() == old(self).next_id() + rules_count(vs@)
                    &&& final(self).max_response() == rules_longest(
                        vs@,
                        response,
                        old(self).max_response(),
                    )
                },
                Err(e) => {
                    &&& rules_error(vs@) == Some(e@)
                    &&& final(self).partway(
                        *old(self),
                        rules_count(vs@),
                        rules_longest(vs@, response, old(self).max_response()),
                    )
                },
            },
    {
        let mut out: Vec<ValidateRule> = Vec::new();
        proof {
            assert(vs@.skip(0) =~= vs@);
            assert(rule_models(out@) =~= Seq::<RuleModel>::empty());
        }
        for i in 0..vs.len()
            invariant
                old(self).next_id() + rules_count(vs@) <= usize::MAX,
                self.memory() == old(self).memory(),
                rules_error(vs@) == rules_error(vs@.skip(i as int)),
                rule_models(out@) == rules_from(
                    vs@.take(i as int),
                    balance,
                    connect,
                    response,
                    old(self).next_id(),
                ),
                self.next_id() == old(self).next_id() + rules_count(vs@.take(i as int)),
                self.max_response() == rules_longest(
                    vs@.take(i as int),
                    response,
                    old(self).max_response(),
                ),
        {
            let ghost before = out@;
            proof {
                assert(vs@.skip(i as int)[0] == vs@[i as int]);
                assert(vs@.skip(i as int).drop_first() =~= vs@.skip(i + 1));
                assert(vs@.take(i + 1).drop_last() =~= vs@.take(i as int));
                lemma_rules_count_grows(vs@, i + 1);
                lemma_rules_longest_grows(vs@, response, old(self).max_response(), i as int);
                lemma_rules_longest_grows(vs@, response, old(self).max_response(), i + 1);
            }
            match self.parse_rule(&vs[i], balance, connect, response) {
                Ok(x) => {
                    out.push(x);
                    assert(rule_models(out@) =~= rule_models(before).push(x@));
                },
                Err(e) => {
                    return Err(e);
                },
            }
        }
        assert(vs@.take(vs@.len() as int) =~= vs@);
        Ok(out)
    }

    /// The route that the file describes, under the number `id`.
    fn parse_route(&mut self, yr: &YamlRoute, d: &Inherited, id: usize) -> (r: Result<Route, String>)
        requires
            old(self).next_id() + route_count(*yr) <= usize::MAX,
            opt_nets_wf(d@.allow_ip),
            opt_nets_wf(d@.deny_ip),
        ensures
            final(self).memory() == old(self).memory(),
            match r {
                Ok(x) => {
                    &&& route_error(*yr) is None
                    &&& x@ == route_model(*yr, d@, old(self).next_id(), id as int)
                    &&& route_wf(x@)
                    &&& final(self).next_id() == old(self).next_id() + route_count(*yr)
                    &&& final(self).max_response() == route_longest(
                        *yr,
                        d.response,
                        old(self).max_response(),
                    )
                },
                Err(e) => {
                    &&& route_error(*yr) == Some(e@)
                    &&& final(self).partway(
                        *old(self),
                        route_count(*yr),
                        route_longest(*yr, d.response, old(self).max_response()),
                    )
                },
            },
    {
        proof {
            let m = old(self).max_response();
            lemma_route_longest(*yr, d.response, m);
        }
        let balance = match pick_balance(&yr.balance, d.balance) {
            Ok(b) => b,
            Err(e) => {
                return Err(e);
            },
        };
        let connect: u64 = match yr.connect {
            Some(v) => v,
            None => d.connect,
        };
        let response: u64 = match yr.response {
            Some(v) => v,
            None => d.response,
        };
        let bl = match &yr.backends {
            Some(l) => match self.parse_backend_list(l.as_slice(), balance, connect, response) {
                Ok(x) => x,
                Err(e) => {
                    return Err(e);
                },
            },
            None => None,
        };
        let validate: Vec<ValidateRule> = match &yr.validate {
            Some(l) => match self.parse_rules(l.as_slice(), balance, connect, response) {
                Ok(x) => x,
                Err(e) => {
                    return Err(e);
                },
            },
            None => Vec::new(),
        };
        proof {
            if yr.validate is None {
                assert(rule_models(validate@) =~= Seq::<RuleModel>::empty());
            }
        }
        let re = match compile_pattern(yr.match_.as_str()) {
            Ok(p) => p,
            Err(e) => {
                return Err(e);
            },
        };
        let allow_ip = match pick_nets("allow_ip", &yr.allow_ip, &d.allow_ip) {
            Ok(n) => n,
            Err(e) => {
                return Err(e);
            },
        };
        let deny_ip = match pick_nets("deny_ip", &yr.deny_ip, &d.deny_ip) {
            Ok(n) => n,
            Err(e) => {
                return Err(e);
            },
        };
        Ok(
            Route {
                allow_ip,
                deny_ip,
                jwt_secret: pick_text(&yr.jwt_secret, &d.jwt_secret),
                cache: pick_cache(&yr.cache, d.cache),
                post: copy_text(&yr.post),
                re,
                bl,
                method: upper_comma_parts(&yr.method),
                header: comma_parts(&yr.header),
                absent_header: comma_parts(&yr.absent_header),
                query: copy_text(&yr.query),
                cookie: comma_parts(&yr.cookie),
                set_headers: copy_map(&yr.set_headers),
                validate,
                client_timeout: match yr.client_timeout {
                    Some(v) => v,
                    None => d.client_timeout,
                },
                max_body_size: match yr.max_body_size {
                    Some(v) => v,
                    None => d.max_body_size,
                },
                drop_threshold: match yr.drop_threshold {
                    Some(p) => Some(
                        if p > 100 {
                            100
                        } else {
                            p
                        },
                    ),
                    None => None,
                },
                rate_limit: yr.rate_limit,
                log_level: pick_level(&yr.log_level),
                backend_pool_size: match yr.backend_pool_size {
                    Some(v) => v,
                    None => d.backend_pool_size,
                },
                id,
            },
        )
    }

    /// The routes of a list, numbered from `id` on. Appends the checks of their backends.
    fn parse_routes(
        &mut self,
        yrs: &[YamlRoute],
        d: &Inherited,
        id: usize,
        checks: &mut Vec<(Backend, Option<Hspec>)>,
    ) -> (r: Result<Vec<Route>, String>)
        requires
            old(self).next_id() + routes_count(yrs@) <= usize::MAX,
            id + yrs@.len() <= usize::MAX,
            opt_nets_wf(d@.allow_ip),
            opt_nets_wf(d@.deny_ip),
        ensures
            final(self).memory() == old(self).memory(),
            match r {
                Ok(x) => {
                    &&& routes_error(yrs@) is None
                    &&& route_models(x@) == routes_from(yrs@, d@, old(self).next_id(), id as int)
                    &&& forall|i: int| 0 <= i < x@.len() ==> route_wf((#[trigger] x@[i])@)
                    &&& check_models(final(checks)@) == check_models(old(checks)@) + routes_checks(
                        route_models(x@),
                        d@.health,
                    )
                    &&& final(self).next_id() == old(self).next_id() + routes_count(yrs@)
                    &&& final(self).max_response() == routes_longest(
                        yrs@,
                        d.response,
                        old(self).max_response(),
                    )
                },
                Err(e) => {
                    &&& routes_error(yrs@) == Some(e@)
                    &&& final(self).partway(
                        *old(self),
                        routes_count(yrs@),
                        routes_longest(yrs@, d.response, old(self).max_response()),
                    )
                },
            },
    {
        let mut out: Vec<Route> = Vec::new();
        proof {
            assert(yrs@.skip(0) =~= yrs@);
            assert(route_models(out@) =~= Seq::<RouteModel>::empty());
            assert(check_models(checks@) + routes_checks(route_models(out@), d@.health)
                =~= check_models(checks@));
        }
        for i in 0..yrs.len()
            invariant
                old(self).next_id() + routes_count(yrs@) <= usize::MAX,
                id + yrs@.len() <= usize::MAX,
                opt_nets_wf(d@.allow_ip),
                opt_nets_wf(d@.deny_ip),
                self.memory() == old(self).memory(),
                routes_error(yrs@) == routes_error(yrs@.skip(i as int)),
                out@.len() == i,
                route_models(out@) == routes_from(
                    yrs@.take(i as int),
                    d@,
                    old(self).next_id(),
                    id as int,
                ),
                forall|j: int| 0 <= j < i ==> route_wf((#[trigger] out@[j])@),
                check_models(checks@) == check_models(old(checks)@) + routes_checks(
                    route_models(out@),
                    d@.health,
                ),
                self.next_id() == old(self).next_id() + routes_count(yrs@.take(i as int)),
                self.max_response() == routes_longest(
                    yrs@.take(i as int),
                    d.response,
                    old(self).max_response(),
                ),
        {
            let ghost before = out@;
            proof {
                assert(yrs@.skip(i as int)[0] == yrs@[i as int]);
                assert(yrs@.skip(i as int).drop_first() =~= yrs@.skip(i + 1));
                assert(yrs@.take(i + 1).drop_last() =~= yrs@.take(i as int));
                lemma_routes_count_grows(yrs@, i + 1);
                lemma_routes_longest_grows(yrs@, d.response, old(self).max_response(), i as int);
                lemma_routes_longest_grows(yrs@, d.response, old(self).max_response(), i + 1);
            }
            match self.parse_route(&yrs[i], d, id + i) {
                Ok(x) => {
                    push_checks(checks, &x.bl, &d.health);
                    let ghost m = x@;
                    out.push(x);
                    proof {
                        assert(route_models(out@) =~= route_models(before).push(m));
                        assert(route_models(out@).drop_last() =~= route_models(before));
                        assert(check_models(checks@) =~= check_models(old(checks)@) + (
                        routes_checks(route_models(before), d@.health) + list_checks(
                            m.bl,
                            d@.health,
                        )));
                    }
                },
                Err(e) => {
                    return Err(e);
                },
            }
        }
        assert(yrs@.take(yrs@.len() as int) =~= yrs@);
        Ok(out)
    }
}

proof fn lemma_rules_count_grows(vs: Seq<YamlValidateRule>, k: int)
    requires
        0 <= k <= vs.len(),
    ensures
        rules_count(vs.take(k)) <= rules_count(vs),
    decreases vs.len() - k,
{
    if k < vs.len() {
        lemma_rules_count_grows(vs, k + 1);
        assert(vs.take(k + 1).drop_last() =~= vs.take(k));
    } else {
        assert(vs.take(k) =~= vs);
    }
}

proof fn lemma_routes_count_grows(yrs: Seq<YamlRoute>, k: int)
    requires
        0 <= k <= yrs.len(),
    ensures
        routes_count(yrs.take(k)) <= routes_count(yrs),
    decreases yrs.len() - k,
{
    if k < yrs.len() {
        lemma_routes_count_grows(yrs, k + 1);
        assert(yrs.take(k + 1).drop_last() =~= yrs.take(k));
    } else {
        assert(yrs.take(k) =~= yrs);
    }
}

proof fn lemma_rules_longest(vs: Seq<YamlValidateRule>, response: u64, m: u64)
    ensures
        m <= rules_longest(vs, response, m),
    decreases vs.len(),
{
    if vs.len() > 0 {
        let before = rules_longest(vs.drop_last(), response, m);
        lemma_rules_longest(vs.drop_last(), response, m);
        lemma_longest(fail_backends(vs.last()), response, before);
    }
}

proof fn lemma_rules_longest_grows(vs: Seq<YamlValidateRule>, response: u64, m: u64, k: int)
    requires
        0 <= k <= vs.len(),
    ensures
        m <= rules_longest(vs.take(k), response, m) <= rules_longest(vs, response, m),
    decreases vs.len() - k,
{
    lemma_rules_longest(vs.take(k), response, m);
    if k < vs.len() {
        let before = rules_longest(vs.take(k), response, m);
        lemma_rules_longest_grows(vs, response, m, k + 1);
        assert(vs.take(k + 1).drop_last() =~= vs.take(k));
        lemma_longest(fail_backends(vs[k]), response, before);
    } else {
        assert(vs.take(k) =~= vs);
    }
}

proof fn lemma_route_longest(yr: YamlRoute, inherited: u64, m: u64)
    ensures
        ({
            let own = longest(given(yr.backends), or(yr.response, inherited), m);
            m <= own <= route_longest(yr, inherited, m)
        }),
{
    let response = or(yr.response, inherited);
    let own = longest(given(yr.backends), response, m);
    lemma_longest(given(yr.backends), response, m);
    lemma_rules_longest(rules_of(yr), response, own);
}

proof fn lemma_routes_longest(yrs: Seq<YamlRoute>, inherited: u64, m: u64)
    ensures
        m <= routes_longest(yrs, inherited, m),
    decreases yrs.len(),
{
    if yrs.len() > 0 {
        lemma_routes_longest(yrs.drop_last(), inherited, m);
        lemma_route_longest(
            yrs.last(),
            inherited,
            routes_longest(yrs.drop_last(), inherited, m),
        );
    }
}

proof fn lemma_routes_longest_grows(yrs: Seq<YamlRoute>, inherited: u64, m: u64, k: int)
    requires
        0 <= k <= yrs.len(),
    ensures
        m <= routes_longest(yrs.take(k), inherited, m) <= routes_longest(yrs, inherited, m),
    decreases yrs.len() - k,
{
    lemma_routes_longest(yrs.take(k), inherited, m);
    if k < yrs.len() {
        lemma_routes_longest_grows(yrs, inherited, m, k + 1);
        assert(yrs.take(k + 1).drop_last() =~= yrs.take(k));
        lemma_route_longest(yrs[k], inherited, routes_longest(yrs.take(k), inherited, m));
    } else {
        assert(yrs.take(k) =~= yrs);
    }
}

// ---------------------------------------------------------------------------
// Domains
// ---------------------------------------------------------------------------

/// The health check of a `health` setting, or the inherited one.
pub open spec fn health_or(h: Option<String>, inherited: Option<HspecModel>) -> Option<HspecModel> {
    match h {
        Some(s) => Some(hspec_of(text::words(s@))),
        None => inherited,
    }
}

fn pick_health(h: &Option<String>, inherited: &Option<Hspec>) -> (r: Option<Hspec>)
    ensures
        opt_health(r) == health_or(*h, opt_health(*inherited)),
{
    match h {
        Some(s) => parse_hspec(s.as_str()),
        None => copy_health(inherited),
    }
}

/// What the routes of a domain inherit.
pub open spec fn domain_level(yd: YamlDomain, g: InheritedModel) -> InheritedModel {
    InheritedModel {
        balance: balance_or(yd.balance, g.balance),
        health: health_or(yd.health, g.health),
        connect: or(yd.connect, g.connect),
        response: or(yd.response, g.response),
        client_timeout: or(yd.client_timeout, g.client_timeout),
        max_body_size: or(yd.max_body_size, g.max_body_size),
        allow_ip: nets_or(yd.allow_ip, g.allow_ip),
        deny_ip: nets_or(yd.deny_ip, g.deny_ip),
        jwt_secret: text_or(yd.jwt_secret, g.jwt_secret),
        cache: cache_or(yd.cache, g.cache),
        backend_pool_size: or(yd.backend_pool_size, g.backend_pool_size),
    }
}

/// What is wrong with a domain.
pub open spec fn domain_error(yd: YamlDomain) -> Option<Seq<char>> {
    first(
        balance_error(yd.balance),
        first(
            nets_error("allow_ip"@, yd.allow_ip),
            first(
                nets_error("deny_ip"@, yd.deny_ip),
                first(
                    regex_error(yd.match_@),
                    first(backends_error(given(yd.default)), routes_error(yd.routes@)),
                ),
            ),
        ),
    )
}

/// Number of backends that a domain brings.
pub open spec fn domain_count(yd: YamlDomain) -> nat {
    given(yd.default).len() + routes_count(yd.routes@)
}

/// The addresses of a setting, or the inherited ones.
pub open spec fn texts_or(v: Option<Vec<String>>, inherited: Seq<Seq<char>>) -> Seq<Seq<char>> {
    match v {
        Some(l) => text::texts(l@),
        None => inherited,
    }
}

fn pick_strings(v: &Option<Vec<String>>, inherited: &Vec<String>) -> (r: Vec<String>)
    ensures
        text::texts(r@) == texts_or(*v, text::texts(inherited@)),
{
    match v {
        Some(l) => copy_strings(l),
        None => copy_strings(inherited),
    }
}

/// The domain that the file describes, its routes numbered from `id` on, its backends from
/// `start` on.
pub open spec fn domain_model(
    yd: YamlDomain,
    g: InheritedModel,
    listen: Seq<Seq<char>>,
    tls_listen: Seq<Seq<char>>,
    start: int,
    id: int,
) -> DomainModel {
    let d = domain_level(yd, g);
    DomainModel {
        allow_ip: d.allow_ip,
        deny_ip: d.deny_ip,
        jwt_secret: d.jwt_secret,
        cache: d.cache,
        re: yd.match_@,
        routes: routes_from(yd.routes@, d, start + given(yd.default).len(), id),
        def: list_from(given(yd.default), d.balance, d.connect, d.response, start),
        set_headers: opt_map(yd.set_headers),
        client_timeout: d.client_timeout,
        max_body_size: d.max_body_size,
        log_level: level_of(yd.log_level),
        backend_pool_size: Some(d.backend_pool_size),
        listen: texts_or(yd.listen, listen),
        tls_listen: texts_or(yd.tls_listen, tls_listen),
        tls_cert: opt_text(yd.tls_cert),
        tls_key: opt_text(yd.tls_key),
        tls_sni: opt_texts(yd.tls_sni),
    }
}

/// The checks of the backends of a domain.
pub open spec fn domain_checks(d: DomainModel, h: Option<HspecModel>) -> Seq<Check> {
    list_checks(d.def, h) + routes_checks(d.routes, h)
}

/// The longest response time of the backends of a domain, and no less than `m`.
pub open spec fn domain_longest(yd: YamlDomain, inherited: u64, m: u64) -> u64 {
    let response = or(yd.response, inherited);
    routes_longest(yd.routes@, response, longest(given(yd.default), response, m))
}

/// What is wrong with a list of domains.
pub open spec fn domains_error(yds: Seq<YamlDomain>) -> Option<Seq<char>>
    decreases yds.len(),
{
    if yds.len() == 0 {
        None
    } else {
        first(domain_error(yds[0]), domains_error(yds.drop_first()))
    }
}

/// Number of backends that a list of domains brings.
pub open spec fn domains_count(yds: Seq<YamlDomain>) -> nat
    decreases yds.len(),
{
    if yds.len() == 0 {
        0
    } else {
        domains_count(yds.drop_last()) + domain_count(yds.last())
    }
}

/// Number of routes of a list of domains.
pub open spec fn routes_total(yds: Seq<YamlDomain>) -> nat
    decreases yds.len(),
{
    if yds.len() == 0 {
        0
    } else {
        routes_total(yds.drop_last()) + yds.last().routes@.len()
    }
}

/// The domains of a list, their backends numbered from `start` on, their routes from 0 on.
pub open spec fn domains_from(
    yds: Seq<YamlDomain>,
    g: InheritedModel,
    listen: Seq<Seq<char>>,
    tls_listen: Seq<Seq<char>>,
    start: int,
) -> Seq<DomainModel>
    decreases yds.len(),
{
    if yds.len() == 0 {
        seq![]
    } else {
        domains_from(yds.drop_last(), g, listen, tls_listen, start).push(
            domain_model(
                yds.last(),
                g,
                listen,
                tls_listen,
                start + domains_count(yds.drop_last()),
                routes_total(yds.drop_last()) as int,
            ),
        )
    }
}

/// The checks of the backends of a list of domains.
pub open spec fn domains_checks(yds: Seq<YamlDomain>, ds: Seq<DomainModel>, g: InheritedModel) -> Seq<
    Check,
>
    decreases yds.len(),
{
    if yds.len() == 0 || ds.len() == 0 {
        seq![]
    } else {
        domains_checks(yds.drop_last(), ds.drop_last(), g) + domain_checks(
            ds.last(),
            domain_level(yds.last(), g).health,
        )
    }
}

/// The longest response time of the backends of some domains, and no less than `m`.
pub open spec fn domains_longest(yds: Seq<YamlDomain>, inherited: u64, m: u64) -> u64
    decreases yds.len(),
{
    if yds.len() == 0 {
        m
    } else {
        domain_longest(yds.last(), inherited, domains_longest(yds.drop_last(), inherited, m))
    }
}

/// Whether some route of some domains may be dropped under load.
pub open spec fn domains_qos(yds: Seq<YamlDomain>) -> bool {
    exists|i: int| 0 <= i < yds.len() && routes_qos((#[trigger] yds[i]).routes@)
}

proof fn lemma_domains_grow(yds: Seq<YamlDomain>, k: int)
    requires
        0 <= k <= yds.len(),
    ensures
        domains_count(yds.take(k)) <= domains_count(yds),
        routes_total(yds.take(k)) <= routes_total(yds),
    decreases yds.len() - k,
{
    if k < yds.len() {
        lemma_domains_grow(yds, k + 1);
        assert(yds.take(k + 1).drop_last() =~= yds.take(k));
    } else {
        assert(yds.take(k) =~= yds);
    }
}

proof fn lemma_domain_longest(yd: YamlDomain, inherited: u64, m: u64)
    ensures
        ({
            let own = longest(given(yd.default), or(yd.response, inherited), m);
            m <= own <= domain_longest(yd, inherited, m)
        }),
{
    let response = or(yd.response, inherited);
    let own = longest(given(yd.default), response, m);
    lemma_longest(given(yd.default), response, m);
    lemma_routes_longest(yd.routes@, response, own);
}

proof fn lemma_domains_longest(yds: Seq<YamlDomain>, inherited: u64, m: u64)
    ensures
        m <= domains_longest(yds, inherited, m),
    decreases yds.len(),
{
    if yds.len() > 0 {
        lemma_domains_longest(yds.drop_last(), inherited, m);
        lemma_domain_longest(
            yds.last(),
            inherited,
            domains_longest(yds.drop_last(), inherited, m),
        );
    }
}

proof fn lemma_domains_longest_grows(yds: Seq<YamlDomain>, inherited: u64, m: u64, k: int)
    requires
        0 <= k <= yds.len(),
    ensures
        m <= domains_longest(yds.take(k), inherited, m) <= domains_longest(yds, inherited, m),
    decreases yds.len() - k,
{
    lemma_domains_longest(yds.take(k), inherited, m);
    if k < yds.len() {
        lemma_domains_longest_grows(yds, inherited, m, k + 1);
        assert(yds.take(k + 1).drop_last() =~= yds.take(k));
        lemma_domain_longest(yds[k], inherited, domains_longest(yds.take(k), inherited, m));
    } else {
        assert(yds.take(k) =~= yds);
    }
}

fn any_threshold(yrs: &[YamlRoute]) -> (r: bool)
    ensures
        r == routes_qos(yrs@),
{
    for i in 0..yrs.len()
        invariant
            forall|j: int| 0 <= j < i ==> (#[trigger] yrs@[j]).drop_threshold is None,
    {
        if yrs[i].drop_threshold.is_some() {
            assert(yrs@[i as int].drop_threshold is Some);
            return true;
        }
    }
    false
}

impl<'a> ConfigLoader<'a> {
    /// The domain that the file describes, its routes numbered from `id` on. Appends the checks
    /// of its backends.
    fn parse_domain(
        &mut self,
        yd: &YamlDomain,
        g: &Inherited,
        listen: &Vec<String>,
        tls_listen: &Vec<String>,
        id: usize,
        checks: &mut Vec<(Backend, Option<Hspec>)>,
    ) -> (r: Result<Domain, String>)
        requires
            old(self).next_id() + domain_count(*yd) <= usize::MAX,
            id + yd.routes@.len() <= usize::MAX,
            opt_nets_wf(g@.allow_ip),
            opt_nets_wf(g@.deny_ip),
        ensures
            final(self).memory() == old(self).memory(),
            match r {
                Ok(x) => {
                    &&& domain_error(*yd) is None
                    &&& x@ == domain_model(
                        *yd,
                        g@,
                        text::texts(listen@),
                        text::texts(tls_listen@),
                        old(self).next_id(),
                        id as int,
                    )
                    &&& domain_wf(x@)
                    &&& check_models(final(checks)@) == check_models(old(checks)@) + domain_checks(
                        x@,
                        domain_level(*yd, g@).health,
                    )
                    &&& final(self).next_id() == old(self).next_id() + domain_count(*yd)
                    &&& final(self).max_response() == domain_longest(
                        *yd,
                        g.response,
                        old(self).max_response(),
                    )
                },
                Err(e) => {
                    &&& domain_error(*yd) == Some(e@)
                    &&& final(self).partway(
                        *old(self),
                        domain_count(*yd),
                        domain_longest(*yd, g.response, old(self).max_response()),
                    )
                },
            },
    {
        proof {
            let m = old(self).max_response();
            lemma_domain_longest(*yd, g.response, m);
        }
        let balance = match pick_balance(&yd.balance, g.balance) {
            Ok(b) => b,
            Err(e) => {
                return Err(e);
            },
        };
        let allow_ip = match pick_nets("allow_ip", &yd.allow_ip, &g.allow_ip) {
            Ok(n) => n,
            Err(e) => {
                return Err(e);
            },
        };
        let deny_ip = match pick_nets("deny_ip", &yd.deny_ip, &g.deny_ip) {
            Ok(n) => n,
            Err(e) => {
                return Err(e);
            },
        };
        let d = Inherited {
            balance,
            health: pick_health(&yd.health, &g.health),
            connect: match yd.connect {
                Some(v) => v,
                None => g.connect,
            },
            response: match yd.response {
                Some(v) => v,
                None => g.response,
            },
            client_timeout: match yd.client_timeout {
                Some(v) => v,
                None => g.client_timeout,
            },
            max_body_size: match yd.max_body_size {
                Some(v) => v,
                None => g.max_body_size,
            },
            allow_ip,
            deny_ip,
            jwt_secret: pick_text(&yd.jwt_secret, &g.jwt_secret),
            cache: pick_cache(&yd.cache, g.cache),
            backend_pool_size: match yd.backend_pool_size {
                Some(v) => v,
                None => g.backend_pool_size,
            },
        };
        assert(d@ == domain_level(*yd, g@));
        let re = match compile_pattern(yd.match_.as_str()) {
            Ok(p) => p,
            Err(e) => {
                return Err(e);
            },
        };
        let def = match &yd.default {
            Some(l) => match self.parse_backend_list(l.as_slice(), d.balance, d.connect, d.response) {
                Ok(x) => x,
                Err(e) => {
                    return Err(e);
                },
            },
            None => None,
        };
        push_checks(checks, &def, &d.health);
        let ghost with_def = check_models(checks@);
        let routes = match self.parse_routes(yd.routes.as_slice(), &d, id, checks) {
            Ok(x) => x,
            Err(e) => {
                return Err(e);
            },
        };
        let domain = Domain {
            allow_ip: copy_nets(&d.allow_ip),
            deny_ip: copy_nets(&d.deny_ip),
            jwt_secret: copy_text(&d.jwt_secret),
            cache: d.cache,
            re,
            routes,
            def,
            set_headers: copy_map(&yd.set_headers),
            client_timeout: d.client_timeout,
            max_body_size: d.max_body_size,
            log_level: pick_level(&yd.log_level),
            backend_pool_size: Some(d.backend_pool_size),
            listen: pick_strings(&yd.listen, listen),
            tls_listen: pick_strings(&yd.tls_listen, tls_listen),
            tls_cert: copy_text(&yd.tls_cert),
            tls_key: copy_text(&yd.tls_key),
            tls_sni: copy_texts(&yd.tls_sni),
        };
        proof {
            assert(domain@ == domain_model(
                *yd,
                g@,
                text::texts(listen@),
                text::texts(tls_listen@),
                old(self).next_id(),
                id as int,
            ));
            assert forall|i: int| 0 <= i < domain@.routes.len() implies route_wf(
                #[trigger] domain@.routes[i],
            ) by {
                assert(domain@.routes[i] == domain.routes@[i]@);
            }
            assert(check_models(checks@) =~= check_models(old(checks)@) + domain_checks(
                domain@,
                d@.health,
            ));
        }
        Ok(domain)
    }

    /// The domains of a list. Appends the checks of their backends.
    fn parse_domains(
        &mut self,
        yds: &[YamlDomain],
        g: &Inherited,
        listen: &Vec<String>,
        tls_listen: &Vec<String>,
        checks: &mut Vec<(Backend, Option<Hspec>)>,
    ) -> (r: Result<Vec<Domain>, String>)
        requires
            old(self).next_id() + domains_count(yds@) <= usize::MAX,
            routes_total(yds@) <= usize::MAX,
            opt_nets_wf(g@.allow_ip),
            opt_nets_wf(g@.deny_ip),
        ensures
            final(self).memory() == old(self).memory(),
            match r {
                Ok(x) => {
                    &&& domains_error(yds@) is None
                    &&& domain_models(x@) == domains_from(
                        yds@,
                        g@,
                        text::texts(listen@),
                        text::texts(tls_listen@),
                        old(self).next_id(),
                    )
                    &&& forall|i: int| 0 <= i < x@.len() ==> domain_wf((#[trigger] x@[i])@)
                    &&& check_models(final(checks)@) == check_models(old(checks)@)
                        + domains_checks(yds@, domain_models(x@), g@)
                    &&& final(self).next_id() == old(self).next_id() + domains_count(yds@)
                    &&& final(self).max_response() == domains_longest(
                        yds@,
                        g.response,
                        old(self).max_response(),
                    )
                },
                Err(e) => {
                    &&& domains_error(yds@) == Some(e@)
                    &&& final(self).partway(
                        *old(self),
                        domains_count(yds@),
                        domains_longest(yds@, g.response, old(self).max_response()),
                    )
                },
            },
    {
        let mut out: Vec<Domain> = Vec::new();
        let mut route_id: usize = 0;
        proof {
            assert(yds@.skip(0) =~= yds@);
            assert(domain_models(out@) =~= Seq::<DomainModel>::empty());
            assert(check_models(checks@) + domains_checks(yds@.take(0), domain_models(out@), g@)
                =~= check_models(checks@));
        }
        for i in 0..yds.len()
            invariant
                old(self).next_id() + domains_count(yds@) <= usize::MAX,
                routes_total(yds@) <= usize::MAX,
                opt_nets_wf(g@.allow_ip),
                opt_nets_wf(g@.deny_ip),
                self.memory() == old(self).memory(),
                domains_error(yds@) == domains_error(yds@.skip(i as int)),
                out@.len() == i,
                route_id == routes_total(yds@.take(i as int)),
                domain_models(out@) == domains_from(
                    yds@.take(i as int),
                    g@,
                    text::texts(listen@),
                    text::texts(tls_listen@),
                    old(self).next_id(),
                ),
                forall|j: int| 0 <= j < i ==> domain_wf((#[trigger] out@[j])@),
                check_models(checks@) == check_models(old(checks)@) + domains_checks(
                    yds@.take(i as int),
                    domain_models(out@),
                    g@,
                ),
                self.next_id() == old(self).next_id() + domains_count(yds@.take(i as int)),
                self.max_response() == domains_longest(
                    yds@.take(i as int),
                    g.response,
                    old(self).max_response(),
                ),
        {
            let ghost before = out@;
            let ghost before_checks = check_models(checks@);
            proof {
                assert(yds@.skip(i as int)[0] == yds@[i as int]);
                assert(yds@.skip(i as int).drop_first() =~= yds@.skip(i + 1));
                assert(yds@.take(i + 1).drop_last() =~= yds@.take(i as int));
                lemma_domains_grow(yds@, i + 1);
                lemma_domains_longest_grows(yds@, g.response, old(self).max_response(), i as int);
                lemma_domains_longest_grows(yds@, g.response, old(self).max_response(), i + 1);
            }
            match self.parse_domain(&yds[i], g, listen, tls_listen, route_id, checks) {
                Ok(x) => {
                    let ghost m = x@;
                    out.push(x);
                    route_id = route_id + yds[i].routes.len();
                    proof {
                        assert(domain_models(out@) =~= domain_models(before).push(m));
                        assert(domain_models(out@).drop_last() =~= domain_models(before));
                        assert(check_models(checks@) =~= check_models(old(checks)@) + (
                        domains_checks(yds@.take(i as int), domain_models(before), g@)
                            + domain_checks(m, domain_level(yds@[i as int], g@).health)));
                    }
                },
                Err(e) => {
                    return Err(e);
                },
            }
        }
        assert(yds@.take(yds@.len() as int) =~= yds@);
        Ok(out)
    }
}

// ---------------------------------------------------------------------------
// The whole
// ---------------------------------------------------------------------------

/// What the machine tells about itself.
pub struct HostEnv {
    /// Number of threads that can run at a time, where it is known.
    pub parallelism: Option<usize>,
    /// Value of `TLS_CERT_PATH`.
    pub tls_cert_path: Option<String>,
    /// Value of `TLS_KEY_PATH`.
    pub tls_key_path: Option<String>,
}

/// Added to the longest response time for the time that a worker may take to finish.
pub const WORKER_DRAIN_MARGIN_SECS: u64 = 5;

/// Number of workers that a setting asks for, before it is brought into range.
pub open spec fn workers_asked(setting: Option<String>, host: HostEnv) -> int {
    let auto = match host.parallelism {
        Some(n) => n as int,
        None => 4,
    };
    match setting {
        Some(s) => if s@ == "auto"@ {
            auto
        } else {
            match text::parse_unsigned(encode_utf8(s@), 10, usize::MAX as nat) {
                Some(n) => n as int,
                None => auto,
            }
        },
        None => auto,
    }
}

/// Number of workers: at least 1 and at most 256.
pub open spec fn workers_of(setting: Option<String>, host: HostEnv) -> usize {
    let n = workers_asked(setting, host);
    if n > 256 {
        256
    } else if n == 0 {
        1
    } else {
        n as usize
    }
}

fn count_workers(setting: &Option<String>, host: &HostEnv) -> (r: usize)
    ensures
        r == workers_of(*setting, *host),
{
    let auto: usize = match host.parallelism {
        Some(n) => n,
        None => 4,
    };
    let n: usize = match setting {
        Some(s) => if str_eq(s.as_str(), "auto") {
            auto
        } else {
            match read_unsigned(s.as_str().as_bytes(), 10, usize::MAX as u64) {
                Some(v) => v as usize,
                None => auto,
            }
        },
        None => auto,
    };
    if n > 256 {
        256
    } else if n == 0 {
        1
    } else {
        n
    }
}

/// A budget, where it is not zero.
pub open spec fn nonzero(v: Option<u64>) -> Option<u64> {
    match v {
        Some(n) if n > 0 => Some(n),
        _ => None,
    }
}

/// What the domains inherit.
pub open spec fn global_level(yc: YamlConfig) -> InheritedModel {
    InheritedModel {
        balance: balance_or(yc.balance, Balance::RoundRobin),
        health: health_or(yc.health, None),
        connect: or(yc.connect, 5),
        response: or(yc.response, 30),
        client_timeout: or(yc.client_timeout, 60),
        max_body_size: or(yc.max_body_size, 2097152),
        allow_ip: nets_or(yc.allow_ip, None),
        deny_ip: nets_or(yc.deny_ip, None),
        jwt_secret: opt_text(yc.jwt_secret),
        cache: cache_or(yc.cache, None),
        backend_pool_size: or(yc.backend_pool_size, 16),
    }
}

/// The domains of the file.
pub open spec fn domains_of(yc: YamlConfig) -> Seq<YamlDomain> {
    match yc.domains {
        Some(v) => v@,
        None => seq![],
    }
}

/// What is wrong with the settings that the domains inherit.
pub open spec fn level_error(yc: YamlConfig) -> Option<Seq<char>> {
    first(
        balance_error(yc.balance),
        first(nets_error("allow_ip"@, yc.allow_ip), nets_error("deny_ip"@, yc.deny_ip)),
    )
}

/// What is wrong with the file.
pub open spec fn config_error(yc: YamlConfig) -> Option<Seq<char>> {
    first(
        level_error(yc),
        first(backends_error(given(yc.default)), domains_error(domains_of(yc))),
    )
}

/// Number of backends that the file brings.
pub open spec fn config_count(yc: YamlConfig) -> nat {
    given(yc.default).len() + domains_count(domains_of(yc))
}

/// Whether the backends of a file, numbered from `next` on, and its routes can be counted at all.
pub open spec fn countable(yc: YamlConfig, next: int) -> bool {
    &&& next + config_count(yc) <= usize::MAX
    &&& routes_total(domains_of(yc)) <= usize::MAX
}

/// Whether the shared values have room for the backends of a file, numbered from `next` on.
pub open spec fn has_room(yc: YamlConfig, next: int, shm: SharedMemory) -> bool {
    next + config_count(yc) <= shm.backends@.len()
}

/// The longest response time of any backend, and no less than `m`.
pub open spec fn config_longest(yc: YamlConfig, m: u64) -> u64 {
    let response = or(yc.response, 30);
    domains_longest(domains_of(yc), response, longest(given(yc.default), response, m))
}

/// The configuration that the file describes, its backends numbered from `start` on. `m` is the
/// longest response time that was seen before.
pub open spec fn config_model(yc: YamlConfig, host: HostEnv, start: int, m: u64) -> ConfigModel {
    let g = global_level(yc);
    let listen = texts_or(yc.listen, seq!["0.0.0.0:80"@]);
    let tls_listen = texts_or(yc.tls_listen, seq![]);
    ConfigModel {
        allow_ip: g.allow_ip,
        deny_ip: g.deny_ip,
        jwt_secret: g.jwt_secret,
        cache: g.cache,
        listen,
        tls_listen,
        listen_iface: opt_text(yc.listen_iface),
        tls_cert: text_or(yc.tls_cert, opt_text(host.tls_cert_path)),
        tls_key: text_or(yc.tls_key, opt_text(host.tls_key_path)),
        metrics_listen: opt_text(yc.metrics_listen),
        metrics_path: text_or(yc.metrics_path, Some("/metrics"@)),
        metrics_token: opt_text(yc.metrics_token),
        metrics_basic_auth: opt_text(yc.metrics_basic_auth),
        cache_max_bytes: or(yc.cache_max_bytes, 104857600),
        domains: domains_from(
            domains_of(yc),
            g,
            listen,
            tls_listen,
            start + given(yc.default).len(),
        ),
        def: list_from(given(yc.default), g.balance, g.connect, g.response, start),
        set_headers: opt_map(yc.set_headers),
        client_timeout: g.client_timeout,
        max_body_size: g.max_body_size,
        max_headers_size: or(yc.max_headers_size, 8192),
        has_qos: domains_qos(domains_of(yc)),
        max_active_requests: or(yc.max_active_requests, 10000),
        normalize_path: or(yc.normalize_path, true),
        reject_encoded_slash: or(yc.reject_encoded_slash, false),
        log_level: match yc.log_level {
            Some(s) => log_level_of(s@),
            None => 3,
        },
        workers: workers_of(yc.workers, host),
        backend_pool_size: g.backend_pool_size,
        cpu_affinity: opt_text(yc.cpu_affinity),
        sqpoll: opt_text(yc.sqpoll),
        sqpoll_idle_ms: yc.sqpoll_idle_ms,
        uring_flags: opt_text(yc.uring_flags),
        worker_lifetime: nonzero(yc.worker_lifetime),
        worker_max_requests: nonzero(yc.worker_max_requests),
        worker_drain: drain_of(yc.worker_drain, config_longest(yc, m)),
    }
}

/// The checks of the backends that the file describes.
pub open spec fn config_checks(yc: YamlConfig, c: ConfigModel) -> Seq<Check> {
    list_checks(c.def, global_level(yc).health) + domains_checks(
        domains_of(yc),
        c.domains,
        global_level(yc),
    )
}

fn read_level(yc: &YamlConfig) -> (r: Result<Inherited, String>)
    ensures
        match r {
            Ok(g) => {
                &&& level_error(*yc) is None
                &&& g@ == global_level(*yc)
                &&& opt_nets_wf(g@.allow_ip)
                &&& opt_nets_wf(g@.deny_ip)
            },
            Err(e) => level_error(*yc) == Some(e@),
        },
{
    let balance = match pick_balance(&yc.balance, Balance::RoundRobin) {
        Ok(b) => b,
        Err(e) => {
            return Err(e);
        },
    };
    let allow_ip = match pick_nets("allow_ip", &yc.allow_ip, &None) {
        Ok(n) => n,
        Err(e) => {
            return Err(e);
        },
    };
    let deny_ip = match pick_nets("deny_ip", &yc.deny_ip, &None) {
        Ok(n) => n,
        Err(e) => {
            return Err(e);
        },
    };
    let g = Inherited {
        balance,
        health: pick_health(&yc.health, &None),
        connect: match yc.connect {
            Some(v) => v,
            None => 5,
        },
        response: match yc.response {
            Some(v) => v,
            None => 30,
        },
        client_timeout: match yc.client_timeout {
            Some(v) => v,
            None => 60,
        },
        max_body_size: match yc.max_body_size {
            Some(v) => v,
            None => 2097152,
        },
        allow_ip,
        deny_ip,
        jwt_secret: copy_text(&yc.jwt_secret),
        cache: pick_cache(&yc.cache, None),
        backend_pool_size: match yc.backend_pool_size {
            Some(v) => v,
            None => 16,
        },
    };
    assert(g@ == global_level(*yc));
    Ok(g)
}

/// How long a worker may take to finish: as the file says, or else a little longer than the longest
/// response, and at least half a minute.
pub open spec fn drain_of(setting: Option<u64>, longest: u64) -> u64 {
    or(setting, max(longest.saturating_add(WORKER_DRAIN_MARGIN_SECS), 30))
}

fn pick_drain(setting: Option<u64>, longest: u64) -> (r: u64)
    ensures
        r == drain_of(setting, longest),
{
    match setting {
        Some(v) => v,
        None => {
            let ceiling: u64 = longest.saturating_add(WORKER_DRAIN_MARGIN_SECS);
            if ceiling >= 30 {
                ceiling
            } else {
                30
            }
        },
    }
}

proof fn lemma_config_longest(yc: YamlConfig, m: u64)
    ensures
        ({
            let own = longest(given(yc.default), or(yc.response, 30), m);
            m <= own <= config_longest(yc, m)
        }),
{
    let response = or(yc.response, 30);
    let own = longest(given(yc.default), response, m);
    lemma_longest(given(yc.default), response, m);
    lemma_domains_longest(domains_of(yc), response, own);
}

fn any_qos(yds: &[YamlDomain]) -> (r: bool)
    ensures
        r == domains_qos(yds@),
{
    for i in 0..yds.len()
        invariant
            forall|j: int| 0 <= j < i ==> !routes_qos((#[trigger] yds@[j]).routes@),
    {
        if any_threshold(yds[i].routes.as_slice()) {
            assert(routes_qos(yds@[i as int].routes@));
            return true;
        }
    }
    false
}

fn keep_nonzero(v: Option<u64>) -> (r: Option<u64>)
    ensures
        r == nonzero(v),
{
    match v {
        Some(n) => if n > 0 {
            Some(n)
        } else {
            None
        },
        None => None,
    }
}

impl<'a> ConfigLoader<'a> {
    /// The configuration that the file describes, and the backends to check. The loader goes on
    /// counting from the backends that it has numbered before. After an error it stands where the
    /// error came up.
    pub fn load(&mut self, yc: &YamlConfig, host: &HostEnv) -> (r: Result<
        (Config, Vec<(Backend, Option<Hspec>)>),
        String,
    >)
        requires
            countable(*yc, old(self).next_id()),
            config_error(*yc) is None ==> has_room(*yc, old(self).next_id(), old(self).memory()),
        ensures
            final(self).memory() == old(self).memory(),
            match r {
                Ok((cfg, checks)) => {
                    &&& config_error(*yc) is None
                    &&& cfg@ == config_model(
                        *yc,
                        *host,
                        old(self).next_id(),
                        old(self).max_response(),
                    )
                    &&& check_models(checks@) == config_checks(*yc, cfg@)
                    &&& config_wf(cfg@)
                    &&& final(self).next_id() == old(self).next_id() + config_count(*yc)
                    &&& final(self).max_response() == config_longest(
                        *yc,
                        old(self).max_response(),
                    )
                },
                Err(e) => {
                    &&& config_error(*yc) == Some(e@)
                    &&& old(self).next_id() <= final(self).next_id() <= old(self).next_id()
                        + config_count(*yc)
                    &&& old(self).max_response() <= final(self).max_response() <= config_longest(
                        *yc,
                        old(self).max_response(),
                    )
                },
            },
    {
        self.read_file(yc, host)
    }

    /// The same, whether or not the shared values have room for the backends.
    fn read_file(&mut self, yc: &YamlConfig, host: &HostEnv) -> (r: Result<
        (Config, Vec<(Backend, Option<Hspec>)>),
        String,
    >)
        requires
            countable(*yc, old(self).next_id()),
        ensures
            final(self).memory() == old(self).memory(),
            match r {
                Ok((cfg, checks)) => {
                    &&& config_error(*yc) is None
                    &&& cfg@ == config_model(
                        *yc,
                        *host,
                        old(self).next_id(),
                        old(self).max_response(),
                    )
                    &&& check_models(checks@) == config_checks(*yc, cfg@)
                    &&& config_wf(cfg@)
                    &&& final(self).next_id() == old(self).next_id() + config_count(*yc)
                    &&& final(self).max_response() == config_longest(
                        *yc,
                        old(self).max_response(),
                    )
                },
                Err(e) => {
                    &&& config_error(*yc) == Some(e@)
                    &&& final(self).partway(
                        *old(self),
                        config_count(*yc),
                        config_longest(*yc, old(self).max_response()),
                    )
                },
            },
    {
        proof {
            lemma_config_longest(*yc, old(self).max_response());
        }
        let g = match read_level(yc) {
            Ok(g) => g,
            Err(e) => {
                return Err(e);
            },
        };
        let mut checks: Vec<(Backend, Option<Hspec>)> = Vec::new();
        let def = match &yc.default {
            Some(l) => match self.parse_backend_list(l.as_slice(), g.balance, g.connect, g.response) {
                Ok(x) => x,
                Err(e) => {
                    return Err(e);
                },
            },
            None => None,
        };
        push_checks(&mut checks, &def, &g.health);
        let listen = match &yc.listen {
            Some(l) => copy_strings(l),
            None => {
                let mut l: Vec<String> = Vec::new();
                l.push("0.0.0.0:80".to_owned());
                assert(text::texts(l@) =~= seq!["0.0.0.0:80"@]);
                l
            },
        };
        let tls_listen: Vec<String> = match &yc.tls_listen {
            Some(l) => copy_strings(l),
            None => {
                let l: Vec<String> = Vec::new();
                assert(text::texts(l@) =~= Seq::<Seq<char>>::empty());
                l
            },
        };
        let ghost with_def = check_models(checks@);
        proof {
            assert(with_def =~= list_checks(opt_list(def), g@.health));
        }
        let (domains, has_qos): (Vec<Domain>, bool) = match &yc.domains {
            Some(yds) => match self.parse_domains(
                yds.as_slice(),
                &g,
                &listen,
                &tls_listen,
                &mut checks,
            ) {
                Ok(x) => (x, any_qos(yds.as_slice())),
                Err(e) => {
                    return Err(e);
                },
            },
            None => {
                let x: Vec<Domain> = Vec::new();
                assert(domain_models(x@) =~= Seq::<DomainModel>::empty());
                assert(with_def + domains_checks(seq![], domain_models(x@), g@) =~= with_def);
                (x, false)
            },
        };
        let cfg = Config {
            allow_ip: copy_nets(&g.allow_ip),
            deny_ip: copy_nets(&g.deny_ip),
            jwt_secret: copy_text(&g.jwt_secret),
            cache: g.cache,
            listen,
            tls_listen,
            listen_iface: copy_text(&yc.listen_iface),
            tls_cert: pick_text(&yc.tls_cert, &host.tls_cert_path),
            tls_key: pick_text(&yc.tls_key, &host.tls_key_path),
            metrics_listen: copy_text(&yc.metrics_listen),
            metrics_path: match &yc.metrics_path {
                Some(p) => Some(p.clone()),
                None => Some("/metrics".to_owned()),
            },
            metrics_token: copy_text(&yc.metrics_token),
            metrics_basic_auth: copy_text(&yc.metrics_basic_auth),
            cache_max_bytes: match yc.cache_max_bytes {
                Some(v) => v,
                None => 104857600,
            },
            domains,
            def,
            set_headers: copy_map(&yc.set_headers),
            client_timeout: g.client_timeout,
            max_body_size: g.max_body_size,
            max_headers_size: match yc.max_headers_size {
                Some(v) => v,
                None => 8192,
            },
            has_qos,
            max_active_requests: match yc.max_active_requests {
                Some(v) => v,
                None => 10000,
            },
            normalize_path: match yc.normalize_path {
                Some(v) => v,
                None => true,
            },
            reject_encoded_slash: match yc.reject_encoded_slash {
                Some(v) => v,
                None => false,
            },
            log_level: match &yc.log_level {
                Some(s) => parse_log_level(s.as_str()),
                None => 3,
            },
            workers: count_workers(&yc.workers, host),
            backend_pool_size: g.backend_pool_size,
            cpu_affinity: copy_text(&yc.cpu_affinity),
            sqpoll: copy_text(&yc.sqpoll),
            sqpoll_idle_ms: yc.sqpoll_idle_ms,
            uring_flags: copy_text(&yc.uring_flags),
            worker_lifetime: keep_nonzero(yc.worker_lifetime),
            worker_max_requests: keep_nonzero(yc.worker_max_requests),
            worker_drain: pick_drain(yc.worker_drain, self.max_response_to),
        };
        proof {
            assert(cfg@ == config_model(
                *yc,
                *host,
                old(self).next_id(),
                old(self).max_response(),
            ));
            assert forall|i: int| 0 <= i < cfg@.domains.len() implies domain_wf(
                #[trigger] cfg@.domains[i],
            ) by {
                assert(cfg@.domains[i] == cfg.domains@[i]@);
            }
        }
        Ok((cfg, checks))
    }
}

// ---------------------------------------------------------------------------
// Size of a file
// ---------------------------------------------------------------------------

fn given_len(l: &Option<Vec<YamlBackend>>) -> (r: Option<usize>)
    ensures
        text::is_count(r, given(*l).len()),
{
    match l {
        Some(v) => Some(v.len()),
        None => Some(0),
    }
}

fn rules_size(vs: &[YamlValidateRule]) -> (r: Option<usize>)
    ensures
        text::is_count(r, rules_count(vs@)),
{
    let mut sum: Option<usize> = Some(0);
    for i in 0..vs.len()
        invariant
            text::is_count(sum, rules_count(vs@.take(i as int))),
    {
        assert(vs@.take(i + 1).drop_last() =~= vs@.take(i as int));
        let n = match &vs[i].on_fail {
            Some(f) => given_len(&f.backends),
            None => Some(0),
        };
        sum = plus(
            sum,
            n,
            Ghost(rules_count(vs@.take(i as int))),
            Ghost(fail_backends(vs@[i as int]).len()),
        );
    }
    assert(vs@.take(vs@.len() as int) =~= vs@);
    sum
}

fn routes_size(yrs: &[YamlRoute]) -> (r: Option<usize>)
    ensures
        text::is_count(r, routes_count(yrs@)),
{
    let mut sum: Option<usize> = Some(0);
    for i in 0..yrs.len()
        invariant
            text::is_count(sum, routes_count(yrs@.take(i as int))),
    {
        assert(yrs@.take(i + 1).drop_last() =~= yrs@.take(i as int));
        let yr = &yrs[i];
        let rules = match &yr.validate {
            Some(v) => rules_size(v.as_slice()),
            None => Some(0),
        };
        let n = plus(
            given_len(&yr.backends),
            rules,
            Ghost(given(yr.backends).len()),
            Ghost(rules_count(rules_of(*yr))),
        );
        sum = plus(
            sum,
            n,
            Ghost(routes_count(yrs@.take(i as int))),
            Ghost(route_count(*yr)),
        );
    }
    assert(yrs@.take(yrs@.len() as int) =~= yrs@);
    sum
}

fn domains_size(yds: &[YamlDomain]) -> (r: (Option<usize>, Option<usize>))
    ensures
        text::is_count(r.0, domains_count(yds@)),
        text::is_count(r.1, routes_total(yds@)),
{
    let mut backends: Option<usize> = Some(0);
    let mut routes: Option<usize> = Some(0);
    for i in 0..yds.len()
        invariant
            text::is_count(backends, domains_count(yds@.take(i as int))),
            text::is_count(routes, routes_total(yds@.take(i as int))),
    {
        assert(yds@.take(i + 1).drop_last() =~= yds@.take(i as int));
        let yd = &yds[i];
        let n = plus(
            given_len(&yd.default),
            routes_size(yd.routes.as_slice()),
            Ghost(given(yd.default).len()),
            Ghost(routes_count(yd.routes@)),
        );
        backends = plus(
            backends,
            n,
            Ghost(domains_count(yds@.take(i as int))),
            Ghost(domain_count(*yd)),
        );
        routes = plus(
            routes,
            Some(yd.routes.len()),
            Ghost(routes_total(yds@.take(i as int))),
            Ghost(yd.routes@.len()),
        );
    }
    assert(yds@.take(yds@.len() as int) =~= yds@);
    (backends, routes)
}

/// Number of backends and of routes that a file brings.
pub fn file_size(yc: &YamlConfig) -> (r: (Option<usize>, Option<usize>))
    ensures
        text::is_count(r.0, config_count(*yc)),
        text::is_count(r.1, routes_total(domains_of(*yc))),
{
    let (backends, routes) = match &yc.domains {
        Some(v) => domains_size(v.as_slice()),
        None => (Some(0), Some(0)),
    };
    let all = plus(
        given_len(&yc.default),
        backends,
        Ghost(given(yc.default).len()),
        Ghost(domains_count(domains_of(*yc))),
    );
    (all, routes)
}

impl<'a> ConfigLoader<'a> {
    /// The configuration that the file describes, and the backends to check. A file that is wrong
    /// is told so in any case; for one that is not, `None` says that the shared values have no room
    /// for its backends, and the loader is as it was.
    pub fn load_within(&mut self, yc: &YamlConfig, host: &HostEnv) -> (r: Option<
        Result<(Config, Vec<(Backend, Option<Hspec>)>), String>,
    >)
        requires
            countable(*yc, old(self).next_id()),
        ensures
            final(self).memory() == old(self).memory(),
            match r {
                Some(Ok((cfg, checks))) => {
                    &&& has_room(*yc, old(self).next_id(), old(self).memory())
                    &&& config_error(*yc) is None
                    &&& cfg@ == config_model(
                        *yc,
                        *host,
                        old(self).next_id(),
                        old(self).max_response(),
                    )
                    &&& check_models(checks@) == config_checks(*yc, cfg@)
                    &&& config_wf(cfg@)
                    &&& final(self).next_id() == old(self).next_id() + config_count(*yc)
                    &&& final(self).max_response() == config_longest(
                        *yc,
                        old(self).max_response(),
                    )
                },
                Some(Err(e)) => {
                    &&& config_error(*yc) == Some(e@)
                    &&& old(self).next_id() <= final(self).next_id() <= old(self).next_id()
                        + config_count(*yc)
                    &&& old(self).max_response() <= final(self).max_response() <= config_longest(
                        *yc,
                        old(self).max_response(),
                    )
                },
                None => {
                    &&& !has_room(*yc, old(self).next_id(), old(self).memory())
                    &&& config_error(*yc) is None
                    &&& final(self).next_id() == old(self).next_id()
                    &&& final(self).max_response() == old(self).max_response()
                },
            },
    {
        let next: usize = self.next_backend_id;
        let longest_before: u64 = self.max_response_to;
        match self.read_file(yc, host) {
            Ok(loaded) => {
                if self.next_backend_id > self.shm.backends.len() {
                    self.next_backend_id = next;
                    self.max_response_to = longest_before;
                    return None;
                }
                Some(Ok(loaded))
            },
            Err(e) => Some(Err(e)),
        }
    }
}

} // verus!
