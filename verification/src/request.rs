//! What becomes of a request before it goes upstream: it is refused, answered, or sent on.

use vstd::prelude::*;
use vstd::string::*;
use vstd::utf8::*;

use crate::buf_pool::BUF_SIZE;
use crate::config;
use crate::config::{RouteCache, ValidateType};
use crate::fast_proxy;
use crate::fast_proxy::{
    effective_policy, failed_rule, post_conditions_hold, BalancerAt, FastDomainState,
    FastRouteState, FastRouter, FastValidateRule, HeaderFragment, Policy, Routed,
};
use crate::http;
use crate::http::{has_header, text_of, validate_request_framing, Header, RequestHead};
use crate::header_util;
use crate::header_util::contains_ci;
use crate::jwt;
use crate::jwt::{jwt_authorized, JwtCache};
use crate::net;
use crate::net::{any_contains, IpAddr, IpNet};
use crate::path;
use crate::path::{needs_path_normalize, normalize_path_into};
use crate::rate;
use crate::rate::RateLimiter;
use crate::text;
use crate::text::{push_bytes, str_eq_ci, strip_prefix};

verus! {

// ---------------------------------------------------------------------------
// Refusals
// ---------------------------------------------------------------------------

/// Why a request is refused.
#[derive(Clone, Copy, PartialEq, Eq, Structural, Debug)]
pub enum Refusal {
    /// The worker has too many requests already.
    Busy,
    /// The head does not end within the limit.
    HeadTooLarge,
    /// The head or its framing is malformed.
    BadRequest,
    /// No backends serve the request.
    NoRoute,
    /// The client's address is not let in.
    Forbidden,
    /// There is no valid token.
    Unauthorized,
    /// The client exceeds its rate limit.
    RateLimited,
    /// The body is larger than allowed.
    TooLarge,
    /// The body does not meet the conditions of the route.
    PostRejected,
    /// The machine or the worker is too busy for the route.
    QosDrop,
    /// No backend answers.
    BadGateway,
}

/// The counter of refused requests that a refusal adds to.
#[derive(Clone, Copy, PartialEq, Eq, Structural, Debug)]
pub enum DropCounter {
    Qos,
    RateLimit,
    Ip,
    Jwt,
    Rule,
}

/// What is counted of an answer: its status, a refusal, and the bytes sent.
#[derive(Clone, Copy, PartialEq, Eq, Structural, Debug)]
pub struct Tally {
    pub status: Option<u16>,
    pub drop: Option<DropCounter>,
    pub bytes_tx: u64,
}

/// The answer to a refused request.
pub open spec fn refusal_text(r: Refusal) -> &'static str {
    match r {
        Refusal::Busy => "HTTP/1.1 503 Service Unavailable\r\nContent-Length: 19\r\nConnection: close\r\n\r\nService Unavailable",
        Refusal::HeadTooLarge => "HTTP/1.1 431 Request Header Fields Too Large\r\nConnection: close\r\n\r\n",
        Refusal::BadRequest => "HTTP/1.1 400 Bad Request\r\nConnection: close\r\n\r\n",
        Refusal::NoRoute => "HTTP/1.1 502 Bad Gateway\r\nConnection: close\r\n\r\n",
        Refusal::Forbidden => "HTTP/1.1 403 Forbidden\r\nConnection: close\r\n\r\n",
        Refusal::Unauthorized => "HTTP/1.1 401 Unauthorized\r\nConnection: close\r\n\r\n",
        Refusal::RateLimited => "HTTP/1.1 429 Too Many Requests\r\nConnection: close\r\n\r\n",
        Refusal::TooLarge => "HTTP/1.1 413 Payload Too Large\r\nConnection: close\r\n\r\n",
        Refusal::PostRejected => "HTTP/1.1 403 Forbidden\r\nConnection: close\r\n\r\n",
        Refusal::QosDrop => "HTTP/1.1 503 Service Unavailable\r\nContent-Length: 30\r\nConnection: close\r\n\r\nService Unavailable (QoS Drop)",
        Refusal::BadGateway => "HTTP/1.1 502 Bad Gateway\r\nConnection: close\r\n\r\n",
    }
}

/// The status that is counted for a refused request. Malformed requests and those that no backends
/// serve are not counted.
pub open spec fn refusal_status(r: Refusal) -> Option<u16> {
    match r {
        Refusal::Busy | Refusal::QosDrop => Some(503),
        Refusal::HeadTooLarge | Refusal::BadRequest | Refusal::NoRoute => None,
        Refusal::Forbidden | Refusal::PostRejected => Some(403),
        Refusal::Unauthorized => Some(401),
        Refusal::RateLimited => Some(429),
        Refusal::TooLarge => Some(413),
        Refusal::BadGateway => Some(502),
    }
}

/// The counter of refused requests that a refusal adds to.
pub open spec fn refusal_drop(r: Refusal) -> Option<DropCounter> {
    match r {
        Refusal::Forbidden => Some(DropCounter::Ip),
        Refusal::Unauthorized => Some(DropCounter::Jwt),
        Refusal::RateLimited => Some(DropCounter::RateLimit),
        Refusal::PostRejected => Some(DropCounter::Rule),
        Refusal::QosDrop => Some(DropCounter::Qos),
        _ => None,
    }
}

/// Whether the bytes of the answer are counted.
pub open spec fn refusal_counts_bytes(r: Refusal) -> bool {
    r is QosDrop || r is BadGateway
}

impl Refusal {
    /// The answer to the refused request.
    pub fn response(self) -> (r: &'static str)
        ensures
            r@ == refusal_text(self)@,
    {
        match self {
            Refusal::Busy => "HTTP/1.1 503 Service Unavailable\r\nContent-Length: 19\r\nConnection: close\r\n\r\nService Unavailable",
            Refusal::HeadTooLarge => "HTTP/1.1 431 Request Header Fields Too Large\r\nConnection: close\r\n\r\n",
            Refusal::BadRequest => "HTTP/1.1 400 Bad Request\r\nConnection: close\r\n\r\n",
            Refusal::NoRoute => "HTTP/1.1 502 Bad Gateway\r\nConnection: close\r\n\r\n",
            Refusal::Forbidden => "HTTP/1.1 403 Forbidden\r\nConnection: close\r\n\r\n",
            Refusal::Unauthorized => "HTTP/1.1 401 Unauthorized\r\nConnection: close\r\n\r\n",
            Refusal::RateLimited => "HTTP/1.1 429 Too Many Requests\r\nConnection: close\r\n\r\n",
            Refusal::TooLarge => "HTTP/1.1 413 Payload Too Large\r\nConnection: close\r\n\r\n",
            Refusal::PostRejected => "HTTP/1.1 403 Forbidden\r\nConnection: close\r\n\r\n",
            Refusal::QosDrop => "HTTP/1.1 503 Service Unavailable\r\nContent-Length: 30\r\nConnection: close\r\n\r\nService Unavailable (QoS Drop)",
            Refusal::BadGateway => "HTTP/1.1 502 Bad Gateway\r\nConnection: close\r\n\r\n",
        }
    }

    /// What is counted of the answer.
    pub fn tally(self) -> (r: Tally)
        ensures
            r.status == refusal_status(self),
            r.drop == refusal_drop(self),
            r.bytes_tx == if refusal_counts_bytes(self) {
                refusal_text(self).spec_bytes().len()
            } else {
                0
            },
    {
        let status: Option<u16> = match self {
            Refusal::Busy | Refusal::QosDrop => Some(503),
            Refusal::HeadTooLarge | Refusal::BadRequest | Refusal::NoRoute => None,
            Refusal::Forbidden | Refusal::PostRejected => Some(403),
            Refusal::Unauthorized => Some(401),
            Refusal::RateLimited => Some(429),
            Refusal::TooLarge => Some(413),
            Refusal::BadGateway => Some(502),
        };
        let drop = match self {
            Refusal::Forbidden => Some(DropCounter::Ip),
            Refusal::Unauthorized => Some(DropCounter::Jwt),
            Refusal::RateLimited => Some(DropCounter::RateLimit),
            Refusal::PostRejected => Some(DropCounter::Rule),
            Refusal::QosDrop => Some(DropCounter::Qos),
            _ => None,
        };
        let bytes_tx: u64 = match self {
            Refusal::QosDrop | Refusal::BadGateway => self.response().as_bytes().len() as u64,
            _ => 0,
        };
        Tally { status, drop, bytes_tx }
    }
}

// ---------------------------------------------------------------------------
// Reading the head
// ---------------------------------------------------------------------------

/// Whether a worker with the given number of requests, the new one among them, takes no more.
pub fn over_capacity(active: usize, max_active_requests: usize) -> (r: bool)
    ensures
        r == (active > max_active_requests),
{
    active > max_active_requests
}

/// What to do about a head that has not ended: read more, or refuse it where as much as the limit
/// is there already.
pub fn partial_head(buffered: usize, max_headers_size: u64) -> (r: Option<Refusal>)
    ensures
        r == if buffered >= max_headers_size {
            Some(Refusal::HeadTooLarge)
        } else {
            None
        },
{
    if buffered as u64 >= max_headers_size {
        Some(Refusal::HeadTooLarge)
    } else {
        None
    }
}

/// How a buffer gets room for more: whether its unread part moves to the front, and by how many
/// bytes its capacity grows.
#[derive(Clone, Copy, PartialEq, Eq, Structural, Debug)]
pub struct Room {
    pub compact: bool,
    pub grow: usize,
}

/// How a buffer gets room for more. Nothing is done while there is room behind what was read; a
/// full buffer is compacted, and one that is full of unread bytes doubles, to twice [`BUF_SIZE`]
/// at least.
pub fn make_room(start: usize, pos: usize, capacity: usize) -> (r: Room)
    requires
        start <= pos,
    ensures
        pos < capacity ==> r == (Room { compact: false, grow: 0 }),
        pos >= capacity ==> r.compact == (start > 0) && r.grow == if pos - start >= capacity {
            if capacity > BUF_SIZE {
                capacity
            } else {
                BUF_SIZE
            }
        } else {
            0
        },
{
    if pos < capacity {
        return Room { compact: false, grow: 0 };
    }
    let unread: usize = pos - start;
    let grow: usize = if unread >= capacity {
        if capacity > BUF_SIZE {
            capacity
        } else {
            BUF_SIZE
        }
    } else {
        0
    };
    Room { compact: start > 0, grow }
}

// ---------------------------------------------------------------------------
// The target
// ---------------------------------------------------------------------------

/// The target on which all decisions are taken and which goes upstream: the canonical one, where
/// canonicalisation is on and the raw one may need it.
pub open spec fn target_of(normalize: bool, raw: Seq<char>) -> Seq<char> {
    if normalize && "/"@.is_prefix_of(raw) && path::suspicious(encode_utf8(raw)) {
        decode_utf8(path::normalize(encode_utf8(raw)))
    } else {
        raw
    }
}

proof fn lemma_rooted(raw: Seq<char>)
    requires
        "/"@.is_prefix_of(raw),
    ensures
        encode_utf8(raw).len() > 0,
        encode_utf8(raw)[0] == path::SLASH,
{
    reveal_strlit("/");
    assert(raw[0] == "/"@[0]);
    assert(leading_byte_width_1(47u32) == 47u8) by (bit_vector);
}

/// The target on which all decisions are taken and which goes upstream.
pub fn request_target(normalize: bool, raw: &str) -> (r: String)
    ensures
        r@ == target_of(normalize, raw@),
{
    if normalize && strip_prefix(raw, "/").is_some() && needs_path_normalize(raw.as_bytes()) {
        let mut buf: Vec<u8> = Vec::new();
        normalize_path_into(raw, &mut buf);
        proof {
            lemma_rooted(raw@);
            encode_utf8_valid_utf8(raw@);
            path::law_normalized_is_text(encode_utf8(raw@));
        }
        if let Some(s) = text_of(buf.as_slice()) {
            return s.to_owned();
        }
    }
    raw.to_owned()
}

// ---------------------------------------------------------------------------
// Access
// ---------------------------------------------------------------------------

/// Networks, where there is a list.
pub open spec fn opt_list(v: Option<&Vec<IpNet>>) -> Option<Seq<IpNet>> {
    match v {
        Some(l) => Some(l@),
        None => None,
    }
}

/// Text, where there is some.
pub open spec fn opt_secret(v: Option<&String>) -> Option<Seq<char>> {
    match v {
        Some(s) => Some(s@),
        None => None,
    }
}

/// Whether an address is kept out: it lies in a refused network, or in none of those let in.
pub open spec fn kept_out(deny: Option<Seq<IpNet>>, allow: Option<Seq<IpNet>>, ip: IpAddr) -> bool {
    ||| deny matches Some(d) && net::any_holds(d, ip)
    ||| allow matches Some(a) && !net::any_holds(a, ip)
}

/// Whether a request may go on, and the memory of tokens afterwards. The address comes first; a
/// token is not looked at where the address is kept out.
pub open spec fn access(
    deny: Option<Seq<IpNet>>,
    allow: Option<Seq<IpNet>>,
    secret: Option<Seq<char>>,
    hs: Seq<http::Field>,
    ip: IpAddr,
    now_secs: u64,
    now: u64,
    tokens: Map<Seq<char>, jwt::VerdictModel>,
) -> (Option<Refusal>, Map<Seq<char>, jwt::VerdictModel>) {
    if kept_out(deny, allow, ip) {
        (Some(Refusal::Forbidden), tokens)
    } else {
        match secret {
            Some(s) => {
                let (ok, after) = jwt::judged(hs, s, now_secs, now, tokens);
                (
                    if ok {
                        None
                    } else {
                        Some(Refusal::Unauthorized)
                    },
                    after,
                )
            },
            None => (None, tokens),
        }
    }
}

/// Whether a request may go on: `None`, or why not.
pub fn check_access(
    policy: &Policy,
    headers: &[Header],
    ip: &IpAddr,
    now_secs: u64,
    now: u64,
    tokens: &mut JwtCache,
) -> (r: Option<Refusal>)
    requires
        config::opt_nets_wf(opt_list(policy.deny)),
        config::opt_nets_wf(opt_list(policy.allow)),
    ensures
        (r, final(tokens)@) == access(
            opt_list(policy.deny),
            opt_list(policy.allow),
            opt_secret(policy.jwt_secret),
            http::fields(headers@),
            *ip,
            now_secs,
            now,
            old(tokens)@,
        ),
{
    if let Some(deny) = policy.deny {
        if any_contains(deny.as_slice(), ip) {
            return Some(Refusal::Forbidden);
        }
    }
    if let Some(allow) = policy.allow {
        if !any_contains(allow.as_slice(), ip) {
            return Some(Refusal::Forbidden);
        }
    }
    if let Some(secret) = policy.jwt_secret {
        if !jwt_authorized(headers, secret.as_str(), now_secs, now, tokens) {
            return Some(Refusal::Unauthorized);
        }
    }
    None
}

// ---------------------------------------------------------------------------
// Settings of a request
// ---------------------------------------------------------------------------

/// The domain of a request.
pub open spec fn domain_of(router: FastRouter, at: Routed) -> Option<FastDomainState> {
    match at.domain {
        Some(d) => Some(router.domains@[d as int]),
        None => None,
    }
}

/// The route of a request.
pub open spec fn route_of(router: FastRouter, at: Routed) -> Option<FastRouteState> {
    match (at.domain, at.route) {
        (Some(d), Some(r)) => Some(router.domains@[d as int].routes@[r as int]),
        _ => None,
    }
}

/// The domain of a request.
pub fn domain_at<'a>(router: &'a FastRouter, at: &Routed) -> (r: Option<&'a FastDomainState>)
    requires
        fast_proxy::routed_within(*router, *at),
    ensures
        fast_proxy::pointee(r) == domain_of(*router, *at),
{
    match at.domain {
        Some(d) => Some(&router.domains[d]),
        None => None,
    }
}

/// The route of a request.
pub fn route_at<'a>(router: &'a FastRouter, at: &Routed) -> (r: Option<&'a FastRouteState>)
    requires
        fast_proxy::routed_within(*router, *at),
    ensures
        fast_proxy::pointee(r) == route_of(*router, *at),
{
    match (at.domain, at.route) {
        (Some(d), Some(k)) => Some(&router.domains[d].routes[k]),
        _ => None,
    }
}

/// The largest body of a request: as the route says, or else the domain, or else the whole.
pub open spec fn body_limit(router: FastRouter, at: Routed) -> u64 {
    match (route_of(router, at), domain_of(router, at)) {
        (Some(r), _) => r.max_body_size,
        (None, Some(d)) => d.max_body_size,
        (None, None) => router.cfg.max_body_size,
    }
}

/// How long the client of a request may take, in seconds.
pub open spec fn timeout_of(router: FastRouter, at: Routed) -> u64 {
    match (route_of(router, at), domain_of(router, at)) {
        (Some(r), _) => r.client_timeout,
        (None, Some(d)) => d.client_timeout,
        (None, None) => router.cfg.client_timeout,
    }
}

/// How many idle connections to a backend are kept.
pub open spec fn pool_of(router: FastRouter, at: Routed) -> usize {
    match (route_of(router, at), domain_of(router, at)) {
        (Some(r), _) => r.route.backend_pool_size,
        (None, Some(d)) => d.backend_pool_size,
        (None, None) => router.cfg.backend_pool_size,
    }
}

/// How much is logged of a request: as the route says, or else the domain, or else the whole.
pub open spec fn log_level_of(router: FastRouter, at: Routed) -> u8 {
    match (route_of(router, at), domain_of(router, at)) {
        (Some(r), _) if r.log_level is Some => r.log_level->0,
        (_, Some(d)) if d.log_level is Some => d.log_level->0,
        _ => router.cfg.log_level,
    }
}

/// The settings of a request.
#[derive(Clone, Copy, PartialEq, Eq, Structural, Debug)]
pub struct Settings {
    pub client_timeout: u64,
    pub max_body_size: u64,
    pub pool_size: usize,
    pub log_level: u8,
}

/// The settings of a request.
pub fn settings(router: &FastRouter, at: &Routed) -> (r: Settings)
    requires
        fast_proxy::routed_within(*router, *at),
    ensures
        r.client_timeout == timeout_of(*router, *at),
        r.max_body_size == body_limit(*router, *at),
        r.pool_size == pool_of(*router, *at),
        r.log_level == log_level_of(*router, *at),
{
    let mut s = Settings {
        client_timeout: router.cfg.client_timeout,
        max_body_size: router.cfg.max_body_size,
        pool_size: router.cfg.backend_pool_size,
        log_level: router.cfg.log_level,
    };
    if let Some(d) = domain_at(router, at) {
        s.client_timeout = d.client_timeout;
        s.max_body_size = d.max_body_size;
        s.pool_size = d.backend_pool_size;
        if let Some(l) = d.log_level {
            s.log_level = l;
        }
    }
    if let Some(x) = route_at(router, at) {
        s.client_timeout = x.client_timeout;
        s.max_body_size = x.max_body_size;
        s.pool_size = x.route.backend_pool_size;
        if let Some(l) = x.log_level {
            s.log_level = l;
        }
    }
    s
}

/// The headers that are set on a request and their names: those of the route, or else of the
/// domain, or else of the whole.
pub open spec fn headers_of(router: FastRouter, at: Routed) -> (Seq<HeaderFragment>, Seq<Vec<u8>>) {
    match (route_of(router, at), domain_of(router, at)) {
        (Some(r), _) if r.set_headers@.len() > 0 => (r.set_headers@, r.set_header_names@),
        (_, Some(d)) if d.set_headers@.len() > 0 => (d.set_headers@, d.set_header_names@),
        _ => (router.def_headers@, router.def_header_names@),
    }
}

/// The headers that are set on a request and their names.
pub fn injected_headers<'a>(router: &'a FastRouter, at: &Routed) -> (r: (
    &'a Vec<HeaderFragment>,
    &'a Vec<Vec<u8>>,
))
    requires
        fast_proxy::routed_within(*router, *at),
    ensures
        (r.0@, r.1@) == headers_of(*router, *at),
{
    if let Some(x) = route_at(router, at) {
        if x.set_headers.len() > 0 {
            return (&x.set_headers, &x.set_header_names);
        }
    }
    if let Some(d) = domain_at(router, at) {
        if d.set_headers.len() > 0 {
            return (&d.set_headers, &d.set_header_names);
        }
    }
    (&router.def_headers, &router.def_header_names)
}

/// The cache settings of a request.
pub fn route_cache(router: &FastRouter, at: &Routed) -> (r: Option<RouteCache>)
    requires
        fast_proxy::routed_within(*router, *at),
    ensures
        r == (match route_of(*router, *at) {
            Some(x) => x.route.cache,
            None => None,
        }),
{
    match route_at(router, at) {
        Some(x) => x.route.cache,
        None => None,
    }
}

// ---------------------------------------------------------------------------
// Admission
// ---------------------------------------------------------------------------

/// A request that passed the checks on its head.
pub struct Admitted<'a> {
    pub host: &'a str,
    /// The target on which all decisions are taken and which goes upstream.
    pub target: String,
    /// The declared length of the body; 0 for a chunked one.
    pub clen: usize,
    pub is_chunked: bool,
    pub keep_alive: bool,
    pub at: Routed,
    /// Whether the body is read before the request is judged further.
    pub read_body: bool,
}

/// Mathematical content of an [`Admitted`].
pub struct AdmittedModel {
    pub host: Seq<char>,
    pub target: Seq<char>,
    pub clen: nat,
    pub is_chunked: bool,
    pub keep_alive: bool,
    pub at: Routed,
    pub read_body: bool,
}

impl<'a> View for Admitted<'a> {
    type V = AdmittedModel;

    open spec fn view(&self) -> AdmittedModel {
        AdmittedModel {
            host: self.host@,
            target: self.target@,
            clen: self.clen as nat,
            is_chunked: self.is_chunked,
            keep_alive: self.keep_alive,
            at: self.at,
            read_body: self.read_body,
        }
    }
}

/// The tokens and counters that requests leave behind.
pub struct Traces {
    pub tokens: Map<Seq<char>, jwt::VerdictModel>,
    pub counts: Map<Seq<char>, rate::Count>,
}

/// Whether a route judges the body.
pub open spec fn judges_body(r: FastRouteState) -> bool {
    ||| r.route.post is Some
    ||| exists|i: int|
        0 <= i < r.validate@.len() && (#[trigger] r.validate@[i]).rule_type == ValidateType::Post
}

fn route_judges_body(r: &FastRouteState) -> (b: bool)
    ensures
        b == judges_body(*r),
{
    if r.route.post.is_some() {
        return true;
    }
    for i in 0..r.validate.len()
        invariant
            forall|j: int|
                0 <= j < i ==> (#[trigger] r.validate@[j]).rule_type != ValidateType::Post,
    {
        if r.validate[i].rule_type == ValidateType::Post {
            return true;
        }
    }
    false
}

/// The declared length of a body; 0 where it is chunked.
pub open spec fn declared_length(hs: Seq<http::Field>) -> nat {
    if http::chunked_request(hs) || http::lengths(hs).len() == 0 {
        0
    } else {
        http::lengths(hs).last()
    }
}

/// The method of a request.
pub open spec fn method_of(head: http::RequestFields) -> Seq<char> {
    match head.method {
        Some(m) => m,
        None => "GET"@,
    }
}

/// The raw target of a request.
pub open spec fn raw_target(head: http::RequestFields) -> Seq<char> {
    match head.path {
        Some(p) => p,
        None => "/"@,
    }
}

/// The request as admitted.
pub open spec fn admitted_as(
    router: FastRouter,
    head: http::RequestFields,
    at: Routed,
) -> AdmittedModel {
    AdmittedModel {
        host: http::host_of(head.headers),
        target: target_of(router.cfg.normalize_path, raw_target(head)),
        clen: declared_length(head.headers),
        is_chunked: http::chunked_request(head.headers),
        keep_alive: http::keeps_alive(head.headers, head.version),
        at,
        read_body: route_of(router, at) matches Some(r) && judges_body(r),
    }
}

/// Refused networks of a request.
pub open spec fn deny_of(router: FastRouter, at: Routed) -> Option<Seq<IpNet>> {
    config::opt_nets(
        fast_proxy::first_of(
            match route_of(router, at) {
                Some(r) => r.route.deny_ip,
                None => None,
            },
            match domain_of(router, at) {
                Some(d) => d.deny_ip,
                None => None,
            },
            router.cfg.deny_ip,
        ),
    )
}

/// Admitted networks of a request.
pub open spec fn allow_of(router: FastRouter, at: Routed) -> Option<Seq<IpNet>> {
    config::opt_nets(
        fast_proxy::first_of(
            match route_of(router, at) {
                Some(r) => r.route.allow_ip,
                None => None,
            },
            match domain_of(router, at) {
                Some(d) => d.allow_ip,
                None => None,
            },
            router.cfg.allow_ip,
        ),
    )
}

/// The secret of a request's tokens.
pub open spec fn secret_of(router: FastRouter, at: Routed) -> Option<Seq<char>> {
    config::opt_text(
        fast_proxy::first_of(
            match route_of(router, at) {
                Some(r) => r.route.jwt_secret,
                None => None,
            },
            match domain_of(router, at) {
                Some(d) => d.jwt_secret,
                None => None,
            },
            router.cfg.jwt_secret,
        ),
    )
}

/// Why a request is refused by the route's own limits, and the counters afterwards. The rate limit
/// comes first; a body that is to be read must not declare more than the limit.
pub open spec fn route_limits(
    router: FastRouter,
    head: http::RequestFields,
    at: Routed,
    ip: IpAddr,
    now_secs: u64,
    counts: Map<Seq<char>, rate::Count>,
) -> (Option<Refusal>, Map<Seq<char>, rate::Count>) {
    match route_of(router, at) {
        Some(r) => {
            let key = rate::client_key(r.route.id as nat, ip);
            let after = if r.route.rate_limit is Some {
                rate::after_request(counts, key, now_secs)
            } else {
                counts
            };
            let refusal = if r.route.rate_limit matches Some(limit) && !rate::within_limit(
                counts,
                key,
                limit,
                now_secs,
            ) {
                Some(Refusal::RateLimited)
            } else if judges_body(r) && declared_length(head.headers) > r.max_body_size {
                Some(Refusal::TooLarge)
            } else {
                None
            };
            (refusal, after)
        },
        None => (None, counts),
    }
}

/// What becomes of a request by its head, and what it leaves behind. The checks are taken in this
/// order: framing, route, address, token, rate limit, declared length of a body that is to be read.
pub open spec fn admission(
    router: FastRouter,
    head: http::RequestFields,
    ip: IpAddr,
    local: Seq<char>,
    now_secs: u64,
    now: u64,
    traces: Traces,
) -> (Result<AdmittedModel, Refusal>, Traces) {
    if http::bad_request(
        head.headers,
        head.version,
        head.path,
        router.cfg.reject_encoded_slash,
    ) {
        (Err(Refusal::BadRequest), traces)
    } else {
        match fast_proxy::routed(
            router,
            method_of(head),
            http::host_of(head.headers),
            target_of(router.cfg.normalize_path, raw_target(head)),
            head.headers,
            local,
        ) {
            None => (Err(Refusal::NoRoute), traces),
            Some(at) => {
                let (no_access, tokens) = access(
                    deny_of(router, at),
                    allow_of(router, at),
                    secret_of(router, at),
                    head.headers,
                    ip,
                    now_secs,
                    now,
                    traces.tokens,
                );
                if no_access is Some {
                    (Err(no_access->0), Traces { tokens, counts: traces.counts })
                } else {
                    let (over, counts) = route_limits(
                        router,
                        head,
                        at,
                        ip,
                        now_secs,
                        traces.counts,
                    );
                    if over is Some {
                        (Err(over->0), Traces { tokens, counts })
                    } else {
                        (Ok(admitted_as(router, head, at)), Traces { tokens, counts })
                    }
                }
            },
        }
    }
}

/// What a result says of an admitted request.
pub open spec fn outcome<'a>(r: Result<Admitted<'a>, Refusal>) -> Result<AdmittedModel, Refusal> {
    match r {
        Ok(a) => Ok(a@),
        Err(e) => Err(e),
    }
}

/// Judges a request by its head: it is admitted, or refused.
pub fn judge_head<'a>(
    router: &FastRouter,
    head: &RequestHead<'a>,
    ip: &IpAddr,
    local_addr: &str,
    now_secs: u64,
    now: u64,
    tokens: &mut JwtCache,
    limiter: &mut RateLimiter,
) -> (r: Result<Admitted<'a>, Refusal>)
    requires
        fast_proxy::router_wf(*router),
    ensures
        ({
            let (out, after) = admission(
                *router,
                head@,
                *ip,
                local_addr@,
                now_secs,
                now,
                Traces { tokens: old(tokens)@, counts: old(limiter)@ },
            );
            &&& outcome(r) == out
            &&& final(tokens)@ == after.tokens
            &&& final(limiter)@ == after.counts
        }),
        r matches Ok(a) ==> fast_proxy::routed_within(*router, a.at),
{
    let headers = head.headers.as_slice();
    let fr = validate_request_framing(
        headers,
        head.version,
        head.path,
        router.cfg.reject_encoded_slash,
    );
    if fr.bad_request {
        return Err(Refusal::BadRequest);
    }
    let clen: usize = if fr.is_chunked {
        0
    } else {
        fr.clen
    };
    let method = match head.method {
        Some(m) => m,
        None => "GET",
    };
    let raw = match head.path {
        Some(p) => p,
        None => "/",
    };
    let target = request_target(router.cfg.normalize_path, raw);
    let at = match router.route(method, fr.host_str, target.as_str(), headers, local_addr) {
        Some(at) => at,
        None => return Err(Refusal::NoRoute),
    };
    let route = route_at(router, &at);
    let policy = effective_policy(route, domain_at(router, &at), &router.cfg);
    proof {
        assert(opt_list(policy.deny) == deny_of(*router, at));
        assert(opt_list(policy.allow) == allow_of(*router, at));
        assert(opt_secret(policy.jwt_secret) == secret_of(*router, at));
    }
    if let Some(e) = check_access(&policy, headers, ip, now_secs, now, tokens) {
        return Err(e);
    }
    let mut read_body: bool = false;
    if let Some(x) = route {
        if let Some(limit) = x.route.rate_limit {
            if !limiter.allow(x.route.id, ip, limit, now_secs) {
                return Err(Refusal::RateLimited);
            }
        }
        read_body = route_judges_body(x);
        if read_body && clen as u64 > x.max_body_size {
            return Err(Refusal::TooLarge);
        }
    }
    Ok(
        Admitted {
            host: fr.host_str,
            target,
            clen,
            is_chunked: fr.is_chunked,
            keep_alive: fr.client_keep_alive,
            at,
            read_body,
        },
    )
}

// ---------------------------------------------------------------------------
// Reading a body that is judged
// ---------------------------------------------------------------------------

/// Gathers a body of declared length: what came with the head, and what is read after it.
pub struct BodyReader {
    pub body: Vec<u8>,
    pub remaining: usize,
}

impl BodyReader {
    /// Starts with the bytes that came behind the head. Returns the number of them that belong to
    /// the body.
    pub fn new(buffered: &[u8], clen: usize) -> (r: (BodyReader, usize))
        ensures
            r.1 == if clen <= buffered@.len() {
                clen as int
            } else {
                buffered@.len() as int
            },
            r.0.body@ == buffered@.take(r.1 as int),
            r.0.body@.len() + r.0.remaining == clen,
    {
        let n: usize = if clen <= buffered.len() {
            clen
        } else {
            buffered.len()
        };
        let mut body: Vec<u8> = Vec::new();
        push_bytes(&mut body, &buffered[0..n]);
        assert(body@ =~= buffered@.take(n as int));
        (BodyReader { body, remaining: clen - n }, n)
    }

    /// How many bytes to read next; `None` where the body is complete.
    pub fn next(&self) -> (r: Option<usize>)
        ensures
            r == if self.remaining == 0 {
                None::<usize>
            } else if self.remaining <= BUF_SIZE {
                Some(self.remaining)
            } else {
                Some(BUF_SIZE)
            },
    {
        if self.remaining == 0 {
            None
        } else if self.remaining <= BUF_SIZE {
            Some(self.remaining)
        } else {
            Some(BUF_SIZE)
        }
    }

    /// Takes bytes that were read, no more than asked for. Returns whether to go on: nothing read
    /// ends the body early.
    pub fn received(&mut self, bytes: &[u8]) -> (r: bool)
        requires
            bytes@.len() <= old(self).remaining,
        ensures
            r == (bytes@.len() > 0),
            final(self).body@ == old(self).body@ + bytes@,
            final(self).remaining == old(self).remaining - bytes@.len(),
    {
        push_bytes(&mut self.body, bytes);
        self.remaining = self.remaining - bytes.len();
        bytes.len() > 0
    }
}

// ---------------------------------------------------------------------------
// Judging the rest
// ---------------------------------------------------------------------------

/// Whose backends serve a request: those that routing found, or those that a failed rule names.
#[derive(Clone, Copy, PartialEq, Eq, Structural, Debug)]
pub enum ServedBy {
    Routed(BalancerAt),
    Rule(usize),
}

/// What becomes of a request once its body is known.
#[derive(Clone, Copy, PartialEq, Eq, Structural, Debug)]
pub enum Judgement {
    Refused(Refusal),
    /// The fixed response of the rule at the given place.
    RuleAnswer(usize),
    Forward(ServedBy),
}

/// Whether the machine or the worker is too busy for a request.
pub open spec fn qos_drops(router: FastRouter, at: Routed, cpu_load: u8, active: usize) -> bool {
    &&& router.cfg.has_qos
    &&& route_of(router, at) matches Some(r)
    &&& r.drop_threshold matches Some(pct)
    &&& cpu_load > pct || active > router.cfg.max_active_requests
}

/// What becomes of a request once its body is known. The conditions of the route come first, then
/// its rules, then the load, then the declared length of a body that is passed through.
pub open spec fn judgement(
    router: FastRouter,
    a: AdmittedModel,
    hs: Seq<http::Field>,
    body: Option<Seq<u8>>,
    cpu_load: u8,
    active: usize,
) -> Judgement {
    let route = route_of(router, a.at);
    let failed = match route {
        Some(r) => fast_proxy::first_failed(r.validate@, 0, hs, a.target, body),
        None => None,
    };
    if route matches Some(r) && config::opt_text(r.route.post) matches Some(conds)
        && !header_util::conditions_hold(conds, fast_proxy::body_fields(body)) {
        Judgement::Refused(Refusal::PostRejected)
    } else if failed matches Some(k) && route->0.validate@[k].on_fail.balancer is None {
        Judgement::RuleAnswer(failed->0 as usize)
    } else if qos_drops(router, a.at, cpu_load, active) {
        Judgement::Refused(Refusal::QosDrop)
    } else if !a.is_chunked && body is None && a.clen > body_limit(router, a.at) {
        Judgement::Refused(Refusal::TooLarge)
    } else {
        Judgement::Forward(
            match failed {
                Some(k) => ServedBy::Rule(k as usize),
                None => ServedBy::Routed(a.at.balancer),
            },
        )
    }
}

fn too_busy(router: &FastRouter, at: &Routed, cpu_load: u8, active: usize) -> (r: bool)
    requires
        fast_proxy::routed_within(*router, *at),
    ensures
        r == qos_drops(*router, *at, cpu_load, active),
{
    if !router.cfg.has_qos {
        return false;
    }
    match route_at(router, at) {
        Some(x) => match x.drop_threshold {
            Some(pct) => cpu_load > pct || active > router.cfg.max_active_requests,
            None => false,
        },
        None => false,
    }
}

/// Judges an admitted request once its body is known, where the route judges it.
pub fn judge_body(
    router: &FastRouter,
    a: &Admitted,
    headers: &[Header],
    body: Option<&Vec<u8>>,
    cpu_load: u8,
    active: usize,
) -> (r: Judgement)
    requires
        fast_proxy::routed_within(*router, a.at),
    ensures
        r == judgement(
            *router,
            a@,
            http::fields(headers@),
            match body {
                Some(b) => Some(b@),
                None => None,
            },
            cpu_load,
            active,
        ),
        r matches Judgement::RuleAnswer(k) ==> route_of(*router, a.at) matches Some(x) && k
            < x.validate@.len(),
        r matches Judgement::Forward(ServedBy::Rule(k)) ==> route_of(*router, a.at) matches Some(x)
            && k < x.validate@.len() && x.validate@[k as int].on_fail.balancer is Some,
{
    let mut served = ServedBy::Routed(a.at.balancer);
    if let Some(x) = route_at(router, &a.at) {
        if let Some(conds) = &x.route.post {
            let ok = match body {
                Some(b) => post_conditions_hold(conds.as_str(), Some(b.as_slice())),
                None => post_conditions_hold(conds.as_str(), None),
            };
            if !ok {
                return Judgement::Refused(Refusal::PostRejected);
            }
        }
        if let Some(k) = failed_rule(&x.validate, headers, a.target.as_str(), body) {
            if x.validate[k].on_fail.balancer.is_none() {
                return Judgement::RuleAnswer(k);
            }
            served = ServedBy::Rule(k);
        }
    }
    if too_busy(router, &a.at, cpu_load, active) {
        return Judgement::Refused(Refusal::QosDrop);
    }
    if !a.is_chunked && body.is_none() && a.clen as u64 > settings(router, &a.at).max_body_size {
        return Judgement::Refused(Refusal::TooLarge);
    }
    Judgement::Forward(served)
}

/// What is counted of the fixed response of a failed rule.
pub fn rule_tally(rule: &FastValidateRule) -> (r: Tally)
    ensures
        r == (Tally {
            status: Some(rule.on_fail.status),
            drop: Some(DropCounter::Rule),
            bytes_tx: rule.on_fail.precomputed_resp@.len() as u64,
        }),
{
    Tally {
        status: Some(rule.on_fail.status),
        drop: Some(DropCounter::Rule),
        bytes_tx: rule.on_fail.precomputed_resp.len() as u64,
    }
}

// ---------------------------------------------------------------------------
// Sending it on
// ---------------------------------------------------------------------------

/// Whether a field asks for an upgrade of the connection.
pub open spec fn asks_upgrade(h: http::Field) -> bool {
    http::named(h, "connection") && http::mentions(h.value, "upgrade")
}

/// Whether a client asks for another protocol: it names one, and says so of the connection.
pub open spec fn upgrade_wanted(hs: Seq<http::Field>) -> bool {
    http::has_field(hs, "upgrade") && exists|i: int|
        0 <= i < hs.len() && asks_upgrade(#[trigger] hs[i])
}

/// Whether a client asks for another protocol.
pub fn wants_upgrade(headers: &[Header]) -> (r: bool)
    ensures
        r == upgrade_wanted(http::fields(headers@)),
{
    if !has_header(headers, "upgrade") {
        return false;
    }
    let ghost hs = http::fields(headers@);
    for i in 0..headers.len()
        invariant
            hs == http::fields(headers@),
            http::has_field(hs, "upgrade"),
            forall|j: int| 0 <= j < i ==> !asks_upgrade(#[trigger] hs[j]),
    {
        assert(hs[i as int] == headers@[i as int]@);
        if str_eq_ci(headers[i].name, "connection") && contains_ci(
            headers[i].value,
            "upgrade".as_bytes(),
        ) {
            assert(asks_upgrade(hs[i as int]));
            return true;
        }
    }
    false
}

/// Whether the connection to the backend is meant to be used again: some are kept, and it does not
/// become a tunnel.
pub fn upstream_keepalive(pool_size: usize, want_upgrade: bool) -> (r: bool)
    ensures
        r == (pool_size > 0 && !want_upgrade),
{
    pool_size > 0 && !want_upgrade
}

/// Appends a body that is there already to the head, where the buffer has room for both. Returns
/// the length of what is to be written, and whether the body is part of it.
pub fn combine(x: &mut Vec<u8>, head_len: usize, body: Option<&[u8]>) -> (r: (usize, bool))
    requires
        head_len <= old(x)@.len(),
    ensures
        final(x)@.len() == old(x)@.len(),
        final(x)@.take(head_len as int) == old(x)@.take(head_len as int),
        r.1 == (body matches Some(b) && head_len + b@.len() <= old(x)@.len()),
        r.0 == if r.1 {
            head_len + body->0@.len()
        } else {
            head_len as int
        },
        r.1 ==> final(x)@.take(r.0 as int) == old(x)@.take(head_len as int) + body->0@,
        !r.1 ==> final(x)@ == old(x)@,
{
    let n: usize = x.len();
    if let Some(b) = body {
        let m: usize = b.len();
        if m <= n - head_len {
            for i in 0..m
                invariant
                    m == b@.len(),
                    n == old(x)@.len(),
                    m <= n - head_len,
                    head_len <= n,
                    x@.len() == n,
                    x@.take(head_len as int) == old(x)@.take(head_len as int),
                    forall|j: int| 0 <= j < i ==> x@[head_len + j] == b@[j],
            {
                x[head_len + i] = b[i];
                assert(x@.take(head_len as int) =~= old(x)@.take(head_len as int));
            }
            assert(x@.take(head_len + m) =~= old(x)@.take(head_len as int) + b@);
            return (head_len + m, true);
        }
    }
    (head_len, false)
}

// ---------------------------------------------------------------------------
// Laws
// ---------------------------------------------------------------------------

/// A request from an address that is kept out is refused as forbidden, whatever else it bears, and
/// leaves no trace; one that is malformed is refused before that.
pub proof fn law_kept_out_is_forbidden(
    router: FastRouter,
    head: http::RequestFields,
    ip: IpAddr,
    local: Seq<char>,
    now_secs: u64,
    now: u64,
    traces: Traces,
    at: Routed,
)
    requires
        !http::bad_request(
            head.headers,
            head.version,
            head.path,
            router.cfg.reject_encoded_slash,
        ),
        fast_proxy::routed(
            router,
            method_of(head),
            http::host_of(head.headers),
            target_of(router.cfg.normalize_path, raw_target(head)),
            head.headers,
            local,
        ) == Some(at),
        kept_out(deny_of(router, at), allow_of(router, at), ip),
    ensures
        admission(router, head, ip, local, now_secs, now, traces) == (
            Err::<AdmittedModel, Refusal>(Refusal::Forbidden),
            traces,
        ),
{
}

/// What an admitted request was checked for: its framing is sound, its address is let in, its token
/// was accepted where one is needed, it is within its rate limit, and the body that is to be read
/// is within the limit of the route.
pub proof fn law_admitted_request_passed_every_check(
    router: FastRouter,
    head: http::RequestFields,
    ip: IpAddr,
    local: Seq<char>,
    now_secs: u64,
    now: u64,
    traces: Traces,
)
    requires
        admission(router, head, ip, local, now_secs, now, traces).0 is Ok,
    ensures
        ({
            let a = admission(router, head, ip, local, now_secs, now, traces).0->Ok_0;
            let route = route_of(router, a.at);
            &&& !http::bad_request(
                head.headers,
                head.version,
                head.path,
                router.cfg.reject_encoded_slash,
            )
            &&& !kept_out(deny_of(router, a.at), allow_of(router, a.at), ip)
            &&& secret_of(router, a.at) matches Some(s) ==> jwt::judged(
                head.headers,
                s,
                now_secs,
                now,
                traces.tokens,
            ).0
            &&& route matches Some(r) ==> (r.route.rate_limit matches Some(limit)
                ==> rate::within_limit(
                traces.counts,
                rate::client_key(r.route.id as nat, ip),
                limit,
                now_secs,
            ))
            &&& a.read_body ==> a.clen <= route->0.max_body_size
        }),
{
}

/// A body that is forwarded without being judged declares no more than the limit.
pub proof fn law_forwarded_length_is_within_limit(
    router: FastRouter,
    a: AdmittedModel,
    hs: Seq<http::Field>,
    cpu_load: u8,
    active: usize,
)
    requires
        judgement(router, a, hs, None, cpu_load, active) is Forward,
        !a.is_chunked,
    ensures
        a.clen <= body_limit(router, a.at),
{
}

/// With canonicalisation on, a rooted target is taken in its canonical form, whatever the client
/// sent.
pub proof fn law_target_is_canonical(raw: Seq<char>)
    requires
        "/"@.is_prefix_of(raw),
    ensures
        encode_utf8(target_of(true, raw)) == path::normalize(encode_utf8(raw)),
{
    let t = encode_utf8(raw);
    lemma_rooted(raw);
    if path::suspicious(t) {
        encode_utf8_valid_utf8(raw);
        path::law_normalized_is_text(t);
        decode_utf8_encode_utf8(path::normalize(t));
    } else {
        path::law_unsuspicious_is_canonical(t);
    }
}

} // verus!
