//! Routing: from a request to its domain, its route and the backends that serve it.

use vstd::prelude::*;
use vstd::string::*;
use vstd::utf8::*;

use crate::balancer::BalancerState;
use crate::config;
use crate::config::{copy_list, copy_nets, copy_strings, copy_text, Config, Domain};
use crate::config::{Route, ValidateRule, ValidateType};
use crate::header_util;
use crate::header_util::{eval_field_conditions, host_without_port};
use crate::http;
use crate::http::{has_header, text_of, Header};
use crate::net::IpNet;
use crate::text;
use crate::text::{
    push_bytes, push_decimal, split_once, split_str, str_eq, str_eq_ci, strip_prefix, trim_str,
};

pub use crate::header_util::{compile_header_names, compile_headers, HeaderFragment, Matcher};

verus! {

// ---------------------------------------------------------------------------
// Compiled configuration
// ---------------------------------------------------------------------------

/// What becomes of a request that fails a rule: other backends take it, or it gets a fixed
/// response.
pub struct FastValidateFail {
    pub status: u16,
    pub balancer: Option<BalancerState>,
    pub precomputed_resp: Vec<u8>,
}

/// A compiled validate rule.
pub struct FastValidateRule {
    pub rule_type: ValidateType,
    pub name: String,
    pub matcher: Option<Matcher>,
    pub invert: bool,
    pub on_fail: FastValidateFail,
}

/// A compiled route.
pub struct FastRouteState {
    pub route: Route,
    pub matcher: Matcher,
    pub balancer: Option<BalancerState>,
    pub client_timeout: u64,
    pub max_body_size: u64,
    pub drop_threshold: Option<u8>,
    pub validate: Vec<FastValidateRule>,
    pub set_headers: Vec<HeaderFragment>,
    pub set_header_names: Vec<Vec<u8>>,
    pub log_level: Option<u8>,
}

/// A compiled domain.
pub struct FastDomainState {
    pub matcher: Matcher,
    pub routes: Vec<FastRouteState>,
    pub def: Option<BalancerState>,
    pub allow_ip: Option<Vec<IpNet>>,
    pub deny_ip: Option<Vec<IpNet>>,
    pub jwt_secret: Option<String>,
    pub set_headers: Vec<HeaderFragment>,
    pub set_header_names: Vec<Vec<u8>>,
    pub client_timeout: u64,
    pub max_body_size: u64,
    pub backend_pool_size: usize,
    pub log_level: Option<u8>,
    pub listen: Vec<String>,
    pub tls_listen: Vec<String>,
}

/// The compiled configuration.
pub struct FastRouter {
    pub cfg: Config,
    pub domains: Vec<FastDomainState>,
    pub def: Option<BalancerState>,
    pub def_headers: Vec<HeaderFragment>,
    pub def_header_names: Vec<Vec<u8>>,
}

/// A matcher for a domain or a validate value.
pub open spec fn exact_matcher(m: Matcher, re: Seq<char>) -> bool {
    &&& m.source() == re
    &&& if header_util::plain_literal(encode_utf8(re)) {
        m is Exact
    } else {
        m is Re
    }
}

/// A matcher for a route.
pub open spec fn prefix_matcher(m: Matcher, re: Seq<char>) -> bool {
    &&& m.source() == re
    &&& if header_util::plain_literal(encode_utf8(re)) {
        m is Prefix
    } else {
        m is Re
    }
}

/// A balancer over a list of the configuration, its cursor at the beginning.
pub open spec fn fresh_balancer(b: Option<BalancerState>, l: Option<config::ListModel>) -> bool {
    match (b, l) {
        (Some(s), Some(m)) => s.list@ == m && s.rr_index == 0,
        (None, None) => true,
        _ => false,
    }
}

/// Fragments and names compiled from a map of headers.
pub open spec fn headers_compiled(
    frags: Seq<header_util::Fragment>,
    names: Seq<Seq<u8>>,
    m: Option<Map<String, String>>,
) -> bool {
    match m {
        Some(hm) => {
            &&& exists|entries: Seq<(String, String)>|
                #![trigger header_util::compile_entries(entries)]
                header_util::lists(entries, hm) && frags == header_util::compile_entries(entries)
            &&& exists|entries: Seq<(String, String)>|
                #![trigger header_util::entry_names(entries)]
                header_util::lists(entries, hm) && names == header_util::entry_names(entries)
        },
        None => frags.len() == 0 && names.len() == 0,
    }
}

/// The fixed response to a request that fails a rule.
pub open spec fn fail_response(status: u16, body: Seq<char>) -> Seq<u8> {
    "HTTP/1.1 ".spec_bytes() + text::decimal_bytes(status as nat)
        + " validation failed\r\nContent-Length: ".spec_bytes() + text::decimal_bytes(
        encode_utf8(body).len(),
    ) + "\r\nConnection: close\r\n\r\n".spec_bytes() + encode_utf8(body)
}

/// A rule compiled from one of the configuration.
pub open spec fn rule_compiled(f: FastValidateRule, m: config::RuleModel) -> bool {
    &&& f.rule_type == m.rule_type
    &&& f.name@ == m.name
    &&& match (f.matcher, m.regex) {
        (Some(x), Some(re)) => exact_matcher(x, re),
        (None, None) => true,
        _ => false,
    }
    &&& f.invert == m.invert
    &&& f.on_fail.status == m.status
    &&& fresh_balancer(f.on_fail.balancer, m.backends)
    &&& f.on_fail.precomputed_resp@ == fail_response(m.status, m.body)
}

/// A route compiled from one of the configuration.
pub open spec fn route_compiled(f: FastRouteState, m: config::RouteModel) -> bool {
    &&& f.route@ == m
    &&& prefix_matcher(f.matcher, m.re)
    &&& fresh_balancer(f.balancer, m.bl)
    &&& f.client_timeout == m.client_timeout
    &&& f.max_body_size == m.max_body_size
    &&& f.drop_threshold == m.drop_threshold
    &&& f.validate@.len() == m.validate.len()
    &&& forall|i: int|
        0 <= i < m.validate.len() ==> rule_compiled(#[trigger] f.validate@[i], m.validate[i])
    &&& headers_compiled(
        header_util::fragments(f.set_headers@),
        header_util::byte_strings(f.set_header_names@),
        m.set_headers,
    )
    &&& f.log_level == m.log_level
}

/// A domain compiled from one of the configuration.
pub open spec fn domain_compiled(
    f: FastDomainState,
    m: config::DomainModel,
    pool_size: usize,
) -> bool {
    &&& exact_matcher(f.matcher, m.re)
    &&& f.routes@.len() == m.routes.len()
    &&& forall|i: int|
        0 <= i < m.routes.len() ==> route_compiled(#[trigger] f.routes@[i], m.routes[i])
    &&& fresh_balancer(f.def, m.def)
    &&& config::opt_nets(f.allow_ip) == m.allow_ip
    &&& config::opt_nets(f.deny_ip) == m.deny_ip
    &&& config::opt_text(f.jwt_secret) == m.jwt_secret
    &&& headers_compiled(
        header_util::fragments(f.set_headers@),
        header_util::byte_strings(f.set_header_names@),
        m.set_headers,
    )
    &&& f.client_timeout == m.client_timeout
    &&& f.max_body_size == m.max_body_size
    &&& f.backend_pool_size == config::or(m.backend_pool_size, pool_size)
    &&& f.log_level == m.log_level
    &&& text::texts(f.listen@) == m.listen
    &&& text::texts(f.tls_listen@) == m.tls_listen
}

/// A router compiled from a configuration.
pub open spec fn router_compiled(f: FastRouter, m: config::ConfigModel) -> bool {
    &&& f.cfg@ == m
    &&& f.domains@.len() == m.domains.len()
    &&& forall|i: int|
        0 <= i < m.domains.len() ==> domain_compiled(
            #[trigger] f.domains@[i],
            m.domains[i],
            m.backend_pool_size,
        )
    &&& fresh_balancer(f.def, m.def)
    &&& headers_compiled(
        header_util::fragments(f.def_headers@),
        header_util::byte_strings(f.def_header_names@),
        m.set_headers,
    )
}

/// Whether every network of a router is well-formed.
pub open spec fn router_wf(f: FastRouter) -> bool {
    &&& config::opt_nets_wf(config::opt_nets(f.cfg.allow_ip))
    &&& config::opt_nets_wf(config::opt_nets(f.cfg.deny_ip))
    &&& forall|i: int| 0 <= i < f.domains@.len() ==> domain_state_wf(#[trigger] f.domains@[i])
}

/// Whether every network of a domain is well-formed.
pub open spec fn domain_state_wf(d: FastDomainState) -> bool {
    &&& config::opt_nets_wf(config::opt_nets(d.allow_ip))
    &&& config::opt_nets_wf(config::opt_nets(d.deny_ip))
    &&& forall|i: int| 0 <= i < d.routes@.len() ==> config::route_wf((#[trigger] d.routes@[i]).route@)
}

fn make_balancer(l: &Option<config::BackendList>) -> (r: Option<BalancerState>)
    ensures
        fresh_balancer(r, config::opt_list(*l)),
{
    match copy_list(l) {
        Some(b) => Some(BalancerState::new(b)),
        None => None,
    }
}

fn compile_rule(v: &ValidateRule) -> (r: FastValidateRule)
    ensures
        rule_compiled(r, v@),
{
    let body = v.on_fail.body.as_str().as_bytes();
    let mut resp: Vec<u8> = Vec::new();
    push_bytes(&mut resp, "HTTP/1.1 ".as_bytes());
    push_decimal(&mut resp, v.on_fail.status as u64);
    push_bytes(&mut resp, " validation failed\r\nContent-Length: ".as_bytes());
    push_decimal(&mut resp, body.len() as u64);
    push_bytes(&mut resp, "\r\nConnection: close\r\n\r\n".as_bytes());
    push_bytes(&mut resp, body);
    assert(resp@ =~= fail_response(v.on_fail.status, v.on_fail.body@));
    FastValidateRule {
        rule_type: v.rule_type,
        name: v.name.clone(),
        matcher: match &v.regex {
            Some(re) => Some(Matcher::exact_or_re(re)),
            None => None,
        },
        invert: v.invert,
        on_fail: FastValidateFail {
            status: v.on_fail.status,
            balancer: make_balancer(&v.on_fail.backends),
            precomputed_resp: resp,
        },
    }
}

fn compile_route(r: &Route) -> (f: FastRouteState)
    ensures
        route_compiled(f, r@),
{
    let mut validate: Vec<FastValidateRule> = Vec::new();
    for i in 0..r.validate.len()
        invariant
            validate@.len() == i,
            forall|j: int| 0 <= j < i ==> rule_compiled(#[trigger] validate@[j], r.validate@[j]@),
    {
        validate.push(compile_rule(&r.validate[i]));
    }
    FastRouteState {
        matcher: Matcher::prefix_or_re(&r.re),
        route: r.duplicate(),
        balancer: make_balancer(&r.bl),
        client_timeout: r.client_timeout,
        max_body_size: r.max_body_size,
        drop_threshold: r.drop_threshold,
        validate,
        set_headers: compile_headers(&r.set_headers),
        set_header_names: compile_header_names(&r.set_headers),
        log_level: r.log_level,
    }
}

fn compile_domain(d: &Domain, pool_size: usize) -> (f: FastDomainState)
    ensures
        domain_compiled(f, d@, pool_size),
{
    let mut routes: Vec<FastRouteState> = Vec::new();
    for i in 0..d.routes.len()
        invariant
            routes@.len() == i,
            forall|j: int| 0 <= j < i ==> route_compiled(#[trigger] routes@[j], d.routes@[j]@),
    {
        routes.push(compile_route(&d.routes[i]));
    }
    FastDomainState {
        matcher: Matcher::exact_or_re(&d.re),
        routes,
        def: make_balancer(&d.def),
        allow_ip: copy_nets(&d.allow_ip),
        deny_ip: copy_nets(&d.deny_ip),
        jwt_secret: copy_text(&d.jwt_secret),
        set_headers: compile_headers(&d.set_headers),
        set_header_names: compile_header_names(&d.set_headers),
        client_timeout: d.client_timeout,
        max_body_size: d.max_body_size,
        backend_pool_size: match d.backend_pool_size {
            Some(n) => n,
            None => pool_size,
        },
        log_level: d.log_level,
        listen: copy_strings(&d.listen),
        tls_listen: copy_strings(&d.tls_listen),
    }
}

// ---------------------------------------------------------------------------
// Filters
// ---------------------------------------------------------------------------

/// What `url::form_urlencoded::parse` reads in some bytes: decoded names and values, in order.
pub uninterp spec fn parsed_form(input: Seq<u8>) -> Seq<(Seq<char>, Seq<char>)>;

/// `url::form_urlencoded::parse`: the fields of a query or form. How names and values are decoded
/// is not stated.
#[verifier::external_body]
fn parse_form(input: &[u8]) -> (r: Vec<(String, String)>)
    ensures
        header_util::pairs(r@) == parsed_form(input@),
{
    url::form_urlencoded::parse(input).map(|(k, v)| (k.into_owned(), v.into_owned())).collect()
}

/// The query of a target: what follows its first question mark.
pub open spec fn query_of(target: Seq<char>) -> Option<Seq<char>> {
    let k = text::find(target, '?');
    if k < target.len() {
        Some(target.skip(k + 1))
    } else {
        None
    }
}

fn query_part<'a>(target: &'a str) -> (r: Option<&'a str>)
    ensures
        http::opt_view(r) == query_of(target@),
{
    proof {
        text::lemma_find(target@, '?');
    }
    match split_once(target, '?') {
        Some((_, q)) => Some(q),
        None => None,
    }
}

/// A text before and behind its first `=`; without one it is all name.
pub open spec fn name_value(s: Seq<char>) -> (Seq<char>, Seq<char>) {
    let k = text::find(s, '=');
    if k < s.len() {
        (s.take(k), s.skip(k + 1))
    } else {
        (s, seq![])
    }
}

fn split_name_value<'a>(s: &'a str) -> (r: (&'a str, &'a str))
    ensures
        (r.0@, r.1@) == name_value(s@),
{
    proof {
        text::lemma_find(s@, '=');
        reveal_strlit("");
        assert(""@ =~= Seq::<char>::empty());
    }
    match split_once(s, '=') {
        Some((k, v)) => (k, v),
        None => (s, ""),
    }
}

/// The value of the first cookie with the given name, among parts of a `Cookie` value.
pub open spec fn cookie_in(parts: Seq<Seq<char>>, name: Seq<char>) -> Option<Seq<char>>
    decreases parts.len(),
{
    if parts.len() == 0 {
        None
    } else if name_value(text::trim(parts[0])).0 == name {
        Some(name_value(text::trim(parts[0])).1)
    } else {
        cookie_in(parts.drop_first(), name)
    }
}

/// The value of the first cookie with the given name.
pub open spec fn cookie_value(cookies: Seq<char>, name: Seq<char>) -> Option<Seq<char>> {
    cookie_in(text::split(cookies, ';'), name)
}

fn get_cookie<'a>(cookies: &'a str, name: &str) -> (r: Option<&'a str>)
    ensures
        http::opt_view(r) == cookie_value(cookies@, name@),
{
    let parts = split_str(cookies, ';');
    let ghost ps = text::split(cookies@, ';');
    proof {
        assert(ps.skip(0) =~= ps);
    }
    for i in 0..parts.len()
        invariant
            ps == text::split(cookies@, ';'),
            text::views(parts@) == ps,
            cookie_in(ps, name@) == cookie_in(ps.skip(i as int), name@),
    {
        proof {
            assert(text::views(parts@)[i as int] == parts@[i as int]@);
            assert(ps.skip(i as int)[0] == ps[i as int]);
            assert(ps.skip(i as int).drop_first() =~= ps.skip(i + 1));
        }
        let (k, v) = split_name_value(trim_str(parts[i]));
        if str_eq(k, name) {
            return Some(v);
        }
    }
    None
}

/// The last `Cookie` value that is valid UTF-8; empty where there is none.
pub open spec fn cookies_of(hs: Seq<http::Field>) -> Seq<char>
    decreases hs.len(),
{
    if hs.len() == 0 {
        seq![]
    } else if http::named(hs.last(), "cookie") && http::value_text(hs.last().value) is Some {
        http::value_text(hs.last().value)->0
    } else {
        cookies_of(hs.drop_last())
    }
}

/// Whether a cookie condition holds: `!name` (no such cookie), `name=value`, `name` (such a
/// cookie).
pub open spec fn cookie_holds(c: Seq<char>, cookies: Seq<char>) -> bool {
    if c.len() > 0 && c[0] == '!' {
        cookie_value(cookies, c.skip(1)) is None
    } else if text::find(c, '=') < c.len() {
        cookie_value(cookies, name_value(c).0) == Some(name_value(c).1)
    } else {
        cookie_value(cookies, c) is Some
    }
}

fn meets_cookie(c: &str, cookies: &str) -> (r: bool)
    ensures
        r == cookie_holds(c@, cookies@),
{
    proof {
        reveal_strlit("!");
        text::lemma_find(c@, '=');
        assert("!"@ =~= seq!['!']);
    }
    match strip_prefix(c, "!") {
        Some(name) => {
            assert(c@[0] == "!"@[0]);
            return get_cookie(cookies, name).is_none();
        },
        None => {
            assert(!(c@.len() > 0 && c@[0] == '!')) by {
                if c@.len() > 0 && c@[0] == '!' {
                    assert("!"@ =~= c@.subrange(0, 1));
                    assert("!"@.is_prefix_of(c@));
                }
            }
        },
    }
    match split_once(c, '=') {
        Some((k, v)) => match get_cookie(cookies, k) {
            Some(x) => str_eq(x, v),
            None => false,
        },
        None => get_cookie(cookies, c).is_some(),
    }
}

/// Whether a request passes the filters of a route.
pub open spec fn filters_hold(
    r: config::RouteModel,
    method: Seq<char>,
    target: Seq<char>,
    hs: Seq<http::Field>,
) -> bool {
    &&& r.method matches Some(ms) ==> ms.contains(method)
    &&& r.header matches Some(names) ==> forall|i: int|
        0 <= i < names.len() ==> has_name(hs, #[trigger] names[i])
    &&& r.absent_header matches Some(names) ==> forall|i: int|
        0 <= i < names.len() ==> !has_name(hs, #[trigger] names[i])
    &&& r.cookie matches Some(cs) ==> forall|i: int|
        0 <= i < cs.len() ==> cookie_holds(#[trigger] cs[i], cookies_of(hs))
    &&& r.query matches Some(q) ==> header_util::conditions_hold(
        q,
        parsed_form(
            match query_of(target) {
                Some(s) => encode_utf8(s),
                None => seq![],
            },
        ),
    )
}

/// Whether some field has the given name, up to the case of ASCII letters.
pub open spec fn has_name(hs: Seq<http::Field>, name: Seq<char>) -> bool {
    exists|i: int| 0 <= i < hs.len() && text::eq_ci((#[trigger] hs[i]).name, encode_utf8(name))
}

fn has_header_name(headers: &[Header], name: &str) -> (r: bool)
    ensures
        r == has_name(http::fields(headers@), name@),
{
    let r = has_header(headers, name);
    proof {
        let hs = http::fields(headers@);
        if http::has_field(hs, name) {
            let i = choose|i: int| 0 <= i < hs.len() && http::named(#[trigger] hs[i], name);
            assert(text::eq_ci(hs[i].name, encode_utf8(name@)));
        }
        if has_name(hs, name@) {
            let i = choose|i: int|
                0 <= i < hs.len() && text::eq_ci((#[trigger] hs[i]).name, encode_utf8(name@));
            assert(http::named(hs[i], name));
        }
    }
    r
}

fn cookie_text<'a>(headers: &[Header<'a>]) -> (r: &'a str)
    ensures
        r@ == cookies_of(http::fields(headers@)),
{
    let mut cookies: &'a str = "";
    let ghost hs = http::fields(headers@);
    proof {
        reveal_strlit("");
        assert(cookies@ =~= Seq::<char>::empty());
    }
    for i in 0..headers.len()
        invariant
            hs == http::fields(headers@),
            cookies@ == cookies_of(hs.take(i as int)),
    {
        proof {
            assert(hs.take(i + 1).drop_last() =~= hs.take(i as int));
            assert(hs.take(i + 1).last() == headers@[i as int]@);
        }
        if str_eq_ci(headers[i].name, "cookie") {
            if let Some(s) = text_of(headers[i].value) {
                cookies = s;
            }
        }
    }
    assert(hs.take(hs.len() as int) =~= hs);
    cookies
}

/// The fields of the query of a target.
fn query_fields(target: &str) -> (r: Vec<(String, String)>)
    ensures
        header_util::pairs(r@) == parsed_form(
            match query_of(target@) {
                Some(s) => encode_utf8(s),
                None => seq![],
            },
        ),
{
    match query_part(target) {
        Some(q) => parse_form(q.as_bytes()),
        None => {
            let empty: Vec<u8> = Vec::new();
            assert(empty@ =~= Seq::<u8>::empty());
            parse_form(empty.as_slice())
        },
    }
}

/// The fields of a form body. A body that is not valid UTF-8 counts as empty.
pub open spec fn body_fields(body: Option<Seq<u8>>) -> Seq<(Seq<char>, Seq<char>)> {
    parsed_form(
        match body {
            Some(b) => if valid_utf8(b) {
                b
            } else {
                seq![]
            },
            None => seq![],
        },
    )
}

/// Whether a body meets the `post` conditions of a route.
pub fn post_conditions_hold(conds: &str, body: Option<&[u8]>) -> (r: bool)
    ensures
        r == header_util::conditions_hold(
            conds@,
            body_fields(
                match body {
                    Some(b) => Some(b@),
                    None => None,
                },
            ),
        ),
{
    let empty: Vec<u8> = Vec::new();
    assert(empty@ =~= Seq::<u8>::empty());
    let bytes: &[u8] = match body {
        Some(b) => match text_of(b) {
            Some(_) => b,
            None => empty.as_slice(),
        },
        None => empty.as_slice(),
    };
    let fields = parse_form(bytes);
    eval_field_conditions(conds, fields.as_slice())
}

impl FastRouter {
    /// Compiles a configuration.
    pub fn new(cfg: Config) -> (r: FastRouter)
        ensures
            router_compiled(r, cfg@),
            r.cfg == cfg,
            config::config_wf(cfg@) ==> router_wf(r),
    {
        let mut domains: Vec<FastDomainState> = Vec::new();
        for i in 0..cfg.domains.len()
            invariant
                domains@.len() == i,
                forall|j: int|
                    0 <= j < i ==> domain_compiled(
                        #[trigger] domains@[j],
                        cfg.domains@[j]@,
                        cfg.backend_pool_size,
                    ),
        {
            domains.push(compile_domain(&cfg.domains[i], cfg.backend_pool_size));
        }
        let def = make_balancer(&cfg.def);
        let def_headers = compile_headers(&cfg.set_headers);
        let def_header_names = compile_header_names(&cfg.set_headers);
        FastRouter { cfg, domains, def, def_headers, def_header_names }
    }

    /// Whether a request passes the filters of a route.
    pub fn check_filters(method: &str, path: &str, headers: &[Header], route: &Route) -> (r: bool)
        ensures
            r == filters_hold(route@, method@, path@, http::fields(headers@)),
    {
        let ghost hs = http::fields(headers@);
        if let Some(methods) = &route.method {
            let mut found: bool = false;
            for i in 0..methods.len()
                invariant
                    found == exists|j: int| 0 <= j < i && (#[trigger] methods@[j])@ == method@,
            {
                if str_eq(methods[i].as_str(), method) {
                    found = true;
                    assert(methods@[i as int]@ == method@);
                }
            }
            proof {
                let ms = text::texts(methods@);
                assert(ms.contains(method@) == found) by {
                    if found {
                        let j = choose|j: int|
                            0 <= j < methods@.len() && (#[trigger] methods@[j])@ == method@;
                        assert(ms[j] == method@);
                    }
                    if ms.contains(method@) {
                        let j = choose|j: int| 0 <= j < ms.len() && ms[j] == method@;
                        assert(methods@[j]@ == method@);
                    }
                }
            }
            if !found {
                return false;
            }
        }
        if let Some(names) = &route.header {
            for i in 0..names.len()
                invariant
                    hs == http::fields(headers@),
                    route@.header == Some(text::texts(names@)),
                    forall|j: int| 0 <= j < i ==> has_name(hs, #[trigger] text::texts(names@)[j]),
            {
                if !has_header_name(headers, names[i].as_str()) {
                    assert(!has_name(hs, (route@.header->0)[i as int]));
                    return false;
                }
            }
        }
        if let Some(names) = &route.absent_header {
            for i in 0..names.len()
                invariant
                    hs == http::fields(headers@),
                    route@.absent_header == Some(text::texts(names@)),
                    forall|j: int| 0 <= j < i ==> !has_name(hs, #[trigger] text::texts(names@)[j]),
            {
                if has_header_name(headers, names[i].as_str()) {
                    assert(has_name(hs, (route@.absent_header->0)[i as int]));
                    return false;
                }
            }
        }
        if let Some(conds) = &route.cookie {
            let cookies = cookie_text(headers);
            for i in 0..conds.len()
                invariant
                    hs == http::fields(headers@),
                    cookies@ == cookies_of(hs),
                    route@.cookie == Some(text::texts(conds@)),
                    forall|j: int|
                        0 <= j < i ==> cookie_holds(
                            #[trigger] text::texts(conds@)[j],
                            cookies_of(hs),
                        ),
            {
                if !meets_cookie(conds[i].as_str(), cookies) {
                    assert(!cookie_holds((route@.cookie->0)[i as int], cookies_of(hs)));
                    return false;
                }
            }
        }
        if let Some(query) = &route.query {
            let fields = query_fields(path);
            if !eval_field_conditions(query.as_str(), fields.as_slice()) {
                return false;
            }
        }
        true
    }
}

// ---------------------------------------------------------------------------
// Routing
// ---------------------------------------------------------------------------

/// Where the balancer of a request stands: with its route, with its domain, or with the whole.
#[derive(Clone, Copy, PartialEq, Eq, Structural, Debug)]
pub enum BalancerAt {
    Route,
    Domain,
    Global,
}

/// The domain and route of a request, by their places, and where its balancer stands.
#[derive(Clone, Copy, PartialEq, Eq, Structural, Debug)]
pub struct Routed {
    pub balancer: BalancerAt,
    pub route: Option<usize>,
    pub domain: Option<usize>,
}

/// Whether a domain serves a host at a local address.
pub open spec fn serves(d: FastDomainState, host: Seq<char>, local: Seq<char>) -> bool {
    &&& d.matcher.matches(host)
    &&& text::texts(d.listen@).contains(local) || text::texts(d.tls_listen@).contains(local)
}

/// Length of the pattern of a domain.
pub open spec fn specificity(d: FastDomainState) -> nat {
    encode_utf8(d.matcher.source()).len()
}

/// The first of the domains that serve a host with the longest pattern.
pub open spec fn best_domain(ds: Seq<FastDomainState>, host: Seq<char>, local: Seq<char>) -> Option<
    int,
>
    decreases ds.len(),
{
    if ds.len() == 0 {
        None
    } else {
        let b = best_domain(ds.drop_last(), host, local);
        if serves(ds.last(), host, local) && (b is None || specificity(ds.last()) > specificity(
            ds[b->0],
        )) {
            Some(ds.len() - 1)
        } else {
            b
        }
    }
}

/// Whether a route takes a request.
pub open spec fn takes(
    r: FastRouteState,
    method: Seq<char>,
    target: Seq<char>,
    hs: Seq<http::Field>,
) -> bool {
    r.matcher.matches(target) && filters_hold(r.route@, method, target, hs)
}

/// Where the balancer for a route stands: with the route, or else with the domain, or else with
/// the whole.
pub open spec fn balancer_for(
    r: FastRouteState,
    d: FastDomainState,
    router: FastRouter,
) -> Option<BalancerAt> {
    if r.balancer is Some {
        Some(BalancerAt::Route)
    } else if d.def is Some {
        Some(BalancerAt::Domain)
    } else if router.def is Some {
        Some(BalancerAt::Global)
    } else {
        None
    }
}

/// The first route from `k` on that takes a request and has a balancer.
pub open spec fn first_route(
    router: FastRouter,
    d: FastDomainState,
    k: int,
    method: Seq<char>,
    target: Seq<char>,
    hs: Seq<http::Field>,
) -> Option<int>
    decreases d.routes@.len() - k,
{
    if k < 0 || k >= d.routes@.len() {
        None
    } else if takes(d.routes@[k], method, target, hs) && balancer_for(d.routes@[k], d, router)
        is Some {
        Some(k)
    } else {
        first_route(router, d, k + 1, method, target, hs)
    }
}

/// The domain and route of a request, and where its balancer stands.
pub open spec fn routed(
    router: FastRouter,
    method: Seq<char>,
    host: Seq<char>,
    target: Seq<char>,
    hs: Seq<http::Field>,
    local: Seq<char>,
) -> Option<Routed> {
    let global = if router.def is Some {
        Some(Routed { balancer: BalancerAt::Global, route: None, domain: None })
    } else {
        None
    };
    match best_domain(router.domains@, header_util::without_port(host), local) {
        Some(i) => {
            let d = router.domains@[i];
            match first_route(router, d, 0, method, target, hs) {
                Some(k) => Some(
                    Routed {
                        balancer: balancer_for(d.routes@[k], d, router)->0,
                        route: Some(k as usize),
                        domain: Some(i as usize),
                    },
                ),
                None => if d.def is Some {
                    Some(
                        Routed {
                            balancer: BalancerAt::Domain,
                            route: None,
                            domain: Some(i as usize),
                        },
                    )
                } else {
                    global
                },
            }
        },
        None => global,
    }
}

/// Whether the places of a routing decision are there.
pub open spec fn routed_within(router: FastRouter, at: Routed) -> bool {
    &&& at.route is Some ==> at.domain is Some
    &&& at.domain matches Some(d) ==> {
        &&& d < router.domains@.len()
        &&& at.route matches Some(r) ==> r < router.domains@[d as int].routes@.len()
    }
}

proof fn lemma_best_domain(ds: Seq<FastDomainState>, host: Seq<char>, local: Seq<char>)
    ensures
        match best_domain(ds, host, local) {
            Some(i) => {
                &&& 0 <= i < ds.len()
                &&& serves(ds[i], host, local)
                &&& forall|j: int|
                    0 <= j < ds.len() && serves(#[trigger] ds[j], host, local) ==> specificity(ds[j])
                        < specificity(ds[i]) || (specificity(ds[j]) == specificity(ds[i]) && i <= j)
            },
            None => forall|j: int| 0 <= j < ds.len() ==> !serves(#[trigger] ds[j], host, local),
        },
    decreases ds.len(),
{
    if ds.len() > 0 {
        let t = ds.drop_last();
        lemma_best_domain(t, host, local);
        assert forall|j: int| 0 <= j < t.len() implies #[trigger] ds[j] == t[j] by {}
        match best_domain(ds, host, local) {
            Some(i) => {
                assert forall|j: int| 0 <= j < ds.len() && serves(#[trigger] ds[j], host, local) implies
                    specificity(ds[j]) < specificity(ds[i]) || (specificity(ds[j]) == specificity(
                    ds[i],
                ) && i <= j) by {
                    if j < t.len() {
                        assert(ds[j] == t[j]);
                    }
                }
            },
            None => {
                assert forall|j: int| 0 <= j < ds.len() implies !serves(
                    #[trigger] ds[j],
                    host,
                    local,
                ) by {
                    if j < t.len() {
                        assert(ds[j] == t[j]);
                    }
                }
            },
        }
    }
}

proof fn lemma_first_route(
    router: FastRouter,
    d: FastDomainState,
    k: int,
    method: Seq<char>,
    target: Seq<char>,
    hs: Seq<http::Field>,
)
    requires
        0 <= k,
    ensures
        match first_route(router, d, k, method, target, hs) {
            Some(i) => {
                &&& k <= i < d.routes@.len()
                &&& takes(d.routes@[i], method, target, hs)
                &&& balancer_for(d.routes@[i], d, router) is Some
                &&& forall|j: int|
                    k <= j < i ==> !takes(#[trigger] d.routes@[j], method, target, hs)
                        || balancer_for(d.routes@[j], d, router) is None
            },
            None => forall|j: int|
                k <= j < d.routes@.len() ==> !takes(#[trigger] d.routes@[j], method, target, hs)
                    || balancer_for(d.routes@[j], d, router) is None,
        },
    decreases d.routes@.len() - k,
{
    if k < d.routes@.len() && !(takes(d.routes@[k], method, target, hs) && balancer_for(
        d.routes@[k],
        d,
        router,
    ) is Some) {
        lemma_first_route(router, d, k + 1, method, target, hs);
    }
}

fn holds_text(v: &Vec<String>, s: &str) -> (r: bool)
    ensures
        r == text::texts(v@).contains(s@),
{
    for i in 0..v.len()
        invariant
            forall|j: int| 0 <= j < i ==> #[trigger] text::texts(v@)[j] != s@,
    {
        if str_eq(v[i].as_str(), s) {
            assert(text::texts(v@)[i as int] == s@);
            return true;
        }
    }
    false
}

impl FastRouter {
    /// The domain and route of a request, and where its balancer stands. The most specific domain
    /// wins, and within it the first route that takes the request.
    pub fn route(
        &self,
        method: &str,
        host: &str,
        path: &str,
        headers: &[Header],
        local_addr: &str,
    ) -> (r: Option<Routed>)
        ensures
            r == routed(*self, method@, host@, path@, http::fields(headers@), local_addr@),
            r matches Some(at) ==> routed_within(*self, at),
    {
        let name = host_without_port(host);
        let ghost ds = self.domains@;
        let mut best: Option<usize> = None;
        for i in 0..self.domains.len()
            invariant
                ds == self.domains@,
                best_domain(ds.take(i as int), name@, local_addr@) == (match best {
                    Some(b) => Some(b as int),
                    None => None,
                }),
                best matches Some(b) ==> b < i,
        {
            let d = &self.domains[i];
            proof {
                assert(ds.take(i + 1).drop_last() =~= ds.take(i as int));
                assert(ds.take(i + 1).last() == *d);
                lemma_best_domain(ds.take(i as int), name@, local_addr@);
            }
            if d.matcher.is_match(name) && (holds_text(&d.listen, local_addr) || holds_text(
                &d.tls_listen,
                local_addr,
            )) {
                let better = match best {
                    Some(b) => d.matcher.pat_len() > self.domains[b].matcher.pat_len(),
                    None => true,
                };
                if better {
                    best = Some(i);
                }
            }
        }
        assert(ds.take(ds.len() as int) =~= ds);
        if let Some(i) = best {
            let d = &self.domains[i];
            for k in 0..d.routes.len()
                invariant
                    *d == self.domains@[i as int],
                    i < self.domains@.len(),
                    best_domain(self.domains@, name@, local_addr@) == Some(i as int),
                    first_route(*self, *d, 0, method@, path@, http::fields(headers@))
                        == first_route(*self, *d, k as int, method@, path@, http::fields(headers@)),
                    name@ == header_util::without_port(host@),
            {
                let r = &d.routes[k];
                if r.matcher.is_match(path) && Self::check_filters(method, path, headers, &r.route) {
                    let at = if r.balancer.is_some() {
                        Some(BalancerAt::Route)
                    } else if d.def.is_some() {
                        Some(BalancerAt::Domain)
                    } else if self.def.is_some() {
                        Some(BalancerAt::Global)
                    } else {
                        None
                    };
                    if let Some(balancer) = at {
                        return Some(Routed { balancer, route: Some(k), domain: Some(i) });
                    }
                }
            }
            if d.def.is_some() {
                return Some(
                    Routed { balancer: BalancerAt::Domain, route: None, domain: Some(i) },
                );
            }
        }
        if self.def.is_some() {
            Some(Routed { balancer: BalancerAt::Global, route: None, domain: None })
        } else {
            None
        }
    }
}

// ---------------------------------------------------------------------------
// Policy
// ---------------------------------------------------------------------------

/// The access policy of a request: refused networks, admitted networks, and the secret of its
/// tokens.
pub struct Policy<'a> {
    pub deny: Option<&'a Vec<IpNet>>,
    pub allow: Option<&'a Vec<IpNet>>,
    pub jwt_secret: Option<&'a String>,
}

/// The first of three settings that is there.
pub open spec fn first_of<T>(a: Option<T>, b: Option<T>, c: Option<T>) -> Option<T> {
    if a is Some {
        a
    } else if b is Some {
        b
    } else {
        c
    }
}

/// The setting of a route, if there is one.
pub open spec fn of_route<T>(r: Option<&FastRouteState>, f: spec_fn(Route) -> Option<T>) -> Option<
    T,
> {
    match r {
        Some(x) => f(x.route),
        None => None,
    }
}

/// The setting of a domain, if there is one.
pub open spec fn of_domain<T>(
    d: Option<&FastDomainState>,
    f: spec_fn(FastDomainState) -> Option<T>,
) -> Option<T> {
    match d {
        Some(x) => f(*x),
        None => None,
    }
}

/// What an optional reference points at.
pub open spec fn pointee<T>(x: Option<&T>) -> Option<T> {
    match x {
        Some(v) => Some(*v),
        None => None,
    }
}

fn prefer<'a, T>(a: &'a Option<T>, b: Option<&'a T>) -> (r: Option<&'a T>)
    ensures
        pointee(r) == if *a is Some {
            *a
        } else {
            pointee(b)
        },
{
    match a {
        Some(x) => Some(x),
        None => b,
    }
}

/// The access policy of a request: a setting of the route, or else of the domain, or else of the
/// whole.
pub fn effective_policy<'a>(
    route_opt: Option<&'a FastRouteState>,
    domain_opt: Option<&'a FastDomainState>,
    cfg: &'a Config,
) -> (r: Policy<'a>)
    ensures
        pointee(r.deny) == first_of(
            of_route(route_opt, |x: Route| x.deny_ip),
            of_domain(domain_opt, |x: FastDomainState| x.deny_ip),
            cfg.deny_ip,
        ),
        pointee(r.allow) == first_of(
            of_route(route_opt, |x: Route| x.allow_ip),
            of_domain(domain_opt, |x: FastDomainState| x.allow_ip),
            cfg.allow_ip,
        ),
        pointee(r.jwt_secret) == first_of(
            of_route(route_opt, |x: Route| x.jwt_secret),
            of_domain(domain_opt, |x: FastDomainState| x.jwt_secret),
            cfg.jwt_secret,
        ),
{
    let mut deny = prefer(&cfg.deny_ip, None);
    let mut allow = prefer(&cfg.allow_ip, None);
    let mut jwt_secret = prefer(&cfg.jwt_secret, None);
    if let Some(d) = domain_opt {
        deny = prefer(&d.deny_ip, deny);
        allow = prefer(&d.allow_ip, allow);
        jwt_secret = prefer(&d.jwt_secret, jwt_secret);
    }
    if let Some(x) = route_opt {
        deny = prefer(&x.route.deny_ip, deny);
        allow = prefer(&x.route.allow_ip, allow);
        jwt_secret = prefer(&x.route.jwt_secret, jwt_secret);
    }
    Policy { deny, allow, jwt_secret }
}

// ---------------------------------------------------------------------------
// Validate rules
// ---------------------------------------------------------------------------

/// Whether a value passes a rule that may have a pattern.
pub open spec fn passes(m: Option<Matcher>, value: Seq<char>) -> bool {
    m matches Some(x) ==> x.matches(value)
}

/// The fields before the first nameless one.
pub open spec fn leading(hs: Seq<http::Field>) -> Seq<http::Field>
    decreases hs.len(),
{
    if hs.len() == 0 || hs[0].name.len() == 0 {
        seq![]
    } else {
        seq![hs[0]] + leading(hs.drop_first())
    }
}

/// Whether some header of the given name passes. Without a pattern its value may be any bytes;
/// with one it is text that matches.
pub open spec fn header_passes(
    hs: Seq<http::Field>,
    name: Seq<char>,
    m: Option<Matcher>,
) -> bool {
    exists|i: int|
        0 <= i < hs.len() && #[trigger] header_field_passes(hs[i], name, m)
}

/// Whether a header has the given name and passes.
pub open spec fn header_field_passes(h: http::Field, name: Seq<char>, m: Option<Matcher>) -> bool {
    &&& text::eq_ci(h.name, encode_utf8(name))
    &&& m matches Some(x) ==> http::value_text(h.value) is Some && x.matches(
        http::value_text(h.value)->0,
    )
}

/// Whether a part `name=value` has the given name and a value that passes. `bare` says whether a
/// part without `=` counts, with an empty value.
pub open spec fn part_passes(
    part: Seq<char>,
    name: Seq<char>,
    m: Option<Matcher>,
    bare: bool,
) -> bool {
    &&& bare || text::find(part, '=') < part.len()
    &&& name_value(part).0 == name
    &&& passes(m, name_value(part).1)
}

/// Whether some cookie of a `Cookie` value passes.
pub open spec fn cookie_passes(cookies: Seq<char>, name: Seq<char>, m: Option<Matcher>) -> bool {
    exists|i: int|
        0 <= i < text::split(cookies, ';').len() && #[trigger] part_passes(
            text::trim(text::split(cookies, ';')[i]),
            name,
            m,
            false,
        )
}

/// Whether a header is a `Cookie` with a cookie that passes.
pub open spec fn cookie_field_passes(h: http::Field, name: Seq<char>, m: Option<Matcher>) -> bool {
    &&& http::named(h, "cookie")
    &&& http::value_text(h.value) is Some
    &&& cookie_passes(http::value_text(h.value)->0, name, m)
}

/// Whether some parameter of a query or a form passes, its name and value undecoded.
pub open spec fn param_passes(s: Seq<char>, name: Seq<char>, m: Option<Matcher>) -> bool {
    exists|i: int|
        0 <= i < text::split(s, '&').len() && #[trigger] part_passes(
            text::split(s, '&')[i],
            name,
            m,
            true,
        )
}

/// Whether a request passes a rule, before inversion.
pub open spec fn rule_holds(
    rule: FastValidateRule,
    hs: Seq<http::Field>,
    target: Seq<char>,
    body: Option<Seq<u8>>,
) -> bool {
    match rule.rule_type {
        ValidateType::Header => header_passes(leading(hs), rule.name@, rule.matcher),
        ValidateType::Cookie => exists|i: int|
            0 <= i < leading(hs).len() && #[trigger] cookie_field_passes(
                leading(hs)[i],
                rule.name@,
                rule.matcher,
            ),
        ValidateType::Query => query_of(target) matches Some(q) && param_passes(
            q,
            rule.name@,
            rule.matcher,
        ),
        ValidateType::Post => {
            &&& body matches Some(b)
            &&& valid_utf8(b)
            &&& param_passes(decode_utf8(b), rule.name@, rule.matcher)
        },
    }
}

proof fn lemma_leading(hs: Seq<http::Field>)
    ensures
        leading(hs).len() <= hs.len(),
        forall|i: int|
            0 <= i < leading(hs).len() ==> #[trigger] leading(hs)[i] == hs[i] && hs[i].name.len()
                > 0,
        leading(hs).len() < hs.len() ==> hs[leading(hs).len() as int].name.len() == 0,
    decreases hs.len(),
{
    if hs.len() > 0 && hs[0].name.len() > 0 {
        lemma_leading(hs.drop_first());
        let r = leading(hs.drop_first());
        assert forall|i: int| 0 <= i < leading(hs).len() implies #[trigger] leading(hs)[i] == hs[i]
            && hs[i].name.len() > 0 by {
            if i > 0 {
                assert(leading(hs)[i] == r[i - 1]);
                assert(r[i - 1] == hs.drop_first()[i - 1]);
            }
        }
        if r.len() < hs.drop_first().len() {
            assert(hs.drop_first()[r.len() as int] == hs[r.len() as int + 1]);
        }
    }
}

fn passes_matcher(m: &Option<Matcher>, value: &str) -> (r: bool)
    ensures
        r == passes(*m, value@),
{
    match m {
        Some(x) => x.is_match(value),
        None => true,
    }
}

fn any_cookie_passes(cookies: &str, name: &str, m: &Option<Matcher>) -> (r: bool)
    ensures
        r == cookie_passes(cookies@, name@, *m),
{
    let parts = split_str(cookies, ';');
    let ghost ps = text::split(cookies@, ';');
    for i in 0..parts.len()
        invariant
            ps == text::split(cookies@, ';'),
            text::views(parts@) == ps,
            forall|j: int|
                0 <= j < i ==> !#[trigger] part_passes(text::trim(ps[j]), name@, *m, false),
    {
        assert(text::views(parts@)[i as int] == parts@[i as int]@);
        let part = trim_str(parts[i]);
        proof {
            text::lemma_find(part@, '=');
        }
        if let Some((k, v)) = split_once(part, '=') {
            if str_eq(k, name) && passes_matcher(m, v) {
                assert(part_passes(text::trim(ps[i as int]), name@, *m, false));
                return true;
            }
        }
    }
    false
}

fn any_param_passes(s: &str, name: &str, m: &Option<Matcher>) -> (r: bool)
    ensures
        r == param_passes(s@, name@, *m),
{
    let parts = split_str(s, '&');
    let ghost ps = text::split(s@, '&');
    for i in 0..parts.len()
        invariant
            ps == text::split(s@, '&'),
            text::views(parts@) == ps,
            forall|j: int| 0 <= j < i ==> !#[trigger] part_passes(ps[j], name@, *m, true),
    {
        assert(text::views(parts@)[i as int] == parts@[i as int]@);
        let (k, v) = split_name_value(parts[i]);
        if str_eq(k, name) && passes_matcher(m, v) {
            assert(part_passes(ps[i as int], name@, *m, true));
            return true;
        }
    }
    false
}

fn header_rule_matches(rule: &FastValidateRule, headers: &[Header]) -> (r: bool)
    ensures
        r == header_passes(leading(http::fields(headers@)), rule.name@, rule.matcher),
{
    let ghost hs = http::fields(headers@);
    proof {
        lemma_leading(hs);
    }
    for i in 0..headers.len()
        invariant
            hs == http::fields(headers@),
            leading(hs).len() <= hs.len(),
            forall|j: int|
                0 <= j < leading(hs).len() ==> #[trigger] leading(hs)[j] == hs[j]
                    && hs[j].name.len() > 0,
            leading(hs).len() < hs.len() ==> hs[leading(hs).len() as int].name.len() == 0,
            i <= leading(hs).len(),
            forall|j: int|
                0 <= j < i ==> !#[trigger] header_field_passes(
                    leading(hs)[j],
                    rule.name@,
                    rule.matcher,
                ),
    {
        let h = &headers[i];
        assert(hs[i as int] == h@);
        if h.name.as_bytes().len() == 0 {
            assert(i == leading(hs).len()) by {
                if i < leading(hs).len() {
                    assert(leading(hs)[i as int] == hs[i as int]);
                }
            }
            return false;
        }
        assert(i < leading(hs).len());
        assert(leading(hs)[i as int] == h@);
        if str_eq_ci(h.name, rule.name.as_str()) {
            let ok = match &rule.matcher {
                Some(re) => match text_of(h.value) {
                    Some(s) => re.is_match(s),
                    None => false,
                },
                None => true,
            };
            if ok {
                assert(header_field_passes(leading(hs)[i as int], rule.name@, rule.matcher));
                return true;
            }
        }
    }
    false
}

fn cookie_rule_matches(rule: &FastValidateRule, headers: &[Header]) -> (r: bool)
    ensures
        r == exists|i: int|
            0 <= i < leading(http::fields(headers@)).len() && #[trigger] cookie_field_passes(
                leading(http::fields(headers@))[i],
                rule.name@,
                rule.matcher,
            ),
{
    let ghost hs = http::fields(headers@);
    proof {
        lemma_leading(hs);
    }
    for i in 0..headers.len()
        invariant
            hs == http::fields(headers@),
            leading(hs).len() <= hs.len(),
            forall|j: int|
                0 <= j < leading(hs).len() ==> #[trigger] leading(hs)[j] == hs[j]
                    && hs[j].name.len() > 0,
            leading(hs).len() < hs.len() ==> hs[leading(hs).len() as int].name.len() == 0,
            i <= leading(hs).len(),
            forall|j: int|
                0 <= j < i ==> !#[trigger] cookie_field_passes(
                    leading(hs)[j],
                    rule.name@,
                    rule.matcher,
                ),
    {
        let h = &headers[i];
        assert(hs[i as int] == h@);
        if h.name.as_bytes().len() == 0 {
            assert(i == leading(hs).len()) by {
                if i < leading(hs).len() {
                    assert(leading(hs)[i as int] == hs[i as int]);
                }
            }
            return false;
        }
        assert(i < leading(hs).len());
        assert(leading(hs)[i as int] == h@);
        if str_eq_ci(h.name, "cookie") {
            if let Some(s) = text_of(h.value) {
                if any_cookie_passes(s, rule.name.as_str(), &rule.matcher) {
                    assert(cookie_field_passes(leading(hs)[i as int], rule.name@, rule.matcher));
                    return true;
                }
            }
        }
    }
    false
}

/// Whether a request passes a rule, before inversion. A `Post` rule without a body does not pass.
pub fn rule_matches(
    rule: &FastValidateRule,
    headers: &[Header],
    path: &str,
    full_body: Option<&Vec<u8>>,
) -> (r: bool)
    ensures
        r == rule_holds(
            *rule,
            http::fields(headers@),
            path@,
            match full_body {
                Some(b) => Some(b@),
                None => None,
            },
        ),
{
    match rule.rule_type {
        ValidateType::Header => header_rule_matches(rule, headers),
        ValidateType::Cookie => cookie_rule_matches(rule, headers),
        ValidateType::Query => match query_part(path) {
            Some(q) => any_param_passes(q, rule.name.as_str(), &rule.matcher),
            None => false,
        },
        ValidateType::Post => match full_body {
            Some(body) => match text_of(body.as_slice()) {
                Some(s) => any_param_passes(s, rule.name.as_str(), &rule.matcher),
                None => false,
            },
            None => false,
        },
    }
}

/// The first rule from `k` on that a request fails.
pub open spec fn first_failed(
    rules: Seq<FastValidateRule>,
    k: int,
    hs: Seq<http::Field>,
    target: Seq<char>,
    body: Option<Seq<u8>>,
) -> Option<int>
    decreases rules.len() - k,
{
    if k < 0 || k >= rules.len() {
        None
    } else if rule_holds(rules[k], hs, target, body) == rules[k].invert {
        Some(k)
    } else {
        first_failed(rules, k + 1, hs, target, body)
    }
}

/// The first rule that a request fails: one that it passes where it is inverted, or does not pass
/// where it is not.
pub fn failed_rule(
    rules: &Vec<FastValidateRule>,
    headers: &[Header],
    path: &str,
    full_body: Option<&Vec<u8>>,
) -> (r: Option<usize>)
    ensures
        first_failed(
            rules@,
            0,
            http::fields(headers@),
            path@,
            match full_body {
                Some(b) => Some(b@),
                None => None,
            },
        ) == match r {
            Some(i) => Some(i as int),
            None => None,
        },
        r matches Some(i) ==> i < rules@.len(),
{
    let ghost body = match full_body {
        Some(b) => Some(b@),
        None => None,
    };
    for i in 0..rules.len()
        invariant
            body == (match full_body {
                Some(b) => Some(b@),
                None => None,
            }),
            first_failed(rules@, 0, http::fields(headers@), path@, body) == first_failed(
                rules@,
                i as int,
                http::fields(headers@),
                path@,
                body,
            ),
    {
        if rule_matches(&rules[i], headers, path, full_body) == rules[i].invert {
            return Some(i);
        }
    }
    None
}

// ---------------------------------------------------------------------------
// Laws
// ---------------------------------------------------------------------------

/// The domain of a request serves it, and no domain that serves it has a longer pattern, nor one
/// as long before it. Without a domain none serves it, or the request fell through to the global
/// default.
pub proof fn law_most_specific_domain(
    router: FastRouter,
    method: Seq<char>,
    host: Seq<char>,
    target: Seq<char>,
    hs: Seq<http::Field>,
    local: Seq<char>,
)
    requires
        router.domains@.len() <= usize::MAX,
    ensures
        routed(router, method, host, target, hs, local) matches Some(r) ==> {
            &&& r.domain matches Some(i) ==> {
                let name = header_util::without_port(host);
                &&& i < router.domains@.len()
                &&& serves(router.domains@[i as int], name, local)
                &&& forall|j: int|
                    0 <= j < router.domains@.len() && serves(
                        #[trigger] router.domains@[j],
                        name,
                        local,
                    ) ==> specificity(router.domains@[j]) < specificity(router.domains@[i as int])
                        || (specificity(router.domains@[j]) == specificity(
                        router.domains@[i as int],
                    ) && i <= j)
            }
            &&& r.domain is None ==> r.route is None && r.balancer == BalancerAt::Global
        },
{
    lemma_best_domain(router.domains@, header_util::without_port(host), local);
}

/// The route of a request is the first of its domain that takes it and has backends, be they its
/// own, the domain's or the global ones. A request without a route has none that would take it.
pub proof fn law_first_route(
    router: FastRouter,
    method: Seq<char>,
    host: Seq<char>,
    target: Seq<char>,
    hs: Seq<http::Field>,
    local: Seq<char>,
)
    requires
        router.domains@.len() <= usize::MAX,
        forall|i: int|
            0 <= i < router.domains@.len() ==> (#[trigger] router.domains@[i]).routes@.len()
                <= usize::MAX,
    ensures
        routed(router, method, host, target, hs, local) matches Some(r) ==> (
        r.domain matches Some(i) ==> {
            let d = router.domains@[i as int];
            match r.route {
                Some(k) => {
                    &&& k < d.routes@.len()
                    &&& takes(d.routes@[k as int], method, target, hs)
                    &&& balancer_for(d.routes@[k as int], d, router) == Some(r.balancer)
                    &&& forall|j: int|
                        0 <= j < k ==> !takes(#[trigger] d.routes@[j], method, target, hs)
                            || balancer_for(d.routes@[j], d, router) is None
                },
                None => {
                    &&& r.balancer == BalancerAt::Domain
                    &&& d.def is Some
                    &&& forall|j: int|
                        0 <= j < d.routes@.len() ==> !takes(
                            #[trigger] d.routes@[j],
                            method,
                            target,
                            hs,
                        )
                },
            }
        }),
{
    lemma_best_domain(router.domains@, header_util::without_port(host), local);
    if let Some(i) = best_domain(router.domains@, header_util::without_port(host), local) {
        lemma_first_route(router, router.domains@[i], 0, method, target, hs);
    }
}

/// With a global default every request is served; without one a request that no domain serves is
/// not.
pub proof fn law_global_default_serves_all(
    router: FastRouter,
    method: Seq<char>,
    host: Seq<char>,
    target: Seq<char>,
    hs: Seq<http::Field>,
    local: Seq<char>,
)
    ensures
        router.def is Some ==> routed(router, method, host, target, hs, local) is Some,
        router.def is None && (forall|i: int|
            0 <= i < router.domains@.len() ==> !serves(
                #[trigger] router.domains@[i],
                header_util::without_port(host),
                local,
            )) ==> routed(router, method, host, target, hs, local) is None,
{
    lemma_best_domain(router.domains@, header_util::without_port(host), local);
}

/// The port of the `Host` field plays no part in routing.
pub proof fn law_port_is_ignored(
    router: FastRouter,
    method: Seq<char>,
    a: Seq<char>,
    b: Seq<char>,
    target: Seq<char>,
    hs: Seq<http::Field>,
    local: Seq<char>,
)
    requires
        header_util::without_port(a) == header_util::without_port(b),
    ensures
        routed(router, method, a, target, hs, local) == routed(
            router,
            method,
            b,
            target,
            hs,
            local,
        ),
{
}

} // verus!
