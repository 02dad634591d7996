//! Which part of the configuration serves a request, and what is noted of it.

use vstd::prelude::*;
use vstd::string::*;
use vstd::utf8::*;

use crate::config;
use crate::fast_proxy;
use crate::fast_proxy::{
    BalancerAt, FastDomainState, FastRouteState, FastRouter, FastValidateRule, Routed,
};
use crate::header_util;
use crate::http;
use crate::http::Field;
use crate::path;
use crate::request;
use crate::request::{DropCounter, Refusal};
use crate::text;
use crate::upstream;

verus! {

/// A domain serves the hosts that match its pattern, on the addresses that it lists, with TLS or
/// without. The longer its pattern, the more it counts.
pub proof fn law_who_serves_a_host(d: FastDomainState, host: Seq<char>, local: Seq<char>)
    ensures
        text::texts(d.listen@).contains(local) && d.matcher.matches(host) ==> fast_proxy::serves(
            d,
            host,
            local,
        ),
        text::texts(d.tls_listen@).contains(local) && d.matcher.matches(host) ==> fast_proxy::serves(
            d,
            host,
            local,
        ),
        fast_proxy::serves(d, host, local) ==> d.matcher.matches(host) && (text::texts(
            d.listen@,
        ).contains(local) || text::texts(d.tls_listen@).contains(local)),
{
}

/// What a pattern counts is its length in bytes.
pub proof fn law_longer_patterns_count_more(d: FastDomainState, re: Seq<char>)
    requires
        fast_proxy::exact_matcher(d.matcher, re),
    ensures
        fast_proxy::specificity(d) == encode_utf8(re).len(),
{
}

/// A route takes a request whose target matches its pattern and that meets its filters, and no other.
pub proof fn law_what_a_route_takes(
    r: FastRouteState,
    method: Seq<char>,
    target: Seq<char>,
    hs: Seq<Field>,
)
    ensures
        fast_proxy::takes(r, method, target, hs) <==> r.matcher.matches(target)
            && fast_proxy::filters_hold(r.route@, method, target, hs),
{
}

/// A route is served by its own backends, otherwise by those of its domain, otherwise by those of the
/// whole configuration.
pub proof fn law_nearest_backends_serve(r: FastRouteState, d: FastDomainState, router: FastRouter)
    ensures
        r.balancer is Some ==> fast_proxy::balancer_for(r, d, router) == Some(BalancerAt::Route),
        r.balancer is None && d.def is Some ==> fast_proxy::balancer_for(r, d, router) == Some(
            BalancerAt::Domain,
        ),
        r.balancer is None && d.def is None && router.def is Some ==> fast_proxy::balancer_for(
            r,
            d,
            router,
        ) == Some(BalancerAt::Global),
        r.balancer is None && d.def is None && router.def is None ==> fast_proxy::balancer_for(
            r,
            d,
            router,
        ) is None,
{
}

proof fn lemma_only_domain(router: FastRouter, host: Seq<char>, local: Seq<char>)
    requires
        router.domains@.len() == 1,
    ensures
        fast_proxy::best_domain(router.domains@, host, local) == if fast_proxy::serves(
            router.domains@[0],
            host,
            local,
        ) {
            Some(0int)
        } else {
            None
        },
{
    reveal_with_fuel(fast_proxy::best_domain, 2);
    assert(router.domains@.drop_last() =~= Seq::<FastDomainState>::empty());
}

/// With a single domain: its first route that takes the request serves it; without one its default
/// does; and where it has none, or does not serve the host, the default of the configuration.
pub proof fn law_routes_then_defaults(
    router: FastRouter,
    method: Seq<char>,
    host: Seq<char>,
    target: Seq<char>,
    hs: Seq<Field>,
    local: Seq<char>,
)
    requires
        router.domains@.len() == 1,
        router.domains@[0].routes@.len() == 1,
    ensures
        ({
            let d = router.domains@[0];
            let r = d.routes@[0];
            let at = fast_proxy::routed(router, method, host, target, hs, local);
            let serves = fast_proxy::serves(d, header_util::without_port(host), local);
            let taken = fast_proxy::takes(r, method, target, hs) && (r.balancer is Some || d.def
                is Some || router.def is Some);
            let global = Routed { balancer: BalancerAt::Global, route: None, domain: None };
            &&& serves && taken && r.balancer is Some ==> at == Some(
                Routed { balancer: BalancerAt::Route, route: Some(0), domain: Some(0) },
            )
            &&& serves && taken && r.balancer is None && d.def is Some ==> at == Some(
                Routed { balancer: BalancerAt::Domain, route: Some(0), domain: Some(0) },
            )
            &&& serves && taken && r.balancer is None && d.def is None ==> at == Some(
                Routed { balancer: BalancerAt::Global, route: Some(0), domain: Some(0) },
            )
            &&& serves && !taken && d.def is Some ==> at == Some(
                Routed { balancer: BalancerAt::Domain, route: None, domain: Some(0) },
            )
            &&& (!serves || (!taken && d.def is None)) && router.def is Some ==> at == Some(global)
            &&& (!serves || (!taken && d.def is None)) && router.def is None ==> at is None
        }),
{
    lemma_only_domain(router, header_util::without_port(host), local);
    reveal_with_fuel(fast_proxy::first_route, 2);
}

/// A rule is compiled as it is configured, and what it answers on failure is its status with its body:
/// the length is that of the body, and the connection ends.
pub proof fn law_rule_is_compiled(f: FastValidateRule, m: config::RuleModel)
    requires
        fast_proxy::rule_compiled(f, m),
    ensures
        f.rule_type == m.rule_type,
        f.name@ == m.name,
        f.invert == m.invert,
        f.on_fail.status == m.status,
        f.matcher is Some <==> m.regex is Some,
        m.regex matches Some(re) ==> fast_proxy::exact_matcher(f.matcher->0, re),
        f.on_fail.balancer is Some <==> m.backends is Some,
        m.backends matches Some(l) ==> f.on_fail.balancer->0.list@ == l,
        f.on_fail.precomputed_resp@ == "HTTP/1.1 ".spec_bytes() + text::decimal_bytes(m.status as nat)
            + " validation failed\r\nContent-Length: ".spec_bytes() + text::decimal_bytes(
            encode_utf8(m.body).len(),
        ) + "\r\nConnection: close\r\n\r\n".spec_bytes() + encode_utf8(m.body),
{
}

/// A route is compiled as it is configured.
pub proof fn law_route_is_compiled(f: FastRouteState, m: config::RouteModel)
    requires
        fast_proxy::route_compiled(f, m),
    ensures
        f.route@ == m,
        fast_proxy::prefix_matcher(f.matcher, m.re),
        f.balancer is Some <==> m.bl is Some,
        m.bl matches Some(l) ==> f.balancer->0.list@ == l && f.balancer->0.rr_index == 0,
        f.client_timeout == m.client_timeout,
        f.max_body_size == m.max_body_size,
        f.drop_threshold == m.drop_threshold,
        f.log_level == m.log_level,
        f.validate@.len() == m.validate.len(),
        forall|i: int|
            0 <= i < m.validate.len() ==> fast_proxy::rule_compiled(
                #[trigger] f.validate@[i],
                m.validate[i],
            ),
        m.set_headers is None ==> f.set_headers@.len() == 0 && f.set_header_names@.len() == 0,
{
    if m.set_headers is None {
        assert(header_util::fragments(f.set_headers@).len() == f.set_headers@.len());
        assert(header_util::byte_strings(f.set_header_names@).len() == f.set_header_names@.len());
    }
}

/// A domain is compiled as it is configured; without a pool size of its own it has the one of the
/// configuration.
pub proof fn law_domain_is_compiled(f: FastDomainState, m: config::DomainModel, pool_size: usize)
    requires
        fast_proxy::domain_compiled(f, m, pool_size),
    ensures
        fast_proxy::exact_matcher(f.matcher, m.re),
        f.routes@.len() == m.routes.len(),
        forall|i: int|
            0 <= i < m.routes.len() ==> fast_proxy::route_compiled(#[trigger] f.routes@[i], m.routes[i]),
        f.def is Some <==> m.def is Some,
        m.def matches Some(l) ==> f.def->0.list@ == l && f.def->0.rr_index == 0,
        config::opt_nets(f.allow_ip) == m.allow_ip,
        config::opt_nets(f.deny_ip) == m.deny_ip,
        config::opt_text(f.jwt_secret) == m.jwt_secret,
        f.client_timeout == m.client_timeout,
        f.max_body_size == m.max_body_size,
        m.backend_pool_size matches Some(n) ==> f.backend_pool_size == n,
        m.backend_pool_size is None ==> f.backend_pool_size == pool_size,
        f.log_level == m.log_level,
        text::texts(f.listen@) == m.listen,
        text::texts(f.tls_listen@) == m.tls_listen,
{
}

/// The router is compiled from the whole configuration: every domain, in order, and the default.
pub proof fn law_router_is_compiled(f: FastRouter, m: config::ConfigModel)
    requires
        fast_proxy::router_compiled(f, m),
    ensures
        f.cfg@ == m,
        f.domains@.len() == m.domains.len(),
        forall|i: int|
            0 <= i < m.domains.len() ==> fast_proxy::domain_compiled(
                #[trigger] f.domains@[i],
                m.domains[i],
                m.backend_pool_size,
            ),
        f.def is Some <==> m.def is Some,
        m.def matches Some(l) ==> f.def->0.list@ == l && f.def->0.rr_index == 0,
{
}

/// Each refusal is counted where it belongs, and by one counter at most.
pub proof fn law_refusals_are_counted(r: Refusal)
    ensures
        request::refusal_drop(r) == Some(DropCounter::Ip) <==> r is Forbidden,
        request::refusal_drop(r) == Some(DropCounter::Jwt) <==> r is Unauthorized,
        request::refusal_drop(r) == Some(DropCounter::RateLimit) <==> r is RateLimited,
        request::refusal_drop(r) == Some(DropCounter::Rule) <==> r is PostRejected,
        request::refusal_drop(r) == Some(DropCounter::Qos) <==> r is QosDrop,
        request::refusal_counts_bytes(r) <==> r is QosDrop || r is BadGateway,
        request::refusal_status(r) is None <==> r is HeadTooLarge || r is BadRequest || r is NoRoute,
{
}

/// A target is made canonical where that is asked for and it is a path; otherwise it stays as it is.
pub proof fn law_targets_are_made_canonical(raw: Seq<char>)
    ensures
        request::target_of(false, raw) == raw,
        raw.len() == 0 || raw[0] != '/' ==> request::target_of(true, raw) == raw,
        raw.len() > 0 && raw[0] == '/' ==> encode_utf8(request::target_of(true, raw)) == path::normalize(
            encode_utf8(raw),
        ),
{
    reveal_strlit("/");
    if "/"@.is_prefix_of(raw) {
        assert(raw[0] == "/"@[0]);
    }
    if raw.len() > 0 && raw[0] == '/' {
        assert("/"@.is_prefix_of(raw));
        let b = encode_utf8(raw);
        lemma_begins_with_slash(raw);
        encode_utf8_valid_utf8(raw);
        if path::suspicious(b) {
            path::law_normalized_is_text(b);
            decode_utf8_encode_utf8(path::normalize(b));
        } else {
            path::law_unsuspicious_is_canonical(b);
        }
    }
}

proof fn lemma_begins_with_slash(s: Seq<char>)
    requires
        s.len() > 0,
        s[0] == '/',
    ensures
        encode_utf8(s).len() > 0,
        encode_utf8(s)[0] == path::SLASH,
{
    assert(leading_byte_width_1(47u32) == 47u8) by (bit_vector);
}

/// A head without a method counts as `GET`, and one without a target asks for the root.
pub proof fn law_what_a_head_leaves_out(head: http::RequestFields, m: Seq<char>, p: Seq<char>)
    ensures
        head.method == Some(m) ==> request::method_of(head) == m,
        head.method is None ==> request::method_of(head) == "GET"@,
        head.path == Some(p) ==> request::raw_target(head) == p,
        head.path is None ==> request::raw_target(head) == "/"@,
{
}

/// A response has the status that its head gives; without one it counts as a bad gateway.
pub proof fn law_status_of_a_response(resp: http::ResponseFields, c: u16, keep_alive: bool)
    ensures
        resp.code == Some(c) ==> upstream::code_of(resp) == c,
        resp.code is None ==> upstream::code_of(resp) == 502,
        resp.code is None ==> http::response_head(resp, keep_alive) == http::response_head(
            (http::ResponseFields { code: Some(502), ..resp }),
            keep_alive,
        ),
{
}

/// A body is read and judged where its route has a condition on forms, or a rule on a form field.
pub proof fn law_which_bodies_are_judged(r: FastRouteState)
    ensures
        r.route.post is Some ==> request::judges_body(r),
        (exists|i: int|
            0 <= i < r.validate@.len() && (#[trigger] r.validate@[i]).rule_type
                == config::ValidateType::Post) ==> request::judges_body(r),
        r.route.post is None && (forall|i: int|
            0 <= i < r.validate@.len() ==> (#[trigger] r.validate@[i]).rule_type
                != config::ValidateType::Post) ==> !request::judges_body(r),
{
}

/// The fields of a form are those of a body that is text; any other body has none.
pub proof fn law_form_of_a_body(b: Seq<u8>)
    ensures
        valid_utf8(b) ==> fast_proxy::body_fields(Some(b)) == fast_proxy::parsed_form(b),
        !valid_utf8(b) ==> fast_proxy::body_fields(Some(b)) == fast_proxy::body_fields(None),
        fast_proxy::body_fields(None) == fast_proxy::parsed_form(seq![]),
{
}

} // verus!
