//! Who is let in, with what, and what a refused client is told.

use vstd::arithmetic::div_mod::*;
use vstd::arithmetic::power2::*;
use vstd::prelude::*;
use vstd::string::*;
use vstd::utf8::*;

use crate::fast_proxy;
use crate::fast_proxy::{FastRouter, Routed};
use crate::header_util;
use crate::http;
use crate::http::Field;
use crate::jwt;
use crate::jwt::VerdictModel;
use crate::net::{IpAddr, IpNet};
use crate::rate;
use crate::rate::Count;
use crate::request;
use crate::request::{AdmittedModel, Judgement, Refusal};
use crate::text;
use crate::text_laws;

verus! {

// ---------------------------------------------------------------------------
// Addresses
// ---------------------------------------------------------------------------

/// Whether two numbers lie in the same block, where blocks of a size follow each other from 0 on.
pub open spec fn same_block(a: int, b: int, size: int) -> bool {
    exists|k: int| #[trigger] (k * size) <= a < k * size + size && k * size <= b < k * size + size
}

proof fn lemma_same_block(a: int, b: int, size: int)
    requires
        size > 0,
    ensures
        same_block(a, b, size) <==> a / size == b / size,
{
    if a / size == b / size {
        let k = a / size;
        lemma_fundamental_div_mod(a, size);
        lemma_fundamental_div_mod(b, size);
        assert(k * size == size * k) by (nonlinear_arith);
        assert(k * size <= a < k * size + size && k * size <= b < k * size + size);
    }
    if same_block(a, b, size) {
        let k = choose|k: int|
            #[trigger] (k * size) <= a < k * size + size && k * size <= b < k * size + size;
        lemma_fundamental_div_mod_converse(a, size, k, a - k * size);
        lemma_fundamental_div_mod_converse(b, size, k, b - k * size);
    }
}

/// A network holds the addresses of its kind that share its leading bits: those in the same block,
/// of as many addresses as the remaining bits can tell apart. With all bits that is one address,
/// with none it is every address.
pub proof fn law_network_is_a_block(addr: u32, prefix: u8, a: u32, addr6: u128, prefix6: u8, a6: u128)
    requires
        prefix <= 32,
        prefix6 <= 128,
    ensures
        (IpNet::V4 { addr, prefix }).holds(IpAddr::V4(a)) <==> same_block(
            addr as int,
            a as int,
            pow2((32 - prefix) as nat) as int,
        ),
        (IpNet::V6 { addr: addr6, prefix: prefix6 }).holds(IpAddr::V6(a6)) <==> same_block(
            addr6 as int,
            a6 as int,
            pow2((128 - prefix6) as nat) as int,
        ),
        !(IpNet::V4 { addr, prefix }).holds(IpAddr::V6(a6)),
        !(IpNet::V6 { addr: addr6, prefix: prefix6 }).holds(IpAddr::V4(a)),
        (IpNet::V4 { addr, prefix: 32 }).holds(IpAddr::V4(a)) <==> a == addr,
        (IpNet::V6 { addr: addr6, prefix: 128 }).holds(IpAddr::V6(a6)) <==> a6 == addr6,
        (IpNet::V4 { addr, prefix: 0 }).holds(IpAddr::V4(a)),
{
    lemma_pow2_pos((32 - prefix) as nat);
    lemma_pow2_pos((128 - prefix6) as nat);
    lemma_same_block(addr as int, a as int, pow2((32 - prefix) as nat) as int);
    lemma_same_block(addr6 as int, a6 as int, pow2((128 - prefix6) as nat) as int);
    lemma2_to64();
    let one = pow2(0) as int;
    let all = pow2(32) as int;
    assert(one == 1);
    assert(all == 0x100000000);
    lemma_div_by_one(addr as int, one);
    lemma_div_by_one(a as int, one);
    lemma_div_by_one(addr6 as int, one);
    lemma_div_by_one(a6 as int, one);
    lemma_div_by_more(addr as int, all);
    lemma_div_by_more(a as int, all);
    assert((32 - 32u8) as nat == 0);
    assert((128 - 128u8) as nat == 0);
    assert((32 - 0u8) as nat == 32);
}

proof fn lemma_div_by_one(x: int, one: int)
    requires
        one == 1,
    ensures
        x / one == x,
{
}

proof fn lemma_div_by_more(x: int, d: int)
    requires
        0 <= x < d,
    ensures
        x / d == 0,
{
    lemma_basic_div(x, d);
}

/// A client is kept out exactly where some denied network holds its address, or where there is a
/// list of allowed networks and none of them does.
pub proof fn law_who_is_kept_out(
    deny: Option<Seq<IpNet>>,
    allow: Option<Seq<IpNet>>,
    ip: IpAddr,
)
    ensures
        request::kept_out(deny, allow, ip) <==> {
            ||| deny is Some && exists|i: int|
                0 <= i < deny->0.len() && (#[trigger] deny->0[i]).holds(ip)
            ||| allow is Some && forall|i: int|
                0 <= i < allow->0.len() ==> !(#[trigger] allow->0[i]).holds(ip)
        },
{
}

/// The lists and the secret that judge a request are those of its route, or else of its domain, or
/// else of the configuration as a whole.
pub proof fn law_nearest_setting_judges(router: FastRouter, d: usize, r: usize, b: fast_proxy::BalancerAt)
    ensures
        ({
            let domain = router.domains@[d as int];
            let route = domain.routes@[r as int].route;
            let at = Routed { balancer: b, route: Some(r), domain: Some(d) };
            let under = Routed { balancer: b, route: None, domain: Some(d) };
            let none = Routed { balancer: b, route: None, domain: None };
            &&& route.deny_ip matches Some(l) ==> request::deny_of(router, at) == Some(l@)
            &&& route.deny_ip is None ==> request::deny_of(router, at) == request::deny_of(
                router,
                under,
            )
            &&& domain.deny_ip matches Some(l) ==> request::deny_of(router, under) == Some(l@)
            &&& domain.deny_ip is None ==> request::deny_of(router, under) == request::deny_of(
                router,
                none,
            )
            &&& router.cfg.deny_ip matches Some(l) ==> request::deny_of(router, none) == Some(l@)
            &&& router.cfg.deny_ip is None ==> request::deny_of(router, none) is None
            &&& route.allow_ip matches Some(l) ==> request::allow_of(router, at) == Some(l@)
            &&& route.allow_ip is None ==> request::allow_of(router, at) == request::allow_of(
                router,
                under,
            )
            &&& domain.allow_ip matches Some(l) ==> request::allow_of(router, under) == Some(l@)
            &&& domain.allow_ip is None ==> request::allow_of(router, under) == request::allow_of(
                router,
                none,
            )
            &&& router.cfg.allow_ip matches Some(l) ==> request::allow_of(router, none) == Some(l@)
            &&& router.cfg.allow_ip is None ==> request::allow_of(router, none) is None
            &&& route.jwt_secret matches Some(s) ==> request::secret_of(router, at) == Some(s@)
            &&& route.jwt_secret is None ==> request::secret_of(router, at) == request::secret_of(
                router,
                under,
            )
            &&& domain.jwt_secret matches Some(s) ==> request::secret_of(router, under) == Some(s@)
            &&& domain.jwt_secret is None ==> request::secret_of(router, under)
                == request::secret_of(router, none)
            &&& router.cfg.jwt_secret matches Some(s) ==> request::secret_of(router, none) == Some(
                s@,
            )
            &&& router.cfg.jwt_secret is None ==> request::secret_of(router, none) is None
        }),
{
}

/// The same holds of the limits, the time a client may take, the connections that are kept and the
/// fields that are set.
pub proof fn law_nearest_limit_holds(router: FastRouter, d: usize, r: usize, b: fast_proxy::BalancerAt)
    ensures
        ({
            let domain = router.domains@[d as int];
            let route = domain.routes@[r as int];
            let at = Routed { balancer: b, route: Some(r), domain: Some(d) };
            let under = Routed { balancer: b, route: None, domain: Some(d) };
            let none = Routed { balancer: b, route: None, domain: None };
            &&& request::body_limit(router, at) == route.max_body_size
            &&& request::body_limit(router, under) == domain.max_body_size
            &&& request::body_limit(router, none) == router.cfg.max_body_size
            &&& request::timeout_of(router, at) == route.client_timeout
            &&& request::timeout_of(router, under) == domain.client_timeout
            &&& request::timeout_of(router, none) == router.cfg.client_timeout
            &&& request::pool_of(router, at) == route.route.backend_pool_size
            &&& request::pool_of(router, under) == domain.backend_pool_size
            &&& request::pool_of(router, none) == router.cfg.backend_pool_size
            &&& route.log_level matches Some(l) ==> request::log_level_of(router, at) == l
            &&& route.log_level is None ==> request::log_level_of(router, at)
                == request::log_level_of(router, under)
            &&& domain.log_level matches Some(l) ==> request::log_level_of(router, under) == l
            &&& domain.log_level is None ==> request::log_level_of(router, under)
                == router.cfg.log_level
            &&& request::log_level_of(router, none) == router.cfg.log_level
            &&& route.set_headers@.len() > 0 ==> request::headers_of(router, at) == (
                route.set_headers@,
                route.set_header_names@,
            )
            &&& route.set_headers@.len() == 0 ==> request::headers_of(router, at)
                == request::headers_of(router, under)
            &&& domain.set_headers@.len() > 0 ==> request::headers_of(router, under) == (
                domain.set_headers@,
                domain.set_header_names@,
            )
            &&& domain.set_headers@.len() == 0 ==> request::headers_of(router, under) == (
                router.def_headers@,
                router.def_header_names@,
            )
        }),
{
}

// ---------------------------------------------------------------------------
// Tokens
// ---------------------------------------------------------------------------

/// A token `header.payload.signature` is accepted exactly where the signature is that of
/// `header.payload` under the secret, and the payload has not expired and is valid already.
pub proof fn law_accepted_token(
    header: Seq<char>,
    payload: Seq<char>,
    signature: Seq<char>,
    secret: Seq<char>,
    now_secs: u64,
)
    requires
        !header.contains('.'),
        !payload.contains('.'),
        !signature.contains('.'),
    ensures
        ({
            let token = header + seq!['.'] + payload + seq!['.'] + signature;
            let covered = encode_utf8(header) + seq![46u8] + encode_utf8(payload);
            let claims = jwt::decoded(payload);
            let exp = jwt::claim_of(claims, "exp");
            let nbf = jwt::claim_of(claims, "nbf");
            jwt::accepted(token, secret, now_secs) <==> {
                &&& jwt::decoded(signature) == Some(
                    jwt::hmac_sha256(encode_utf8(secret), covered),
                )
                &&& exp is None || now_secs < exp->0
                &&& nbf is None || nbf->0 <= now_secs
            }
        }),
{
    let token = header + seq!['.'] + payload + seq!['.'] + signature;
    let rest = payload + seq!['.'] + signature;
    assert(token =~= header + seq!['.'] + rest);
    text_laws::law_separator_parts(header, '.', rest);
    text_laws::law_separator_parts(payload, '.', signature);
    text_laws::law_separator_parts(signature, '.', Seq::<char>::empty());
    let parts = text::split(token, '.');
    assert(parts =~= seq![header, payload, signature]);
    assert(parts[0] == header && parts[1] == payload && parts[2] == signature);
}

/// What has fewer or more than three parts is no token.
pub proof fn law_token_has_three_parts(token: Seq<char>, secret: Seq<char>, now_secs: u64)
    requires
        text::split(token, '.').len() != 3,
    ensures
        !jwt::accepted(token, secret, now_secs),
{
}

/// A token comes in an `Authorization` field, behind `Bearer `.
pub proof fn law_where_a_token_stands(h: Field, token: Seq<char>)
    ensures
        text::eq_ci(h.name, "authorization".spec_bytes()) && valid_utf8(h.value) && decode_utf8(
            h.value,
        ) == "Bearer "@ + token ==> jwt::bearer(h) == Some(token),
        jwt::bearer(h) == Some(token) ==> text::eq_ci(h.name, "authorization".spec_bytes())
            && valid_utf8(h.value) && decode_utf8(h.value) == "Bearer "@ + token,
{
    let b = "Bearer "@;
    let v = decode_utf8(h.value);
    if v == b + token {
        assert(v.subrange(0, b.len() as int) =~= b);
        assert(v.skip(b.len() as int) =~= token);
    }
    if jwt::bearer(h) == Some(token) {
        assert(v.subrange(0, b.len() as int) == b);
        assert(v =~= b + v.skip(b.len() as int));
    }
}

/// The numeric claim of a payload is the number behind its quoted name, with blanks and colons
/// between.
pub proof fn law_claim_is_the_number_behind_its_name(
    before: Seq<u8>,
    key: Seq<u8>,
    n: nat,
    after: Seq<u8>,
)
    requires
        key.len() <= 30,
        n <= u64::MAX,
        after.len() > 0 ==> !(48 <= after[0] <= 57),
        ({
            let name = seq![34u8] + key + seq![34u8];
            let p = before + name + seq![58u8] + text::decimal_bytes(n) + after;
            forall|i: int|
                0 <= i < before.len() ==> #[trigger] p.subrange(i, i + name.len()) != name
        }),
    ensures
        jwt::claim(
            before + (seq![34u8] + key + seq![34u8]) + seq![58u8] + text::decimal_bytes(n) + after,
            key,
        ) == Some(n),
{
    let name = seq![34u8] + key + seq![34u8];
    let digits = text::decimal_bytes(n);
    let p = before + name + seq![58u8] + digits + after;
    let at = before.len() as int;
    let from = at + name.len() as int;
    assert(jwt::quoted_key(key) =~= name);
    assert(p.subrange(at, at + name.len()) =~= name);
    text_laws::law_decimal_reads_back(n, u64::MAX as nat);
    lemma_digits_not_empty(n);
    assert(p[from] == 58);
    assert(p[from + 1] == digits[0]);
    assert(48 <= digits[0] <= 57);
    reveal_with_fuel(jwt::after_separator, 2);
    assert(jwt::after_separator(p, from) == from + 1);
    assert(p.skip(from + 1) =~= digits + after);
    lemma_digits_run(p, from + 1, digits, after);
    assert(jwt::number_after(p, from) =~= digits);
    lemma_claim_from(p, name, 0, at);
}

proof fn lemma_digits_not_empty(n: nat)
    ensures
        text::decimal_bytes(n).len() > 0,
{
}

proof fn lemma_digits_run(p: Seq<u8>, from: int, digits: Seq<u8>, after: Seq<u8>)
    requires
        0 <= from,
        from + digits.len() + after.len() == p.len(),
        p.skip(from) == digits + after,
        forall|i: int| 0 <= i < digits.len() ==> 48 <= #[trigger] digits[i] <= 57,
        after.len() > 0 ==> !(48 <= after[0] <= 57),
    ensures
        jwt::after_digits(p, from) == from + digits.len(),
    decreases digits.len(),
{
    let q = p.skip(from);
    if digits.len() > 0 {
        assert(p[from] == q[0]);
        assert(q[0] == digits[0]);
        let rest = digits.drop_first();
        assert(p.skip(from + 1) =~= rest + after) by {
            assert forall|i: int| 0 <= i < rest.len() + after.len() implies p.skip(from + 1)[i] == (
            rest + after)[i] by {
                assert(p.skip(from + 1)[i] == q[i + 1]);
                assert(q[i + 1] == (digits + after)[i + 1]);
            }
        }
        assert forall|i: int| 0 <= i < rest.len() implies 48 <= #[trigger] rest[i] <= 57 by {
            assert(rest[i] == digits[i + 1]);
        }
        lemma_digits_run(p, from + 1, rest, after);
    } else if after.len() > 0 {
        assert(p[from] == q[0]);
        assert(q[0] == after[0]);
    }
}

proof fn lemma_claim_from(p: Seq<u8>, name: Seq<u8>, i: int, at: int)
    requires
        0 <= i <= at,
        name.len() > 0,
        at + name.len() <= p.len(),
        p.subrange(at, at + name.len()) == name,
        forall|j: int| i <= j < at ==> #[trigger] p.subrange(j, j + name.len()) != name,
        jwt::number_after(p, at + name.len()).len() > 0,
    ensures
        jwt::claim_from(p, name, i) == text::parse_digits(
            jwt::number_after(p, at + name.len()),
            10,
            u64::MAX as nat,
        ),
    decreases at - i,
{
    if i < at {
        assert(p.subrange(i, i + name.len()) != name);
        lemma_claim_from(p, name, i + 1, at);
    }
}

/// A verdict is taken from memory only for the token it was reached on, under a secret of its mark,
/// and until its time is over.
pub proof fn law_memory_is_for_one_token(
    cache: Map<Seq<char>, VerdictModel>,
    token: Seq<char>,
    secret: Seq<char>,
    now: u64,
)
    ensures
        jwt::vouched(cache, token, jwt::secret_mark(secret), now) <==> cache.contains_key(token)
            && cache[token].secret_hash == jwt::sha256(encode_utf8(secret)).take(16)
            && now < cache[token].expires_at,
{
}

// ---------------------------------------------------------------------------
// Rates
// ---------------------------------------------------------------------------

/// A client may send as many requests in a second as its route allows: what it sent in that second
/// counts, what it sent in another does not.
pub proof fn law_only_this_second_counts(
    m: Map<Seq<char>, Count>,
    key: Seq<char>,
    limit: u32,
    now: u64,
)
    requires
        m.len() <= 100_000,
    ensures
        !m.contains_key(key) || m[key].second != now ==> rate::within_limit(m, key, limit, now) == (
        limit >= 1),
        m.contains_key(key) && m[key].second == now ==> rate::within_limit(m, key, limit, now) == (
        m[key].requests < limit),
{
}

// ---------------------------------------------------------------------------
// Judgement
// ---------------------------------------------------------------------------

/// A request is dropped for load exactly where its route has a threshold, drops are in use, and the
/// load is above the threshold or more requests are active than may be.
pub proof fn law_when_a_request_is_dropped(
    router: FastRouter,
    at: Routed,
    cpu_load: u8,
    active: usize,
)
    ensures
        at.route is None || at.domain is None ==> !request::qos_drops(router, at, cpu_load, active),
        at.route is Some && at.domain is Some ==> {
            let r = router.domains@[at.domain->0 as int].routes@[at.route->0 as int];
            request::qos_drops(router, at, cpu_load, active) <==> router.cfg.has_qos
                && r.drop_threshold is Some && (cpu_load > r.drop_threshold->0 || active
                > router.cfg.max_active_requests)
        },
{
}

/// What a request that is forwarded was found to be: the conditions on its form hold, every rule is
/// kept or has backends for those that break it, it is not dropped, and a length that it declares is
/// within the limit. Where any of that fails, the first that does decides.
pub proof fn law_judgement(
    router: FastRouter,
    a: AdmittedModel,
    hs: Seq<Field>,
    body: Option<Seq<u8>>,
    cpu_load: u8,
    active: usize,
    d: usize,
    r: usize,
)
    requires
        a.at.domain == Some(d),
        a.at.route == Some(r),
    ensures
        ({
            let route = router.domains@[d as int].routes@[r as int];
            let form = route.route.post is None || header_util::conditions_hold(
                route.route.post->0@,
                fast_proxy::body_fields(body),
            );
            let broken = fast_proxy::first_failed(route.validate@, 0, hs, a.target, body);
            let answered = broken is Some && route.validate@[broken->0].on_fail.balancer is None;
            let dropped = request::qos_drops(router, a.at, cpu_load, active);
            let large = !a.is_chunked && body is None && a.clen > route.max_body_size;
            let j = request::judgement(router, a, hs, body, cpu_load, active);
            &&& !form ==> j == Judgement::Refused(Refusal::PostRejected)
            &&& form && answered ==> j == Judgement::RuleAnswer(broken->0 as usize)
            &&& form && !answered && dropped ==> j == Judgement::Refused(Refusal::QosDrop)
            &&& form && !answered && !dropped && large ==> j == Judgement::Refused(
                Refusal::TooLarge,
            )
            &&& form && !answered && !dropped && !large && broken is None ==> j
                == Judgement::Forward(request::ServedBy::Routed(a.at.balancer))
            &&& form && !answered && !dropped && !large && broken is Some ==> j
                == Judgement::Forward(request::ServedBy::Rule(broken->0 as usize))
        }),
{
}

/// What a request is admitted as: its own method, host and target decide its route, and its framing
/// is what its fields say.
pub proof fn law_admitted_as_it_came(
    router: FastRouter,
    head: http::RequestFields,
    m: Seq<char>,
    p: Seq<char>,
    at: Routed,
    ip: IpAddr,
    local: Seq<char>,
    now_secs: u64,
    now: u64,
    traces: request::Traces,
)
    requires
        head.method == Some(m),
        head.path == Some(p),
        request::admission(router, head, ip, local, now_secs, now, traces).0 is Ok,
    ensures
        ({
            let a = request::admission(router, head, ip, local, now_secs, now, traces).0->Ok_0;
            &&& fast_proxy::routed(router, m, a.host, a.target, head.headers, local) == Some(a.at)
            &&& a.host == http::host_of(head.headers)
            &&& a.target == request::target_of(router.cfg.normalize_path, p)
            &&& a.is_chunked == http::chunked_request(head.headers)
            &&& a.is_chunked ==> a.clen == 0
            &&& !a.is_chunked && http::lengths(head.headers).len() == 0 ==> a.clen == 0
            &&& !a.is_chunked && http::lengths(head.headers).len() > 0 ==> a.clen
                == http::lengths(head.headers).last()
            &&& a.keep_alive == http::keeps_alive(head.headers, head.version)
        }),
{
}

/// The protocol is switched only for a client that has an `Upgrade` field and says `upgrade` in its
/// `Connection`.
pub proof fn law_who_asks_for_an_upgrade(hs: Seq<Field>)
    ensures
        request::upgrade_wanted(hs) <==> {
            &&& exists|i: int|
                0 <= i < hs.len() && text::eq_ci((#[trigger] hs[i]).name, "upgrade".spec_bytes())
            &&& exists|i: int|
                0 <= i < hs.len() && text::eq_ci(
                    (#[trigger] hs[i]).name,
                    "connection".spec_bytes(),
                ) && http::mentions(hs[i].value, "upgrade")
        },
{
    if http::has_field(hs, "upgrade") {
        let i = choose|i: int| 0 <= i < hs.len() && http::named(#[trigger] hs[i], "upgrade");
        assert(text::eq_ci(hs[i].name, "upgrade".spec_bytes()));
    }
    if exists|i: int|
        0 <= i < hs.len() && text::eq_ci((#[trigger] hs[i]).name, "upgrade".spec_bytes()) {
        let i = choose|i: int|
            0 <= i < hs.len() && text::eq_ci((#[trigger] hs[i]).name, "upgrade".spec_bytes());
        assert(http::named(hs[i], "upgrade"));
    }
    if exists|i: int| 0 <= i < hs.len() && request::asks_upgrade(#[trigger] hs[i]) {
        let i = choose|i: int| 0 <= i < hs.len() && request::asks_upgrade(#[trigger] hs[i]);
        assert(text::eq_ci(hs[i].name, "connection".spec_bytes()));
    }
    if exists|i: int|
        0 <= i < hs.len() && text::eq_ci((#[trigger] hs[i]).name, "connection".spec_bytes())
            && http::mentions(hs[i].value, "upgrade") {
        let i = choose|i: int|
            0 <= i < hs.len() && text::eq_ci((#[trigger] hs[i]).name, "connection".spec_bytes())
                && http::mentions(hs[i].value, "upgrade");
        assert(request::asks_upgrade(hs[i]));
    }
}

// ---------------------------------------------------------------------------
// Refusals
// ---------------------------------------------------------------------------

/// The status that each refusal is told with.
pub open spec fn told_status(r: Refusal) -> u16 {
    match r {
        Refusal::Busy => 503,
        Refusal::HeadTooLarge => 431,
        Refusal::BadRequest => 400,
        Refusal::NoRoute => 502,
        Refusal::Forbidden => 403,
        Refusal::Unauthorized => 401,
        Refusal::RateLimited => 429,
        Refusal::TooLarge => 413,
        Refusal::PostRejected => 403,
        Refusal::QosDrop => 503,
        Refusal::BadGateway => 502,
    }
}

/// A refused client is told the status of its refusal, in three digits behind `HTTP/1.1 `; and where
/// the refusal is counted by status, it is counted by that one.
pub proof fn law_refusal_tells_its_status(r: Refusal)
    ensures
        ({
            let t = request::refusal_text(r)@;
            &&& t.len() > 12
            &&& t.take(9) == "HTTP/1.1 "@
            &&& forall|i: int| 9 <= i < 12 ==> '0' <= #[trigger] t[i] <= '9'
            &&& (t[9] as u32 - 48) * 100 + (t[10] as u32 - 48) * 10 + (t[11] as u32 - 48)
                == told_status(r)
        }),
        request::refusal_status(r) matches Some(c) ==> c == told_status(r),
{
    reveal_strlit("HTTP/1.1 ");
    reveal_strlit(
        "HTTP/1.1 503 Service Unavailable\r\nContent-Length: 19\r\nConnection: close\r\n\r\nService Unavailable",
    );
    reveal_strlit("HTTP/1.1 431 Request Header Fields Too Large\r\nConnection: close\r\n\r\n");
    reveal_strlit("HTTP/1.1 400 Bad Request\r\nConnection: close\r\n\r\n");
    reveal_strlit("HTTP/1.1 502 Bad Gateway\r\nConnection: close\r\n\r\n");
    reveal_strlit("HTTP/1.1 403 Forbidden\r\nConnection: close\r\n\r\n");
    reveal_strlit("HTTP/1.1 401 Unauthorized\r\nConnection: close\r\n\r\n");
    reveal_strlit("HTTP/1.1 429 Too Many Requests\r\nConnection: close\r\n\r\n");
    reveal_strlit("HTTP/1.1 413 Payload Too Large\r\nConnection: close\r\n\r\n");
    reveal_strlit(
        "HTTP/1.1 503 Service Unavailable\r\nContent-Length: 30\r\nConnection: close\r\n\r\nService Unavailable (QoS Drop)",
    );
    let t = request::refusal_text(r)@;
    assert(t.take(9) =~= "HTTP/1.1 "@);
}

proof fn lemma_separators(p: Seq<u8>, j: int, k: int)
    requires
        0 <= j <= k <= p.len(),
        forall|i: int| j <= i < k ==> #[trigger] p[i] == ' ' as u8 || p[i] == ':' as u8,
        k < p.len() ==> p[k] != ' ' as u8 && p[k] != ':' as u8,
    ensures
        jwt::after_separator(p, j) == k,
    decreases k - j,
{
    if j < k {
        lemma_separators(p, j + 1, k);
    }
}

proof fn lemma_digits(p: Seq<u8>, j: int, k: int)
    requires
        0 <= j <= k <= p.len(),
        forall|i: int| j <= i < k ==> '0' as u8 <= #[trigger] p[i] <= '9' as u8,
        k < p.len() ==> !('0' as u8 <= p[k] <= '9' as u8),
    ensures
        jwt::after_digits(p, j) == k,
    decreases k - j,
{
    if j < k {
        lemma_digits(p, j + 1, k);
    }
}

/// The number of a claim may stand behind any blanks and colons, and ends before the first byte that
/// is no digit.
pub proof fn law_number_of_a_claim(a: Seq<u8>, between: Seq<u8>, digits: Seq<u8>, rest: Seq<u8>)
    requires
        forall|i: int|
            0 <= i < between.len() ==> #[trigger] between[i] == ' ' as u8 || between[i] == ':' as u8,
        forall|i: int| 0 <= i < digits.len() ==> '0' as u8 <= #[trigger] digits[i] <= '9' as u8,
        digits.len() > 0,
        rest.len() > 0 ==> !('0' as u8 <= rest[0] <= '9' as u8),
    ensures
        jwt::number_after(a + between + digits + rest, a.len() as int) == digits,
{
    let p = a + between + digits + rest;
    let j = a.len() as int;
    let k = j + between.len();
    let e = k + digits.len();
    assert forall|i: int| j <= i < k implies #[trigger] p[i] == ' ' as u8 || p[i] == ':' as u8 by {
        assert(p[i] == between[i - j]);
    }
    assert forall|i: int| k <= i < e implies '0' as u8 <= #[trigger] p[i] <= '9' as u8 by {
        assert(p[i] == digits[i - k]);
    }
    assert(p[k] == digits[0]);
    if rest.len() > 0 {
        assert(p[e] == rest[0]);
    }
    lemma_separators(p, j, k);
    lemma_digits(p, k, e);
    assert(p.subrange(k, e) =~= digits);
}

/// A verdict is kept for five minutes, or for as long as its token is still good, if that is less.
pub proof fn law_how_long_a_verdict_is_kept(payload: Option<Seq<u8>>, now_secs: u64, e: nat)
    requires
        e > now_secs,
    ensures
        jwt::claim_of(payload, "exp") is None ==> jwt::lifetime(payload, now_secs) == 300,
        jwt::claim_of(payload, "exp") == Some(e) && e - now_secs >= 300 ==> jwt::lifetime(
            payload,
            now_secs,
        ) == 300,
        jwt::claim_of(payload, "exp") == Some(e) && e - now_secs < 300 ==> jwt::lifetime(
            payload,
            now_secs,
        ) == e - now_secs,
{
}

/// A look at a token forgets its verdict once that has run out, and changes nothing else. A verdict
/// that is remembered is there; the others stay, unless there are too many, and then they all go.
pub proof fn law_what_is_remembered(
    cache: Map<Seq<char>, VerdictModel>,
    token: Seq<char>,
    other: Seq<char>,
    v: VerdictModel,
    now: u64,
)
    requires
        other != token,
    ensures
        cache.contains_key(token) && cache[token].expires_at <= now ==> !jwt::looked_up(
            cache,
            token,
            now,
        ).contains_key(token),
        !cache.contains_key(token) || cache[token].expires_at > now ==> jwt::looked_up(
            cache,
            token,
            now,
        ) == cache,
        cache.contains_key(other) ==> jwt::looked_up(cache, token, now).contains_key(other)
            && jwt::looked_up(cache, token, now)[other] == cache[other],
        jwt::remembered(cache, token, v).contains_key(token),
        jwt::remembered(cache, token, v)[token] == v,
        cache.len() <= 10_000 && cache.contains_key(other) ==> jwt::remembered(
            cache,
            token,
            v,
        ).contains_key(other) && jwt::remembered(cache, token, v)[other] == cache[other],
        cache.len() > 10_000 ==> !jwt::remembered(cache, token, v).contains_key(other),
{
}

/// A request is counted for its own key: the counts of the others stay, unless there are too many,
/// and then all of them start over.
pub proof fn law_counts_of_the_others(
    m: Map<Seq<char>, Count>,
    key: Seq<char>,
    other: Seq<char>,
    now: u64,
)
    requires
        other != key,
    ensures
        m.len() <= 100_000 && m.contains_key(other) ==> rate::after_request(m, key, now).contains_key(
            other,
        ) && rate::after_request(m, key, now)[other] == m[other],
        m.len() > 100_000 ==> !rate::after_request(m, key, now).contains_key(other),
        m.len() > 100_000 ==> rate::after_request(m, key, now)[key] == (Count {
            second: now,
            requests: 1,
        }),
        rate::after_request(m, key, now).contains_key(key),
        rate::after_request(m, key, now)[key].second == now,
{
}

} // verus!
