//! What every loaded configuration guarantees.

use vstd::prelude::*;

use crate::config;
use crate::config::{
    Balance, Check, ConfigModel, DomainModel, HostEnv, HspecModel, InheritedModel, ListModel,
    RouteModel, YamlBackend, YamlConfig, YamlDomain, YamlRoute, YamlValidateRule,
};

verus! {

// ---------------------------------------------------------------------------
// Where a route or domain of the file ends up
// ---------------------------------------------------------------------------

/// Number of backends in front of those of route `k`.
pub proof fn lemma_route_at(yrs: Seq<YamlRoute>, d: InheritedModel, start: int, id: int, k: int)
    requires
        0 <= k < yrs.len(),
    ensures
        config::routes_from(yrs, d, start, id).len() == yrs.len(),
        config::routes_from(yrs, d, start, id)[k] == config::route_model(
            yrs[k],
            d,
            start + config::routes_count(yrs.take(k)),
            id + k,
        ),
    decreases yrs.len(),
{
    lemma_routes_len(yrs.drop_last(), d, start, id);
    if k < yrs.len() - 1 {
        lemma_route_at(yrs.drop_last(), d, start, id, k);
        assert(yrs.drop_last().take(k) =~= yrs.take(k));
    } else {
        assert(yrs.take(k) =~= yrs.drop_last());
    }
}

proof fn lemma_routes_len(yrs: Seq<YamlRoute>, d: InheritedModel, start: int, id: int)
    ensures
        config::routes_from(yrs, d, start, id).len() == yrs.len(),
    decreases yrs.len(),
{
    if yrs.len() > 0 {
        lemma_routes_len(yrs.drop_last(), d, start, id);
    }
}

/// A domain of the file stands at its place in the configuration.
pub proof fn lemma_domain_at(
    yds: Seq<YamlDomain>,
    g: InheritedModel,
    listen: Seq<Seq<char>>,
    tls_listen: Seq<Seq<char>>,
    start: int,
    j: int,
)
    requires
        0 <= j < yds.len(),
    ensures
        config::domains_from(yds, g, listen, tls_listen, start).len() == yds.len(),
        config::domains_from(yds, g, listen, tls_listen, start)[j] == config::domain_model(
            yds[j],
            g,
            listen,
            tls_listen,
            start + config::domains_count(yds.take(j)),
            config::routes_total(yds.take(j)) as int,
        ),
    decreases yds.len(),
{
    lemma_domains_len(yds.drop_last(), g, listen, tls_listen, start);
    if j < yds.len() - 1 {
        lemma_domain_at(yds.drop_last(), g, listen, tls_listen, start, j);
        assert(yds.drop_last().take(j) =~= yds.take(j));
    } else {
        assert(yds.take(j) =~= yds.drop_last());
    }
}

proof fn lemma_domains_len(
    yds: Seq<YamlDomain>,
    g: InheritedModel,
    listen: Seq<Seq<char>>,
    tls_listen: Seq<Seq<char>>,
    start: int,
)
    ensures
        config::domains_from(yds, g, listen, tls_listen, start).len() == yds.len(),
    decreases yds.len(),
{
    if yds.len() > 0 {
        lemma_domains_len(yds.drop_last(), g, listen, tls_listen, start);
    }
}

// ---------------------------------------------------------------------------
// Limits
// ---------------------------------------------------------------------------

/// Every configuration has between 1 and 256 workers, no budget of zero, and, where the file does
/// not say how long a worker may take to finish, at least half a minute and more time than any
/// response may take (unless that is beyond all range).
pub proof fn law_config_limits(yc: YamlConfig, host: HostEnv, start: int, m: u64)
    ensures
        ({
            let c = config::config_model(yc, host, start, m);
            &&& 1 <= c.workers <= 256
            &&& c.worker_lifetime matches Some(n) ==> n > 0
            &&& c.worker_max_requests matches Some(n) ==> n > 0
            &&& yc.worker_drain is None ==> c.worker_drain >= 30
            &&& yc.worker_drain is None ==> {
                ||| c.worker_drain >= config::config_longest(yc, m) + 5
                ||| c.worker_drain == u64::MAX
            }
        }),
{
}

/// A drop threshold is a percentage.
pub proof fn law_drop_threshold_is_a_percentage(
    yr: YamlRoute,
    d: InheritedModel,
    start: int,
    id: int,
)
    ensures
        config::route_model(yr, d, start, id).drop_threshold matches Some(p) ==> p <= 100,
{
}

/// The configuration looks at the load exactly where some route has a drop threshold.
pub proof fn law_qos_where_a_threshold_is(yc: YamlConfig, host: HostEnv, start: int, m: u64)
    ensures
        config::config_model(yc, host, start, m).has_qos <==> exists|j: int, k: int|
            0 <= j < config::domains_of(yc).len() && 0 <= k < config::domains_of(yc)[j].routes@.len()
                && (#[trigger] config::domains_of(yc)[j].routes@[k]).drop_threshold is Some,
{
    let yds = config::domains_of(yc);
    if config::domains_qos(yds) {
        let j = choose|j: int| 0 <= j < yds.len() && config::routes_qos((#[trigger] yds[j]).routes@);
        let k = choose|k: int|
            0 <= k < yds[j].routes@.len() && (#[trigger] yds[j].routes@[k]).drop_threshold is Some;
        assert(yds[j].routes@[k].drop_threshold is Some);
    }
    assert forall|j: int, k: int|
        0 <= j < yds.len() && 0 <= k < yds[j].routes@.len()
            && (#[trigger] yds[j].routes@[k]).drop_threshold is Some implies config::domains_qos(yds) by {
        assert(config::routes_qos(yds[j].routes@));
    }
}

// ---------------------------------------------------------------------------
// The cascade
// ---------------------------------------------------------------------------

/// What a route says wins over what its domain says, and that over what the file says as a whole.
pub proof fn law_settings_cascade(
    yc: YamlConfig,
    host: HostEnv,
    start: int,
    m: u64,
    j: int,
    k: int,
)
    requires
        0 <= j < config::domains_of(yc).len(),
        0 <= k < config::domains_of(yc)[j].routes@.len(),
    ensures
        ({
            let c = config::config_model(yc, host, start, m);
            let yd = config::domains_of(yc)[j];
            let yr = yd.routes@[k];
            let d = c.domains[j];
            let r = d.routes[k];
            &&& c.domains.len() == config::domains_of(yc).len()
            &&& d.routes.len() == yd.routes@.len()
            &&& r.client_timeout == config::or(
                yr.client_timeout,
                config::or(yd.client_timeout, config::or(yc.client_timeout, 60)),
            )
            &&& r.max_body_size == config::or(
                yr.max_body_size,
                config::or(yd.max_body_size, config::or(yc.max_body_size, 2097152)),
            )
            &&& r.backend_pool_size == config::or(
                yr.backend_pool_size,
                config::or(yd.backend_pool_size, config::or(yc.backend_pool_size, 16)),
            )
            &&& r.allow_ip == config::nets_or(
                yr.allow_ip,
                config::nets_or(yd.allow_ip, config::nets_or(yc.allow_ip, None)),
            )
            &&& r.deny_ip == config::nets_or(
                yr.deny_ip,
                config::nets_or(yd.deny_ip, config::nets_or(yc.deny_ip, None)),
            )
            &&& r.jwt_secret == config::text_or(
                yr.jwt_secret,
                config::text_or(yd.jwt_secret, config::opt_text(yc.jwt_secret)),
            )
            &&& r.cache == config::cache_or(
                yr.cache,
                config::cache_or(yd.cache, config::cache_or(yc.cache, None)),
            )
            &&& d.client_timeout == config::or(yd.client_timeout, config::or(yc.client_timeout, 60))
            &&& d.max_body_size == config::or(yd.max_body_size, config::or(yc.max_body_size, 2097152))
            &&& d.allow_ip == config::nets_or(yd.allow_ip, config::nets_or(yc.allow_ip, None))
            &&& d.deny_ip == config::nets_or(yd.deny_ip, config::nets_or(yc.deny_ip, None))
            &&& d.jwt_secret == config::text_or(yd.jwt_secret, config::opt_text(yc.jwt_secret))
        }),
{
    let c = config::config_model(yc, host, start, m);
    let yds = config::domains_of(yc);
    let g = config::global_level(yc);
    let first = start + config::given(yc.default).len();
    lemma_domain_at(yds, g, c.listen, c.tls_listen, first, j);
    let yd = yds[j];
    lemma_route_at(
        yd.routes@,
        config::domain_level(yd, g),
        first + config::domains_count(yds.take(j)) + config::given(yd.default).len(),
        config::routes_total(yds.take(j)) as int,
        k,
    );
}

// ---------------------------------------------------------------------------
// Numbers
// ---------------------------------------------------------------------------

proof fn lemma_routes_total_grows(yds: Seq<YamlDomain>, k: int)
    requires
        0 <= k <= yds.len(),
    ensures
        config::routes_total(yds.take(k)) <= config::routes_total(yds),
    decreases yds.len() - k,
{
    if k < yds.len() {
        lemma_routes_total_grows(yds, k + 1);
        assert(yds.take(k + 1).drop_last() =~= yds.take(k));
    } else {
        assert(yds.take(k) =~= yds);
    }
}

/// Routes are numbered through from 0 on, so no two routes have the same number.
pub proof fn law_route_numbers(
    yc: YamlConfig,
    host: HostEnv,
    start: int,
    m: u64,
    j: int,
    k: int,
)
    requires
        0 <= j < config::domains_of(yc).len(),
        0 <= k < config::domains_of(yc)[j].routes@.len(),
        config::routes_total(config::domains_of(yc)) <= usize::MAX,
    ensures
        config::config_model(yc, host, start, m).domains[j].routes[k].id == config::routes_total(
            config::domains_of(yc).take(j),
        ) + k,
        config::routes_total(config::domains_of(yc).take(j)) + k < config::routes_total(
            config::domains_of(yc).take(j + 1),
        ),
{
    let c = config::config_model(yc, host, start, m);
    let yds = config::domains_of(yc);
    let g = config::global_level(yc);
    let first = start + config::given(yc.default).len();
    lemma_domain_at(yds, g, c.listen, c.tls_listen, first, j);
    let yd = yds[j];
    lemma_route_at(
        yd.routes@,
        config::domain_level(yd, g),
        first + config::domains_count(yds.take(j)) + config::given(yd.default).len(),
        config::routes_total(yds.take(j)) as int,
        k,
    );
    assert(yds.take(j + 1).drop_last() =~= yds.take(j));
    lemma_routes_total_grows(yds, j + 1);
}

/// Every backend of a list has its state at a place between `lo` and `hi`.
pub open spec fn list_slots(l: Option<ListModel>, lo: int, hi: int) -> bool {
    l matches Some(m) ==> forall|i: int|
        0 <= i < m.backends.len() ==> lo <= (#[trigger] m.backends[i]).slot < hi
}

/// The same for all backends of a route.
pub open spec fn route_slots(r: RouteModel, lo: int, hi: int) -> bool {
    &&& list_slots(r.bl, lo, hi)
    &&& forall|i: int|
        0 <= i < r.validate.len() ==> list_slots((#[trigger] r.validate[i]).backends, lo, hi)
}

/// The same for all backends of a domain.
pub open spec fn domain_slots(d: DomainModel, lo: int, hi: int) -> bool {
    &&& list_slots(d.def, lo, hi)
    &&& forall|i: int| 0 <= i < d.routes.len() ==> route_slots(#[trigger] d.routes[i], lo, hi)
}

/// The same for all backends of a configuration.
pub open spec fn config_slots(c: ConfigModel, lo: int, hi: int) -> bool {
    &&& list_slots(c.def, lo, hi)
    &&& forall|i: int| 0 <= i < c.domains.len() ==> domain_slots(#[trigger] c.domains[i], lo, hi)
}

proof fn lemma_rules_slots(
    vs: Seq<YamlValidateRule>,
    balance: Balance,
    connect: u64,
    response: u64,
    start: int,
)
    ensures
        forall|i: int|
            0 <= i < config::rules_from(vs, balance, connect, response, start).len() ==> list_slots(
                (#[trigger] config::rules_from(vs, balance, connect, response, start)[i]).backends,
                start,
                start + config::rules_count(vs),
            ),
    decreases vs.len(),
{
    if vs.len() > 0 {
        lemma_rules_slots(vs.drop_last(), balance, connect, response, start);
        let head = config::rules_from(vs.drop_last(), balance, connect, response, start);
        let all = config::rules_from(vs, balance, connect, response, start);
        assert forall|i: int| 0 <= i < all.len() implies list_slots(
            (#[trigger] all[i]).backends,
            start,
            start + config::rules_count(vs),
        ) by {
            if i < head.len() {
                assert(all[i] == head[i]);
            }
        }
    }
}

proof fn lemma_route_slots(yr: YamlRoute, d: InheritedModel, start: int, id: int)
    ensures
        route_slots(config::route_model(yr, d, start, id), start, start + config::route_count(yr)),
{
    let balance = config::balance_or(yr.balance, d.balance);
    lemma_rules_slots(
        config::rules_of(yr),
        balance,
        config::or(yr.connect, d.connect),
        config::or(yr.response, d.response),
        start + config::given(yr.backends).len(),
    );
    let r = config::route_model(yr, d, start, id);
    assert forall|i: int| 0 <= i < r.validate.len() implies list_slots(
        (#[trigger] r.validate[i]).backends,
        start,
        start + config::route_count(yr),
    ) by {
        assert(list_slots(
            r.validate[i].backends,
            start + config::given(yr.backends).len(),
            start + config::route_count(yr),
        ));
    }
}

proof fn lemma_routes_slots(yrs: Seq<YamlRoute>, d: InheritedModel, start: int, id: int)
    ensures
        forall|i: int|
            0 <= i < config::routes_from(yrs, d, start, id).len() ==> route_slots(
                #[trigger] config::routes_from(yrs, d, start, id)[i],
                start,
                start + config::routes_count(yrs),
            ),
    decreases yrs.len(),
{
    if yrs.len() > 0 {
        let before = yrs.drop_last();
        lemma_routes_slots(before, d, start, id);
        lemma_route_slots(yrs.last(), d, start + config::routes_count(before), id + yrs.len() - 1);
        let head = config::routes_from(before, d, start, id);
        let all = config::routes_from(yrs, d, start, id);
        assert forall|i: int| 0 <= i < all.len() implies route_slots(
            #[trigger] all[i],
            start,
            start + config::routes_count(yrs),
        ) by {
            if i < head.len() {
                assert(all[i] == head[i]);
                lemma_widen_route(
                    all[i],
                    start,
                    start + config::routes_count(before),
                    start,
                    start + config::routes_count(yrs),
                );
            } else {
                lemma_widen_route(
                    all[i],
                    start + config::routes_count(before),
                    start + config::routes_count(yrs),
                    start,
                    start + config::routes_count(yrs),
                );
            }
        }
    }
}

proof fn lemma_widen_route(r: RouteModel, lo: int, hi: int, lo2: int, hi2: int)
    requires
        route_slots(r, lo, hi),
        lo2 <= lo,
        hi <= hi2,
    ensures
        route_slots(r, lo2, hi2),
{
    assert forall|i: int| 0 <= i < r.validate.len() implies list_slots(
        (#[trigger] r.validate[i]).backends,
        lo2,
        hi2,
    ) by {
        assert(list_slots(r.validate[i].backends, lo, hi));
    }
}

proof fn lemma_domain_slots(
    yd: YamlDomain,
    g: InheritedModel,
    listen: Seq<Seq<char>>,
    tls_listen: Seq<Seq<char>>,
    start: int,
    id: int,
    lo: int,
    hi: int,
)
    requires
        lo <= start,
        start + config::domain_count(yd) <= hi,
    ensures
        domain_slots(config::domain_model(yd, g, listen, tls_listen, start, id), lo, hi),
{
    let d = config::domain_level(yd, g);
    let first = start + config::given(yd.default).len();
    lemma_routes_slots(yd.routes@, d, first, id);
    let m = config::domain_model(yd, g, listen, tls_listen, start, id);
    assert forall|i: int| 0 <= i < m.routes.len() implies route_slots(
        #[trigger] m.routes[i],
        lo,
        hi,
    ) by {
        lemma_widen_route(m.routes[i], first, first + config::routes_count(yd.routes@), lo, hi);
    }
}

proof fn lemma_domains_slots(
    yds: Seq<YamlDomain>,
    g: InheritedModel,
    listen: Seq<Seq<char>>,
    tls_listen: Seq<Seq<char>>,
    start: int,
    lo: int,
    hi: int,
)
    requires
        lo <= start,
        start + config::domains_count(yds) <= hi,
    ensures
        forall|i: int|
            0 <= i < config::domains_from(yds, g, listen, tls_listen, start).len() ==> domain_slots(
                #[trigger] config::domains_from(yds, g, listen, tls_listen, start)[i],
                lo,
                hi,
            ),
    decreases yds.len(),
{
    if yds.len() > 0 {
        let before = yds.drop_last();
        lemma_domains_slots(before, g, listen, tls_listen, start, lo, hi);
        lemma_domain_slots(
            yds.last(),
            g,
            listen,
            tls_listen,
            start + config::domains_count(before),
            config::routes_total(before) as int,
            lo,
            hi,
        );
        let head = config::domains_from(before, g, listen, tls_listen, start);
        let all = config::domains_from(yds, g, listen, tls_listen, start);
        assert forall|i: int| 0 <= i < all.len() implies domain_slots(
            #[trigger] all[i],
            lo,
            hi,
        ) by {
            if i < head.len() {
                assert(all[i] == head[i]);
            }
        }
    }
}

/// Every backend of a configuration has its state among the places that the file was given, from
/// `start` on.
pub proof fn law_backend_places(yc: YamlConfig, host: HostEnv, start: int, m: u64)
    ensures
        config_slots(
            config::config_model(yc, host, start, m),
            start,
            start + config::config_count(yc),
        ),
{
    let c = config::config_model(yc, host, start, m);
    lemma_domains_slots(
        config::domains_of(yc),
        config::global_level(yc),
        c.listen,
        c.tls_listen,
        start + config::given(yc.default).len(),
        start,
        start + config::config_count(yc),
    );
}

/// Checks whose backends have increasing places between `lo` and `hi`.
pub open spec fn increasing(cs: Seq<Check>, lo: int, hi: int) -> bool {
    &&& forall|i: int| 0 <= i < cs.len() ==> lo <= (#[trigger] cs[i]).0.slot < hi
    &&& forall|i: int, j: int|
        0 <= i < j < cs.len() ==> (#[trigger] cs[i]).0.slot < (#[trigger] cs[j]).0.slot
}

proof fn lemma_increasing_join(a: Seq<Check>, b: Seq<Check>, lo: int, mid: int, mid2: int, hi: int)
    requires
        increasing(a, lo, mid),
        increasing(b, mid2, hi),
        lo <= mid <= mid2 <= hi,
    ensures
        increasing(a + b, lo, hi),
{
    let c = a + b;
    assert forall|i: int| 0 <= i < c.len() implies lo <= (#[trigger] c[i]).0.slot < hi by {
        if i < a.len() {
            assert(c[i] == a[i]);
        } else {
            assert(c[i] == b[i - a.len()]);
        }
    }
    assert forall|i: int, j: int| 0 <= i < j < c.len() implies (#[trigger] c[i]).0.slot < (
    #[trigger] c[j]).0.slot by {
        if i < a.len() {
            assert(c[i] == a[i]);
        } else {
            assert(c[i] == b[i - a.len()]);
        }
        if j < a.len() {
            assert(c[j] == a[j]);
        } else {
            assert(c[j] == b[j - a.len()]);
        }
    }
}

proof fn lemma_list_increasing(
    ybs: Seq<YamlBackend>,
    balance: Balance,
    connect: u64,
    response: u64,
    start: int,
    h: Option<HspecModel>,
)
    ensures
        increasing(
            config::list_checks(config::list_from(ybs, balance, connect, response, start), h),
            start,
            start + ybs.len(),
        ),
{
}

proof fn lemma_routes_increasing(
    yrs: Seq<YamlRoute>,
    d: InheritedModel,
    start: int,
    id: int,
    h: Option<HspecModel>,
)
    ensures
        increasing(
            config::routes_checks(config::routes_from(yrs, d, start, id), h),
            start,
            start + config::routes_count(yrs),
        ),
    decreases yrs.len(),
{
    if yrs.len() > 0 {
        let before = yrs.drop_last();
        let yr = yrs.last();
        lemma_routes_increasing(before, d, start, id, h);
        let mid = start + config::routes_count(before);
        lemma_list_increasing(
            config::given(yr.backends),
            config::balance_or(yr.balance, d.balance),
            config::or(yr.connect, d.connect),
            config::or(yr.response, d.response),
            mid,
            h,
        );
        let head = config::routes_from(before, d, start, id);
        let all = config::routes_from(yrs, d, start, id);
        assert(all.drop_last() =~= head);
        lemma_increasing_join(
            config::routes_checks(head, h),
            config::list_checks(all.last().bl, h),
            start,
            mid,
            mid,
            mid + config::given(yr.backends).len(),
        );
    }
}

proof fn lemma_domains_increasing(
    yds: Seq<YamlDomain>,
    g: InheritedModel,
    listen: Seq<Seq<char>>,
    tls_listen: Seq<Seq<char>>,
    start: int,
)
    ensures
        increasing(
            config::domains_checks(yds, config::domains_from(yds, g, listen, tls_listen, start), g),
            start,
            start + config::domains_count(yds),
        ),
    decreases yds.len(),
{
    if yds.len() > 0 {
        let before = yds.drop_last();
        let yd = yds.last();
        lemma_domains_increasing(before, g, listen, tls_listen, start);
        let mid = start + config::domains_count(before);
        let d = config::domain_level(yd, g);
        let head = config::domains_from(before, g, listen, tls_listen, start);
        let all = config::domains_from(yds, g, listen, tls_listen, start);
        assert(all.drop_last() =~= head);
        lemma_list_increasing(config::given(yd.default), d.balance, d.connect, d.response, mid, d.health);
        let mid2 = mid + config::given(yd.default).len();
        lemma_routes_increasing(yd.routes@, d, mid2, config::routes_total(before) as int, d.health);
        lemma_increasing_join(
            config::list_checks(all.last().def, d.health),
            config::routes_checks(all.last().routes, d.health),
            mid,
            mid2,
            mid2,
            mid + config::domain_count(yd),
        );
        lemma_increasing_join(
            config::domains_checks(before, head, g),
            config::domain_checks(all.last(), d.health),
            start,
            mid,
            mid,
            start + config::domains_count(yds),
        );
    }
}

/// The backends to check are listed in the order of the file, and none of them twice.
pub proof fn law_checks_are_distinct(yc: YamlConfig, host: HostEnv, start: int, m: u64)
    ensures
        increasing(
            config::config_checks(yc, config::config_model(yc, host, start, m)),
            start,
            start + config::config_count(yc),
        ),
{
    let c = config::config_model(yc, host, start, m);
    let g = config::global_level(yc);
    let first = start + config::given(yc.default).len();
    lemma_list_increasing(config::given(yc.default), g.balance, g.connect, g.response, start, g.health);
    lemma_domains_increasing(config::domains_of(yc), g, c.listen, c.tls_listen, first);
    lemma_increasing_join(
        config::list_checks(c.def, g.health),
        config::domains_checks(config::domains_of(yc), c.domains, g),
        start,
        first,
        first,
        start + config::config_count(yc),
    );
}

} // verus!
