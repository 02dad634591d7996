//! The machine, its counters and its backends, as they are watched and told.

use vstd::prelude::*;
use vstd::string::*;
use vstd::utf8::*;

use crate::buf_pool;
use crate::cache;
use crate::config;
use crate::config::Backend;
use crate::cycles;
use crate::header_util;
use crate::health;
use crate::health::Pulse;
use crate::http;
use crate::jwt;
use crate::pipe;
use crate::platform;
use crate::platform::Policy;
use crate::rate;
use crate::recycle;
use crate::recycle::Reason;
use crate::shared;
use crate::shared::{SharedBackendState, SharedMemory, WorkerMetrics};
use crate::startup;
use crate::text;
use crate::upstream;

verus! {

/// Whether a text stands somewhere in another.
pub open spec fn shows(whole: Seq<char>, part: Seq<char>) -> bool {
    exists|k: int|
        0 <= k <= whole.len() - part.len() && #[trigger] whole.subrange(k, k + part.len()) == part
}

proof fn lemma_shows(a: Seq<char>, part: Seq<char>, b: Seq<char>)
    ensures
        shows(a + part + b, part),
{
    assert((a + part + b).subrange(a.len() as int, a.len() as int + part.len()) =~= part);
}

proof fn lemma_shows_within(a: Seq<char>, whole: Seq<char>, b: Seq<char>, part: Seq<char>)
    requires
        shows(whole, part),
    ensures
        shows(a + whole + b, part),
{
    let k = choose|k: int|
        0 <= k <= whole.len() - part.len() && #[trigger] whole.subrange(k, k + part.len()) == part;
    assert((a + whole + b).subrange(a.len() + k, a.len() + k + part.len()) =~= whole.subrange(
        k,
        k + part.len(),
    ));
}

proof fn lemma_shown_before(whole: Seq<char>, b: Seq<char>, part: Seq<char>)
    requires
        shows(whole, part),
    ensures
        shows(whole + b, part),
{
    lemma_shows_within(seq![], whole, b, part);
    assert(seq![] + whole + b =~= whole + b);
}

proof fn lemma_shown_behind(a: Seq<char>, whole: Seq<char>, part: Seq<char>)
    requires
        shows(whole, part),
    ensures
        shows(a + whole, part),
{
    lemma_shows_within(a, whole, seq![], part);
    assert(a + whole + seq![] =~= a + whole);
}

// ---------------------------------------------------------------------------
// Probes
// ---------------------------------------------------------------------------

/// One probe. A success ends a run of failures and lengthens the run of successes, and a failure the
/// other way round. Only a run of `rise` successes brings a backend up, and only one of `fall`
/// failures takes it down.
pub proof fn law_one_probe(p: Pulse, rise: i32, fall: i32)
    requires
        p.up_count < i32::MAX,
        p.down_count < i32::MAX,
    ensures
        ({
            let s = health::probed(p, true, rise, fall);
            let f = health::probed(p, false, rise, fall);
            &&& s.down_count == 0
            &&& s.up_count == p.up_count + 1
            &&& p.is_up ==> s.is_up
            &&& !p.is_up ==> (s.is_up <==> p.up_count + 1 >= rise)
            &&& f.up_count == 0
            &&& f.down_count == p.down_count + 1
            &&& !p.is_up ==> !f.is_up
            &&& p.is_up ==> (f.is_up <==> p.down_count + 1 < fall)
        }),
{
}

/// A probe asks the backend itself: at its host and its port, for the path of the check, over TLS
/// where the backend is spoken to so.
pub proof fn law_address_of_a_probe(host: Seq<char>, port: u16, path: Seq<char>)
    ensures
        health::url_of(false, host, port, path) == "http://"@ + host + ":"@ + text::decimal(
            port as nat,
        ) + path,
        health::url_of(true, host, port, path) == "https://"@ + host + ":"@ + text::decimal(
            port as nat,
        ) + path,
{
    reveal_strlit("http");
    reveal_strlit("https");
    reveal_strlit("://");
    reveal_strlit("http://");
    reveal_strlit("https://");
    assert("http"@ + "://"@ =~= "http://"@);
    assert("https"@ + "://"@ =~= "https://"@);
}

// ---------------------------------------------------------------------------
// The metrics page
// ---------------------------------------------------------------------------

/// The page is open to all where neither token nor user is set. Where one is, it is shown to who
/// sends `Bearer` and the token, or `Basic` and the encoded user, and to nobody else.
pub proof fn law_who_sees_the_metrics(
    auth: Option<Seq<char>>,
    token: Option<Seq<char>>,
    user: Option<Seq<char>>,
)
    ensures
        token is None && user is None ==> health::let_in(auth, token, user),
        token is Some || user is Some ==> (health::let_in(auth, token, user) <==> auth is Some && ((
        token is Some && auth->0 == "Bearer "@ + token->0) || (user is Some && auth->0 == "Basic "@
            + health::base64_standard(encode_utf8(user->0))))),
{
}

/// The counters of a worker that no longer fit are counted modulo the size of a counter; as long as
/// they fit, those of all workers are added up, each once.
pub proof fn law_counters_add_up(
    ws: Seq<WorkerMetrics>,
    n: int,
    f: spec_fn(WorkerMetrics) -> u64,
)
    requires
        0 <= n,
        health::sum_of(ws, n, f) + f(ws[n]) <= u64::MAX,
    ensures
        health::sum_of(ws, 0, f) == 0,
        health::sum_of(ws, n + 1, f) == health::sum_of(ws, n, f) + f(ws[n]),
{
}

proof fn lemma_status_lines(ws: Seq<WorkerMetrics>, n: int, status: int, end: int)
    requires
        100 <= status < end,
        health::status_sum(ws, n, status) > 0,
    ensures
        shows(
            health::status_lines(ws, n, end),
            "rproxy_requests_total{status=\""@ + text::decimal(status as nat) + "\"} "@ + text::decimal(
                health::status_sum(ws, n, status) as nat,
            ) + "\n"@,
        ),
    decreases end,
{
    let line = "rproxy_requests_total{status=\""@ + text::decimal(status as nat) + "\"} "@
        + text::decimal(health::status_sum(ws, n, status) as nat) + "\n"@;
    let before = health::status_lines(ws, n, end - 1);
    if status == end - 1 {
        lemma_shows(before, line, seq![]);
        assert(before + line + seq![] =~= before + line);
    } else {
        lemma_status_lines(ws, n, status, end - 1);
        let c = health::status_sum(ws, n, end - 1);
        let tail = if c > 0 {
            "rproxy_requests_total{status=\""@ + text::decimal((end - 1) as nat) + "\"} "@
                + text::decimal(c as nat) + "\n"@
        } else {
            ""@
        };
        lemma_shows_within(seq![], before, tail, line);
        assert(seq![] + before + tail =~= before + tail);
    }
}

/// Every status that was counted has its line, with the number of responses of all workers.
pub proof fn law_statuses_are_shown(ws: Seq<WorkerMetrics>, n: int, status: int)
    requires
        100 <= status < 600,
        health::status_sum(ws, n, status) > 0,
    ensures
        shows(
            health::worker_section(ws, n),
            "rproxy_requests_total{status=\""@ + text::decimal(status as nat) + "\"} "@ + text::decimal(
                health::status_sum(ws, n, status) as nat,
            ) + "\n"@,
        ),
        health::status_sum(ws, n, status) == health::sum_of(
            ws,
            n,
            |w: WorkerMetrics| w.req_status@[status],
        ),
{
    let line = "rproxy_requests_total{status=\""@ + text::decimal(status as nat) + "\"} "@
        + text::decimal(health::status_sum(ws, n, status) as nat) + "\n"@;
    lemma_status_lines(ws, n, status, 600);
    let head =
        "# HELP rproxy_requests_total Total Requests\n# TYPE rproxy_requests_total counter\n"@;
    let mid = health::status_lines(ws, n, 600);
    let page = health::worker_section(ws, n);
    lemma_shows_within(head, mid, page.skip((head + mid).len() as int), line);
    assert(head + mid + page.skip((head + mid).len() as int) =~= page);
}

/// A counter as the page shows it.
pub open spec fn told(ws: Seq<WorkerMetrics>, n: int, name: Seq<char>, f: spec_fn(WorkerMetrics) -> u64) -> Seq<char> {
    name + " "@ + text::decimal(health::sum_of(ws, n, f) as nat) + "\n"@
}

proof fn lemma_shown_after(page: Seq<char>, a: Seq<char>, part: Seq<char>)
    requires
        (a + part).is_prefix_of(page),
    ensures
        shows(page, part),
{
    let b = page.skip((a + part).len() as int);
    assert(page =~= a + part + b);
    lemma_shows(a, part, b);
}

/// Each kind of refusal, the bytes in either direction and the connections have their line, with the
/// sum over all workers of just that counter.
pub proof fn law_counters_are_shown(ws: Seq<WorkerMetrics>, n: int)
    ensures
        ({
            let page = health::worker_section(ws, n);
            &&& shows(page, told(ws, n, "rproxy_qos_dropped_total"@, |w: WorkerMetrics| w.req_qos_drop))
            &&& shows(
                page,
                told(ws, n, "rproxy_rate_limit_dropped_total"@, |w: WorkerMetrics| w.req_rate_limit_drop),
            )
            &&& shows(page, told(ws, n, "rproxy_ip_dropped_total"@, |w: WorkerMetrics| w.req_ip_drop))
            &&& shows(page, told(ws, n, "rproxy_jwt_dropped_total"@, |w: WorkerMetrics| w.req_jwt_drop))
            &&& shows(page, told(ws, n, "rproxy_rule_dropped_total"@, |w: WorkerMetrics| w.req_rule_drop))
            &&& shows(page, told(ws, n, "rproxy_bytes_total{dir=\"rx\"}"@, |w: WorkerMetrics| w.bytes_rx))
            &&& shows(page, told(ws, n, "rproxy_bytes_total{dir=\"tx\"}"@, |w: WorkerMetrics| w.bytes_tx))
            &&& shows(
                page,
                told(ws, n, "rproxy_active_connections"@, |w: WorkerMetrics| w.active_connections),
            )
        }),
{
    let page = health::worker_section(ws, n);
    let a0 = "# HELP rproxy_requests_total Total Requests\n# TYPE rproxy_requests_total counter\n"@
        + health::status_lines(ws, n, 600);
    let p1 = told(ws, n, "rproxy_qos_dropped_total"@, |w: WorkerMetrics| w.req_qos_drop);
    let p2 = told(
        ws,
        n,
        "rproxy_rate_limit_dropped_total"@,
        |w: WorkerMetrics| w.req_rate_limit_drop,
    );
    let p3 = told(ws, n, "rproxy_ip_dropped_total"@, |w: WorkerMetrics| w.req_ip_drop);
    let p4 = told(ws, n, "rproxy_jwt_dropped_total"@, |w: WorkerMetrics| w.req_jwt_drop);
    let p5 = told(ws, n, "rproxy_rule_dropped_total"@, |w: WorkerMetrics| w.req_rule_drop);
    let h6 = "# HELP rproxy_bytes_total Total Bytes\n# TYPE rproxy_bytes_total counter\n"@;
    let p7 = told(ws, n, "rproxy_bytes_total{dir=\"rx\"}"@, |w: WorkerMetrics| w.bytes_rx);
    let p8 = told(ws, n, "rproxy_bytes_total{dir=\"tx\"}"@, |w: WorkerMetrics| w.bytes_tx);
    let h9 =
        "# HELP rproxy_active_connections Total Active Connections\n# TYPE rproxy_active_connections gauge\n"@;
    let p9 = told(ws, n, "rproxy_active_connections"@, |w: WorkerMetrics| w.active_connections);
    assert(page == a0 + p1 + p2 + p3 + p4 + p5 + h6 + p7 + p8 + h9 + p9);
    lemma_shown_after(page, a0, p1);
    lemma_shown_after(page, a0 + p1, p2);
    lemma_shown_after(page, a0 + p1 + p2, p3);
    lemma_shown_after(page, a0 + p1 + p2 + p3, p4);
    lemma_shown_after(page, a0 + p1 + p2 + p3 + p4, p5);
    lemma_shown_after(page, a0 + p1 + p2 + p3 + p4 + p5 + h6, p7);
    lemma_shown_after(page, a0 + p1 + p2 + p3 + p4 + p5 + h6 + p7, p8);
    lemma_shown_after(page, a0 + p1 + p2 + p3 + p4 + p5 + h6 + p7 + p8 + h9, p9);
}

proof fn lemma_backend_lines(bs: Seq<Backend>, shm: SharedMemory, i: int)
    requires
        0 <= i < bs.len(),
    ensures
        shows(
            health::up_lines(bs, shm),
            "rproxy_backend_up{host=\""@ + bs[i].host@ + ":"@ + text::decimal(bs[i].port as nat)
                + "\"} "@ + (if bs[i].state.of(shm).up != 0 {
                "1"@
            } else {
                "0"@
            }) + "\n"@,
        ),
        shows(
            health::conn_lines(bs, shm),
            "rproxy_backend_active_connections{host=\""@ + bs[i].host@ + ":"@ + text::decimal(
                bs[i].port as nat,
            ) + "\"} "@ + text::decimal(bs[i].state.of(shm).active_connections as nat) + "\n"@,
        ),
    decreases bs.len(),
{
    let b = bs[i];
    let up = "rproxy_backend_up{host=\""@ + b.host@ + ":"@ + text::decimal(b.port as nat) + "\"} "@ + (
    if b.state.of(shm).up != 0 {
        "1"@
    } else {
        "0"@
    }) + "\n"@;
    let conns = "rproxy_backend_active_connections{host=\""@ + b.host@ + ":"@ + text::decimal(
        b.port as nat,
    ) + "\"} "@ + text::decimal(b.state.of(shm).active_connections as nat) + "\n"@;
    let init = bs.drop_last();
    let e = Seq::<char>::empty();
    let up_tail = health::backend_line(
        "rproxy_backend_up"@,
        bs.last(),
        if bs.last().state.of(shm).up != 0 {
            1
        } else {
            0
        },
    );
    let conn_tail = health::backend_line(
        "rproxy_backend_active_connections"@,
        bs.last(),
        bs.last().state.of(shm).active_connections as nat,
    );
    if i < bs.len() - 1 {
        lemma_backend_lines(init, shm, i);
        lemma_shows_within(e, health::up_lines(init, shm), up_tail, up);
        lemma_shows_within(e, health::conn_lines(init, shm), conn_tail, conns);
        assert(e + health::up_lines(init, shm) + up_tail =~= health::up_lines(bs, shm));
        assert(e + health::conn_lines(init, shm) + conn_tail =~= health::conn_lines(bs, shm));
    } else {
        lemma_words();
        assert(up_tail =~= up);
        assert(conn_tail =~= conns);
        lemma_shows(health::up_lines(init, shm), up, e);
        lemma_shows(health::conn_lines(init, shm), conns, e);
        assert(health::up_lines(init, shm) + up + e =~= health::up_lines(bs, shm));
        assert(health::conn_lines(init, shm) + conns + e =~= health::conn_lines(bs, shm));
    }
}

proof fn lemma_words()
    ensures
        "rproxy_backend_up"@ + "{host=\""@ == "rproxy_backend_up{host=\""@,
        "rproxy_backend_active_connections"@ + "{host=\""@
            == "rproxy_backend_active_connections{host=\""@,
        text::decimal(0) == "0"@,
        text::decimal(1) == "1"@,
{
    reveal_strlit("rproxy_backend_up");
    reveal_strlit("{host=\"");
    reveal_strlit("rproxy_backend_up{host=\"");
    reveal_strlit("rproxy_backend_active_connections");
    reveal_strlit("rproxy_backend_active_connections{host=\"");
    reveal_strlit("0");
    reveal_strlit("1");
    assert("rproxy_backend_up"@ + "{host=\""@ =~= "rproxy_backend_up{host=\""@);
    assert("rproxy_backend_active_connections"@ + "{host=\""@
        =~= "rproxy_backend_active_connections{host=\""@);
    assert(text::decimal(0) =~= "0"@);
    assert(text::decimal(1) =~= "1"@);
}

/// The page tells the load of the machine, and of every backend whether it is up and how many
/// connections it has.
pub proof fn law_backends_are_shown(shm: SharedMemory, workers: int, bs: Seq<Backend>, i: int)
    requires
        0 <= i < bs.len(),
    ensures
        ({
            let page = health::metrics_page(shm, workers, bs);
            &&& shows(
                page,
                "rproxy_cpu_load "@ + text::decimal(shm.metrics.global_cpu_load as nat) + "\n"@,
            )
            &&& shows(
                page,
                "rproxy_backend_up{host=\""@ + bs[i].host@ + ":"@ + text::decimal(bs[i].port as nat)
                    + "\"} "@ + (if bs[i].state.of(shm).up != 0 {
                    "1"@
                } else {
                    "0"@
                }) + "\n"@,
            )
            &&& shows(
                page,
                "rproxy_backend_active_connections{host=\""@ + bs[i].host@ + ":"@ + text::decimal(
                    bs[i].port as nat,
                ) + "\"} "@ + text::decimal(bs[i].state.of(shm).active_connections as nat) + "\n"@,
            )
        }),
{
    lemma_backend_lines(bs, shm, i);
    lemma_load_is_shown(shm.metrics.global_cpu_load as nat);
    let load = "rproxy_cpu_load "@ + text::decimal(shm.metrics.global_cpu_load as nat) + "\n"@;
    let up = "rproxy_backend_up{host=\""@ + bs[i].host@ + ":"@ + text::decimal(bs[i].port as nat)
        + "\"} "@ + (if bs[i].state.of(shm).up != 0 {
        "1"@
    } else {
        "0"@
    }) + "\n"@;
    let conn = "rproxy_backend_active_connections{host=\""@ + bs[i].host@ + ":"@ + text::decimal(
        bs[i].port as nat,
    ) + "\"} "@ + text::decimal(bs[i].state.of(shm).active_connections as nat) + "\n"@;
    let s1 =
        "# HELP rproxy_cpu_load CPU Load Percentage\n# TYPE rproxy_cpu_load gauge\nrproxy_cpu_load "@
        + text::decimal(shm.metrics.global_cpu_load as nat) + "\n"@;
    let section = health::worker_section(shm.metrics.workers@, workers);
    let h1 = "# HELP rproxy_backend_up Backend Up Status\n# TYPE rproxy_backend_up gauge\n"@;
    let ups = health::up_lines(bs, shm);
    let h2 =
        "# HELP rproxy_backend_active_connections Backend Connections\n# TYPE rproxy_backend_active_connections gauge\n"@;
    let conns = health::conn_lines(bs, shm);
    let s2 = s1 + section;
    let s3 = s2 + h1;
    let s4 = s3 + ups;
    let s5 = s4 + h2;
    lemma_shown_before(s1, section, load);
    lemma_shown_before(s2, h1, load);
    lemma_shown_before(s3, ups, load);
    lemma_shown_before(s4, h2, load);
    lemma_shown_before(s5, conns, load);
    lemma_shown_behind(s3, ups, up);
    lemma_shown_before(s4, h2, up);
    lemma_shown_before(s5, conns, up);
    lemma_shown_behind(s5, conns, conn);
    assert(health::metrics_page(shm, workers, bs) == s5 + conns);
}

proof fn lemma_load_is_shown(load: nat)
    ensures
        shows(
            "# HELP rproxy_cpu_load CPU Load Percentage\n# TYPE rproxy_cpu_load gauge\nrproxy_cpu_load "@
                + text::decimal(load) + "\n"@,
            "rproxy_cpu_load "@ + text::decimal(load) + "\n"@,
        ),
{
    let h0 =
        "# HELP rproxy_cpu_load CPU Load Percentage\n# TYPE rproxy_cpu_load gauge\nrproxy_cpu_load "@;
    reveal_strlit(
        "# HELP rproxy_cpu_load CPU Load Percentage\n# TYPE rproxy_cpu_load gauge\nrproxy_cpu_load ",
    );
    reveal_strlit("rproxy_cpu_load ");
    let pre = h0.take(h0.len() - 16);
    let part = "rproxy_cpu_load "@ + text::decimal(load) + "\n"@;
    assert(h0.skip(h0.len() - 16) =~= "rproxy_cpu_load "@);
    assert(h0 =~= pre + "rproxy_cpu_load "@);
    assert(h0 + text::decimal(load) + "\n"@ =~= pre + part);
    lemma_shows(pre, part, seq![]);
    assert(pre + part + seq![] =~= pre + part);
}

// ---------------------------------------------------------------------------
// Shared counters
// ---------------------------------------------------------------------------

/// A connection counts for its backend alone, and counts one.
pub proof fn law_connection_counts_one(b: Seq<SharedBackendState>, slot: int, other: int)
    requires
        0 <= slot < b.len(),
        0 <= other < b.len(),
        other != slot,
    ensures
        b[slot].active_connections < i32::MAX ==> shared::with_conn(b, slot)[slot].active_connections
            == b[slot].active_connections + 1,
        b[slot].active_connections > 0 ==> shared::without_conn(b, slot)[slot].active_connections
            == b[slot].active_connections - 1,
        shared::with_conn(b, slot)[slot].up == b[slot].up,
        shared::without_conn(b, slot)[slot].up == b[slot].up,
        shared::with_conn(b, slot)[other] == b[other],
        shared::without_conn(b, slot)[other] == b[other],
        shared::with_conn(b, slot).len() == b.len(),
        shared::without_conn(b, slot).len() == b.len(),
{
}

/// The sizes that everything shared, kept or buffered keeps to.
pub proof fn law_sizes()
    ensures
        shared::STATUS_SLOTS == 600,
        shared::WORKER_SLOTS == 256,
        startup::MAX_BACKENDS == 1024,
        upstream::MAX_BACKEND_TRIES == 3,
        http::MAX_HEADERS == 64,
        http::IP_TEXT_MAX == 45,
        buf_pool::BUF_SIZE == 16 * 1024,
        pipe::WINDOW == 16 * 1024,
        buf_pool::BUF_POOL_MAX == 10_000,
        jwt::JWT_CACHE_MAX == 10_000,
        jwt::JWT_CACHE_TTL_SECS == 5 * 60,
        rate::RATE_LIMIT_MAP_MAX == 100_000,
        config::WORKER_DRAIN_MARGIN_SECS == 5,
        cycles::NUM_BUCKETS == 64,
        cycles::RING_LEN == 1024,
{
}

// ---------------------------------------------------------------------------
// Workers that end
// ---------------------------------------------------------------------------

/// A worker ends for its age as soon as its lifetime and what chance adds to it are over, in seconds,
/// and for its requests as soon as it has served as many as it may; otherwise it goes on.
pub proof fn law_when_a_worker_ends(
    lifetime: u64,
    added: u64,
    start: u64,
    deadline: u128,
    max: u64,
    served: u64,
    now: u64,
)
    requires
        deadline == recycle::end_of(lifetime, added, start),
    ensures
        deadline == start + (lifetime + added) * 1_000_000_000,
        recycle::ends(Some(deadline), Some(max), served, now) == Some(Reason::Lifetime) <==> now
            >= deadline,
        recycle::ends(Some(deadline), Some(max), served, now) == Some(Reason::MaxRequests) <==> now
            < deadline && served >= max,
        recycle::ends(None, Some(max), served, now) == Some(Reason::MaxRequests) <==> served >= max,
        recycle::ends(Some(deadline), None, served, now) == Some(Reason::Lifetime) <==> now
            >= deadline,
        recycle::ends(Some(deadline), None, served, now) is None <==> now < deadline,
        recycle::ends(None, None, served, now) is None,
{
}

// ---------------------------------------------------------------------------
// The machine
// ---------------------------------------------------------------------------

/// A setting is on or off by one of four words each, in either case and with blanks around; any
/// other, and none, leaves it to the machine.
pub proof fn law_policy_words(s: Seq<char>)
    ensures
        ({
            let w = encode_utf8(text::trim(s));
            &&& platform::policy_of(Some(s)) is On <==> text::eq_ci(w, "on".spec_bytes())
                || text::eq_ci(w, "true".spec_bytes()) || text::eq_ci(w, "1".spec_bytes())
                || text::eq_ci(w, "yes".spec_bytes())
            &&& text::eq_ci(w, "off".spec_bytes()) || text::eq_ci(w, "false".spec_bytes())
                || text::eq_ci(w, "0".spec_bytes()) || text::eq_ci(w, "no".spec_bytes())
                ==> !(platform::policy_of(Some(s)) is Auto)
            &&& platform::policy_of(Some(s)) is Off ==> text::eq_ci(w, "off".spec_bytes())
                || text::eq_ci(w, "false".spec_bytes()) || text::eq_ci(w, "0".spec_bytes())
                || text::eq_ci(w, "no".spec_bytes())
            &&& platform::policy_of(None) is Auto
        }),
{
}

/// Left to the machine, workers are pinned where there are more processors than workers and the
/// machine is not oversubscribed.
pub proof fn law_when_workers_are_pinned(cpus: nat, workers: nat, oversubscribed: bool)
    ensures
        platform::pins(Policy::Auto, cpus, workers, oversubscribed) <==> workers < cpus
            && !oversubscribed,
        platform::pins(Policy::On, cpus, workers, oversubscribed),
        !platform::pins(Policy::Off, cpus, workers, oversubscribed),
{
}

/// An environment marks a container exactly if one of its entries is `container=` with a value.
pub proof fn law_container_mark(e: Seq<u8>, rest: Seq<u8>)
    requires
        !e.contains(0u8),
    ensures
        platform::has_container(e + seq![0u8] + rest) <==> platform::has_container(e)
            || platform::has_container(rest),
        platform::has_container(e) <==> e.len() > 10 && e.take(10) == "container=".spec_bytes(),
{
    reveal_strlit("container=");
    assert("container=".is_ascii());
    let m = "container=".spec_bytes();
    assert(m.len() == 10);
    text::lemma_find(e, 0u8);
    let s = e + seq![0u8] + rest;
    assert forall|i: int| 0 <= i < e.len() implies s[i] != 0u8 by {
        assert(s[i] == e[i]);
    }
    text::lemma_find_is(s, 0u8, e.len() as int);
    assert(s.take(e.len() as int) =~= e);
    assert(s.skip(e.len() as int + 1) =~= rest);
    let es = text::split(e, 0u8);
    let rs = text::split(rest, 0u8);
    let all = text::split(s, 0u8);
    assert(es =~= seq![e]);
    assert(all =~= seq![e] + rs);
    assert(es[0] == e);
    assert(all[0] == e);
    if platform::marks_container(e) {
        assert(platform::marks_container(es[0]) && platform::marks_container(all[0]));
        assert(e.take(10) =~= m);
    }
    if e.len() > 10 && e.take(10) == m {
        assert forall|i: int| 0 <= i < 10 implies m[i] == e[i] by {
            assert(e.take(10)[i] == e[i]);
        }
        assert(m.is_prefix_of(e));
        assert(platform::marks_container(es[0]));
    }
    if platform::has_container(rest) {
        let i = choose|i: int| 0 <= i < rs.len() && platform::marks_container(#[trigger] rs[i]);
        assert(all[i + 1] == rs[i]);
        assert(platform::marks_container(all[i + 1]));
    }
    if platform::has_container(s) {
        let i = choose|i: int| 0 <= i < all.len() && platform::marks_container(#[trigger] all[i]);
        if i > 0 {
            assert(all[i] == rs[i - 1]);
            assert(platform::marks_container(rs[i - 1]));
        }
    }
}

/// Whether bytes hold others somewhere.
pub open spec fn holds(b: Seq<u8>, w: Seq<u8>) -> bool {
    exists|k: int| 0 <= k <= b.len() - w.len() && #[trigger] b.subrange(k, k + w.len()) == w
}

proof fn lemma_holds(b: Seq<u8>, w: Seq<u8>)
    ensures
        header_util::search(b, w, 0) is Some <==> holds(b, w),
{
    header_util::lemma_search(b, w, 0);
    match header_util::search(b, w, 0) {
        Some(k) => {
            assert(b.subrange(k, k + w.len()) == w);
        },
        None => {},
    }
}

/// Control groups tell of a container by the names of four runtimes.
pub proof fn law_container_runtimes(cgroup: Seq<char>)
    ensures
        platform::names_runtime(cgroup) <==> holds(encode_utf8(cgroup), "docker".spec_bytes()) || holds(
            encode_utf8(cgroup),
            "kubepods".spec_bytes(),
        ) || holds(encode_utf8(cgroup), "containerd".spec_bytes()) || holds(
            encode_utf8(cgroup),
            "/lxc".spec_bytes(),
        ),
{
    let b = encode_utf8(cgroup);
    lemma_holds(b, "docker".spec_bytes());
    lemma_holds(b, "kubepods".spec_bytes());
    lemma_holds(b, "containerd".spec_bytes());
    lemma_holds(b, "/lxc".spec_bytes());
}

/// A process may raise its priority by the bit of that name, the one of value 2^23, of the
/// hexadecimal number behind `CapEff:` in its status.
pub proof fn law_right_to_priority(v: Seq<char>, rest: Seq<Seq<char>>, other: Seq<char>)
    requires
        v.len() == 0 || v.last() != '\r',
        !"CapEff:"@.is_prefix_of(other),
        other.len() == 0 || other.last() != '\r',
    ensures
        ({
            let n = text::parse_unsigned(encode_utf8(text::trim(v)), 16, u64::MAX as nat);
            &&& n is Some ==> platform::caps_of(seq!["CapEff:"@ + v] + rest) == n
            &&& platform::caps_of(seq![other] + rest) == platform::caps_of(rest)
            &&& !v.contains('\n') && n is Some ==> (platform::has_sys_nice("CapEff:"@ + v) <==> n->0
                / 8388608 % 2 == 1)
        }),
{
    reveal_strlit("CapEff:");
    reveal_strlit("\r");
    let s = "CapEff:"@ + v;
    assert(s.last() != '\r');
    if "\r"@.is_suffix_of(s) {
        assert(s[s.len() - 1] == "\r"@[0]);
    }
    if "\r"@.is_suffix_of(other) {
        assert(other[other.len() - 1] == "\r"@[0]);
    }
    assert(platform::line_text(s) == s);
    assert(platform::line_text(other) == other);
    assert("CapEff:"@.is_prefix_of(s));
    assert(s.skip(7) =~= v);
    assert((seq![s] + rest)[0] == s);
    assert((seq![other] + rest).drop_first() =~= rest);
    if !v.contains('\n') {
        assert(!s.contains('\n')) by {
            if s.contains('\n') {
                let i = choose|i: int| 0 <= i < s.len() && s[i] == '\n';
                if i >= 7 {
                    assert(v[i - 7] == '\n');
                }
            }
        }
        text::lemma_find(s, '\n');
        assert(text::split(s, '\n') =~= seq![s]);
        assert(seq![s] + Seq::<Seq<char>>::empty() =~= seq![s]);
    }
}

/// How the answer to a client reads whose copy is still good: it keeps the connection or closes it.
pub proof fn law_copy_is_still_good()
    ensures
        cache::not_modified(true) == "HTTP/1.1 304 Not Modified\r\n".spec_bytes()
            + "Connection: keep-alive\r\n".spec_bytes() + "\r\n".spec_bytes(),
        cache::not_modified(false) == "HTTP/1.1 304 Not Modified\r\n".spec_bytes()
            + "Connection: close\r\n".spec_bytes() + "\r\n".spec_bytes(),
{
    lemma_kept_copy();
    lemma_last_copy();
}

proof fn lemma_encoded_parts(a: Seq<char>, b: Seq<char>)
    ensures
        encode_utf8(a + b) == encode_utf8(a) + encode_utf8(b),
    decreases a.len(),
{
    if a.len() == 0 {
        assert(a + b =~= b);
        assert(encode_utf8(a) + encode_utf8(b) =~= encode_utf8(b));
    } else {
        assert((a + b).drop_first() =~= a.drop_first() + b);
        lemma_encoded_parts(a.drop_first(), b);
        assert(encode_utf8(a + b) =~= encode_utf8(a) + encode_utf8(b));
    }
}

proof fn lemma_kept_copy()
    ensures
        "HTTP/1.1 304 Not Modified\r\nConnection: keep-alive\r\n\r\n"@
            == "HTTP/1.1 304 Not Modified\r\n"@ + "Connection: keep-alive\r\n"@ + "\r\n"@,
        cache::not_modified(true) == "HTTP/1.1 304 Not Modified\r\n".spec_bytes()
            + "Connection: keep-alive\r\n".spec_bytes() + "\r\n".spec_bytes(),
{
    reveal_strlit("HTTP/1.1 304 Not Modified\r\nConnection: keep-alive\r\n\r\n");
    reveal_strlit("HTTP/1.1 304 Not Modified\r\n");
    reveal_strlit("Connection: keep-alive\r\n");
    reveal_strlit("\r\n");
    let a = "HTTP/1.1 304 Not Modified\r\n"@;
    let b = "Connection: keep-alive\r\n"@;
    let c = "\r\n"@;
    assert("HTTP/1.1 304 Not Modified\r\nConnection: keep-alive\r\n\r\n"@ =~= a + b + c);
    lemma_encoded_parts(a, b);
    lemma_encoded_parts(a + b, c);
}

proof fn lemma_last_copy()
    ensures
        "HTTP/1.1 304 Not Modified\r\nConnection: close\r\n\r\n"@
            == "HTTP/1.1 304 Not Modified\r\n"@ + "Connection: close\r\n"@ + "\r\n"@,
        cache::not_modified(false) == "HTTP/1.1 304 Not Modified\r\n".spec_bytes()
            + "Connection: close\r\n".spec_bytes() + "\r\n".spec_bytes(),
{
    reveal_strlit("HTTP/1.1 304 Not Modified\r\nConnection: close\r\n\r\n");
    reveal_strlit("HTTP/1.1 304 Not Modified\r\n");
    reveal_strlit("Connection: close\r\n");
    reveal_strlit("\r\n");
    let a = "HTTP/1.1 304 Not Modified\r\n"@;
    let b = "Connection: close\r\n"@;
    let c = "\r\n"@;
    assert("HTTP/1.1 304 Not Modified\r\nConnection: close\r\n\r\n"@ =~= a + b + c);
    lemma_encoded_parts(a, b);
    lemma_encoded_parts(a + b, c);
}

} // verus!
