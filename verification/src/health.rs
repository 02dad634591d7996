//! Health checks of the backends and the metrics page.

use base64::Engine;
use vstd::prelude::*;
use vstd::string::*;
use vstd::utf8::*;

use crate::balancer;
use crate::config::{Backend, Hspec};
use crate::shared;
use crate::shared::{SharedMemory, SharedMetrics};
use crate::text;
use crate::text::append_decimal;

verus! {

// ---------------------------------------------------------------------------
// Probes
// ---------------------------------------------------------------------------

/// The address that a probe of a backend asks for.
pub open spec fn url_of(tls: bool, host: Seq<char>, port: u16, path: Seq<char>) -> Seq<char> {
    (if tls {
        "https"@
    } else {
        "http"@
    }) + "://"@ + host + ":"@ + text::decimal(port as nat) + path
}

/// The address that a probe of a backend asks for.
pub fn probe_url(b: &Backend, h: &Hspec) -> (r: String)
    ensures
        r@ == url_of(b.tls, b.host@, b.port, h.path@),
{
    let mut url = if b.tls {
        "https".to_owned()
    } else {
        "http".to_owned()
    };
    url.append("://");
    url.append(b.host.as_str());
    url.append(":");
    append_decimal(&mut url, b.port as u64);
    url.append(h.path.as_str());
    assert(url@ =~= url_of(b.tls, b.host@, b.port, h.path@));
    url
}

/// What is known of a backend by its probes: whether it counts as up, and how many probes in a row
/// went well or did not.
#[derive(Clone, Copy, PartialEq, Eq, Structural, Debug)]
pub struct Pulse {
    pub is_up: bool,
    pub up_count: i32,
    pub down_count: i32,
}

/// One more, up to the largest number.
pub open spec fn one_more(n: i32) -> i32 {
    if n < i32::MAX {
        (n + 1) as i32
    } else {
        n
    }
}

/// What is known of a backend after one more probe.
pub open spec fn probed(p: Pulse, success: bool, rise: i32, fall: i32) -> Pulse {
    if success {
        Pulse {
            is_up: p.is_up || one_more(p.up_count) >= rise,
            up_count: one_more(p.up_count),
            down_count: 0,
        }
    } else {
        Pulse {
            is_up: p.is_up && one_more(p.down_count) < fall,
            up_count: 0,
            down_count: one_more(p.down_count),
        }
    }
}

impl Pulse {
    /// A backend counts as up until probes say otherwise.
    pub fn new() -> (r: Pulse)
        ensures
            r == (Pulse { is_up: true, up_count: 0, down_count: 0 }),
    {
        Pulse { is_up: true, up_count: 0, down_count: 0 }
    }

    /// Takes note of a probe. Returns the new state where it changed. A backend that is down comes
    /// up after `rise` good probes in a row, one that is up goes down after `fall` bad ones.
    pub fn observe(&mut self, success: bool, rise: i32, fall: i32) -> (r: Option<bool>)
        ensures
            *final(self) == probed(*old(self), success, rise, fall),
            r == if final(self).is_up != old(self).is_up {
                Some(final(self).is_up)
            } else {
                None
            },
    {
        let was_up = self.is_up;
        if success {
            if self.up_count < i32::MAX {
                self.up_count = self.up_count + 1;
            }
            self.down_count = 0;
            if !self.is_up && self.up_count >= rise {
                self.is_up = true;
            }
        } else {
            if self.down_count < i32::MAX {
                self.down_count = self.down_count + 1;
            }
            self.up_count = 0;
            if self.is_up && self.down_count >= fall {
                self.is_up = false;
            }
        }
        if self.is_up != was_up {
            Some(self.is_up)
        } else {
            None
        }
    }
}

/// What is known of a backend after `n` probes that went alike.
pub open spec fn after_alike(p: Pulse, success: bool, n: nat, rise: i32, fall: i32) -> Pulse
    decreases n,
{
    if n == 0 {
        p
    } else {
        probed(after_alike(p, success, (n - 1) as nat, rise, fall), success, rise, fall)
    }
}

proof fn lemma_alike_counts(p: Pulse, success: bool, n: nat, rise: i32, fall: i32)
    requires
        n <= i32::MAX,
        success ==> p.up_count == 0,
        !success ==> p.down_count == 0,
    ensures
        success ==> after_alike(p, success, n, rise, fall).up_count == n,
        !success ==> after_alike(p, success, n, rise, fall).down_count == n,
    decreases n,
{
    if n > 0 {
        lemma_alike_counts(p, success, (n - 1) as nat, rise, fall);
    }
}

/// A backend that is up, and whose last probe went well, stays up through fewer than `fall` bad
/// probes in a row, and is down after `fall` of them.
pub proof fn law_falls_after_fall_failures(p: Pulse, n: nat, rise: i32, fall: i32)
    requires
        p.is_up,
        p.down_count == 0,
        1 <= fall,
        n <= fall,
    ensures
        after_alike(p, false, n, rise, fall).is_up == (n < fall),
    decreases n,
{
    if n > 0 {
        law_falls_after_fall_failures(p, (n - 1) as nat, rise, fall);
        lemma_alike_counts(p, false, (n - 1) as nat, rise, fall);
    }
}

/// A backend that is down, and whose last probe did not go well, stays down through fewer than
/// `rise` good probes in a row, and is up after `rise` of them.
pub proof fn law_rises_after_rise_successes(p: Pulse, n: nat, rise: i32, fall: i32)
    requires
        !p.is_up,
        p.up_count == 0,
        1 <= rise,
        n <= rise,
    ensures
        after_alike(p, true, n, rise, fall).is_up == (n >= rise),
    decreases n,
{
    if n > 0 {
        law_rises_after_rise_successes(p, (n - 1) as nat, rise, fall);
        lemma_alike_counts(p, true, (n - 1) as nat, rise, fall);
    }
}

// ---------------------------------------------------------------------------
// Access to the metrics page
// ---------------------------------------------------------------------------

/// Whether two byte strings are equal. All bytes are looked at, whatever they are.
pub fn ct_eq(a: &[u8], b: &[u8]) -> (r: bool)
    ensures
        r == (a@ == b@),
{
    if a.len() != b.len() {
        return false;
    }
    let mut diff: u8 = 0;
    for i in 0..a.len()
        invariant
            a@.len() == b@.len(),
            diff == 0 <==> forall|j: int| 0 <= j < i ==> a@[j] == b@[j],
    {
        let x: u8 = a[i];
        let y: u8 = b[i];
        assert((diff | (x ^ y)) == 0u8 <==> diff == 0u8 && x == y) by (bit_vector);
        diff = diff | (x ^ y);
    }
    if diff == 0 {
        assert(a@ =~= b@);
    }
    diff == 0
}

/// What `base64`'s standard engine writes for some bytes.
pub uninterp spec fn base64_standard(data: Seq<u8>) -> Seq<char>;

/// `base64::Engine::encode` with `STANDARD`.
#[verifier::external_body]
fn encode_standard(data: &[u8]) -> (r: String)
    ensures
        r@ == base64_standard(data@),
{
    base64::engine::general_purpose::STANDARD.encode(data)
}

/// Whether an `Authorization` value fits: it is the expected token, or the expected credentials in
/// their encoded form.
pub open spec fn auth_fits(
    auth: Option<Seq<char>>,
    token: Option<Seq<char>>,
    basic: Option<Seq<char>>,
) -> bool {
    &&& auth matches Some(a)
    &&& {
        ||| token matches Some(t) && a == "Bearer "@ + t
        ||| basic matches Some(b) && a == "Basic "@ + b
    }
}

/// Whether an `Authorization` value is a word and a text with a blank between.
fn is_scheme(auth: &str, scheme: &str, value: &str) -> (r: bool)
    ensures
        r == (auth@ == scheme@ + value@),
{
    let mut expected = scheme.to_owned();
    expected.append(value);
    proof {
        text::lemma_same_bytes(auth@, expected@);
    }
    ct_eq(auth.as_bytes(), expected.as_str().as_bytes())
}

/// Whether an `Authorization` value fits the expected token, or the expected credentials in their
/// encoded form.
pub fn auth_matches(auth: Option<&str>, token: Option<&str>, basic: Option<&str>) -> (r: bool)
    ensures
        r == auth_fits(
            crate::http::opt_view(auth),
            crate::http::opt_view(token),
            crate::http::opt_view(basic),
        ),
{
    let a = match auth {
        Some(a) => a,
        None => return false,
    };
    let mut valid: bool = false;
    if let Some(t) = token {
        if is_scheme(a, "Bearer ", t) {
            valid = true;
        }
    }
    if let Some(b) = basic {
        if is_scheme(a, "Basic ", b) {
            valid = true;
        }
    }
    valid
}

/// Whether a request for the metrics page is let in: nothing is asked for, or the token or the
/// credentials fit.
pub open spec fn let_in(
    auth: Option<Seq<char>>,
    token: Option<Seq<char>>,
    basic: Option<Seq<char>>,
) -> bool {
    (token is None && basic is None) || auth_fits(
        auth,
        token,
        match basic {
            Some(c) => Some(base64_standard(encode_utf8(c))),
            None => None,
        },
    )
}

/// Whether a request for the metrics page is let in.
pub fn metrics_authorized(auth: Option<&str>, token: &Option<String>, basic: &Option<String>) -> (r:
    bool)
    ensures
        r == let_in(
            crate::http::opt_view(auth),
            crate::config::opt_text(*token),
            crate::config::opt_text(*basic),
        ),
{
    if token.is_none() && basic.is_none() {
        return true;
    }
    let t = match token {
        Some(s) => Some(s.as_str()),
        None => None,
    };
    match basic {
        Some(c) => {
            let encoded = encode_standard(c.as_str().as_bytes());
            auth_matches(auth, t, Some(encoded.as_str()))
        },
        None => auth_matches(auth, t, None),
    }
}

/// The challenge that goes with a refusal, where credentials would help.
pub fn challenge(basic: &Option<String>) -> (r: Option<&'static str>)
    ensures
        match r {
            Some(s) => *basic is Some && s@ == "Basic realm=\"rproxy metrics\""@,
            None => *basic is None,
        },
{
    match basic {
        Some(_) => Some("Basic realm=\"rproxy metrics\""),
        None => None,
    }
}

// ---------------------------------------------------------------------------
// The metrics page
// ---------------------------------------------------------------------------

/// A counter summed over the first `n` workers. A sum that would exceed its range starts over.
pub open spec fn sum_of(
    ws: Seq<shared::WorkerMetrics>,
    n: int,
    f: spec_fn(shared::WorkerMetrics) -> u64,
) -> u64
    decreases n,
{
    if n <= 0 {
        0
    } else {
        sum_of(ws, n - 1, f).wrapping_add(f(ws[n - 1]))
    }
}

/// The responses of a status summed over the first `n` workers.
pub open spec fn status_sum(ws: Seq<shared::WorkerMetrics>, n: int, status: int) -> u64 {
    sum_of(ws, n, |w: shared::WorkerMetrics| w.req_status@[status])
}

/// The lines of the statuses from 100 up to `end` that were counted.
pub open spec fn status_lines(ws: Seq<shared::WorkerMetrics>, n: int, end: int) -> Seq<char>
    decreases end,
{
    if end <= 100 {
        ""@
    } else {
        let c = status_sum(ws, n, end - 1);
        status_lines(ws, n, end - 1) + if c > 0 {
            "rproxy_requests_total{status=\""@ + text::decimal((end - 1) as nat) + "\"} "@
                + text::decimal(c as nat) + "\n"@
        } else {
            ""@
        }
    }
}

/// A line with a name and a number.
pub open spec fn metric_line(name: Seq<char>, v: u64) -> Seq<char> {
    name + " "@ + text::decimal(v as nat) + "\n"@
}

/// The part of the metrics page that sums up the first `n` workers.
pub open spec fn worker_section(ws: Seq<shared::WorkerMetrics>, n: int) -> Seq<char> {
    "# HELP rproxy_requests_total Total Requests\n# TYPE rproxy_requests_total counter\n"@
        + status_lines(ws, n, 600) + metric_line(
        "rproxy_qos_dropped_total"@,
        sum_of(ws, n, |w: shared::WorkerMetrics| w.req_qos_drop),
    ) + metric_line(
        "rproxy_rate_limit_dropped_total"@,
        sum_of(ws, n, |w: shared::WorkerMetrics| w.req_rate_limit_drop),
    ) + metric_line(
        "rproxy_ip_dropped_total"@,
        sum_of(ws, n, |w: shared::WorkerMetrics| w.req_ip_drop),
    ) + metric_line(
        "rproxy_jwt_dropped_total"@,
        sum_of(ws, n, |w: shared::WorkerMetrics| w.req_jwt_drop),
    ) + metric_line(
        "rproxy_rule_dropped_total"@,
        sum_of(ws, n, |w: shared::WorkerMetrics| w.req_rule_drop),
    ) + "# HELP rproxy_bytes_total Total Bytes\n# TYPE rproxy_bytes_total counter\n"@ + metric_line(
        "rproxy_bytes_total{dir=\"rx\"}"@,
        sum_of(ws, n, |w: shared::WorkerMetrics| w.bytes_rx),
    ) + metric_line(
        "rproxy_bytes_total{dir=\"tx\"}"@,
        sum_of(ws, n, |w: shared::WorkerMetrics| w.bytes_tx),
    )
        + "# HELP rproxy_active_connections Total Active Connections\n# TYPE rproxy_active_connections gauge\n"@
        + metric_line(
        "rproxy_active_connections"@,
        sum_of(ws, n, |w: shared::WorkerMetrics| w.active_connections),
    )
}

/// The line of a backend.
pub open spec fn backend_line(name: Seq<char>, b: Backend, v: nat) -> Seq<char> {
    name + "{host=\""@ + b.host@ + ":"@ + text::decimal(b.port as nat) + "\"} "@ + text::decimal(v)
        + "\n"@
}

/// The lines that say which backends are up.
pub open spec fn up_lines(bs: Seq<Backend>, shm: SharedMemory) -> Seq<char>
    decreases bs.len(),
{
    if bs.len() == 0 {
        ""@
    } else {
        up_lines(bs.drop_last(), shm) + backend_line(
            "rproxy_backend_up"@,
            bs.last(),
            if bs.last().state.of(shm).up != 0 {
                1
            } else {
                0
            },
        )
    }
}

/// The lines that say how many connections the backends have.
pub open spec fn conn_lines(bs: Seq<Backend>, shm: SharedMemory) -> Seq<char>
    decreases bs.len(),
{
    if bs.len() == 0 {
        ""@
    } else {
        conn_lines(bs.drop_last(), shm) + backend_line(
            "rproxy_backend_active_connections"@,
            bs.last(),
            bs.last().state.of(shm).active_connections as nat,
        )
    }
}

/// The metrics page.
pub open spec fn metrics_page(shm: SharedMemory, workers: int, bs: Seq<Backend>) -> Seq<char> {
    "# HELP rproxy_cpu_load CPU Load Percentage\n# TYPE rproxy_cpu_load gauge\nrproxy_cpu_load "@
        + text::decimal(shm.metrics.global_cpu_load as nat) + "\n"@ + worker_section(
        shm.metrics.workers@,
        workers,
    ) + "# HELP rproxy_backend_up Backend Up Status\n# TYPE rproxy_backend_up gauge\n"@ + up_lines(
        bs,
        shm,
    )
        + "# HELP rproxy_backend_active_connections Backend Connections\n# TYPE rproxy_backend_active_connections gauge\n"@
        + conn_lines(bs, shm)
}

/// The counters of the first workers, summed up.
struct Totals {
    status: Vec<u64>,
    qos: u64,
    rate: u64,
    ip: u64,
    jwt: u64,
    rule: u64,
    rx: u64,
    tx: u64,
    active: u64,
}

impl Totals {
    spec fn are(self, ws: Seq<shared::WorkerMetrics>, n: int) -> bool {
        &&& self.status@.len() == 600
        &&& forall|s: int| 100 <= s < 600 ==> #[trigger] self.status@[s] == status_sum(ws, n, s)
        &&& self.qos == sum_of(ws, n, |w: shared::WorkerMetrics| w.req_qos_drop)
        &&& self.rate == sum_of(ws, n, |w: shared::WorkerMetrics| w.req_rate_limit_drop)
        &&& self.ip == sum_of(ws, n, |w: shared::WorkerMetrics| w.req_ip_drop)
        &&& self.jwt == sum_of(ws, n, |w: shared::WorkerMetrics| w.req_jwt_drop)
        &&& self.rule == sum_of(ws, n, |w: shared::WorkerMetrics| w.req_rule_drop)
        &&& self.rx == sum_of(ws, n, |w: shared::WorkerMetrics| w.bytes_rx)
        &&& self.tx == sum_of(ws, n, |w: shared::WorkerMetrics| w.bytes_tx)
        &&& self.active == sum_of(ws, n, |w: shared::WorkerMetrics| w.active_connections)
    }
}

fn add_statuses(status: &mut Vec<u64>, w: &shared::WorkerMetrics, Ghost(before): Ghost<Seq<u64>>)
    requires
        old(status)@.len() == 600,
        old(status)@ == before,
        w.wf(),
    ensures
        final(status)@.len() == 600,
        forall|s: int|
            100 <= s < 600 ==> #[trigger] final(status)@[s] == before[s].wrapping_add(
                w.req_status@[s],
            ),
{
    for s in 100..600usize
        invariant
            status@.len() == 600,
            before.len() == 600,
            w.wf(),
            forall|k: int|
                100 <= k < s ==> #[trigger] status@[k] == before[k].wrapping_add(w.req_status@[k]),
            forall|k: int| s <= k < 600 ==> #[trigger] status@[k] == before[k],
    {
        let v: u64 = status[s];
        status[s] = v.wrapping_add(w.req_status[s]);
    }
}

fn sum_workers(metrics: &SharedMetrics, workers: usize) -> (r: Totals)
    requires
        metrics.wf(),
        workers <= shared::WORKER_SLOTS,
    ensures
        r.are(metrics.workers@, workers as int),
{
    let mut status: Vec<u64> = Vec::new();
    status.resize(600, 0);
    let mut t = Totals {
        status,
        qos: 0,
        rate: 0,
        ip: 0,
        jwt: 0,
        rule: 0,
        rx: 0,
        tx: 0,
        active: 0,
    };
    for i in 0..workers
        invariant
            metrics.wf(),
            workers <= shared::WORKER_SLOTS,
            t.are(metrics.workers@, i as int),
    {
        let w = &metrics.workers[i];
        let ghost before = t.status@;
        add_statuses(&mut t.status, w, Ghost(before));
        t.qos = t.qos.wrapping_add(w.req_qos_drop);
        t.rate = t.rate.wrapping_add(w.req_rate_limit_drop);
        t.ip = t.ip.wrapping_add(w.req_ip_drop);
        t.jwt = t.jwt.wrapping_add(w.req_jwt_drop);
        t.rule = t.rule.wrapping_add(w.req_rule_drop);
        t.rx = t.rx.wrapping_add(w.bytes_rx);
        t.tx = t.tx.wrapping_add(w.bytes_tx);
        t.active = t.active.wrapping_add(w.active_connections);
    }
    t
}

fn append_metric(out: &mut String, name: &str, v: u64)
    ensures
        final(out)@ == old(out)@ + metric_line(name@, v),
{
    out.append(name);
    out.append(" ");
    append_decimal(out, v);
    out.append("\n");
    assert(out@ =~= old(out)@ + metric_line(name@, v));
}

fn append_statuses(
    out: &mut String,
    status: &Vec<u64>,
    Ghost(ws): Ghost<Seq<shared::WorkerMetrics>>,
    Ghost(n): Ghost<int>,
)
    requires
        status@.len() == 600,
        forall|s: int| 100 <= s < 600 ==> #[trigger] status@[s] == status_sum(ws, n, s),
    ensures
        final(out)@ == old(out)@ + status_lines(ws, n, 600),
{
    proof {
        reveal_strlit("");
    }
    assert(out@ =~= old(out)@ + status_lines(ws, n, 100));
    for s in 100..600usize
        invariant
            status@.len() == 600,
            forall|k: int| 100 <= k < 600 ==> #[trigger] status@[k] == status_sum(ws, n, k),
            out@ == old(out)@ + status_lines(ws, n, s as int),
            ""@ == Seq::<char>::empty(),
    {
        let c: u64 = status[s];
        let ghost before = out@;
        if c > 0 {
            out.append("rproxy_requests_total{status=\"");
            append_decimal(out, s as u64);
            out.append("\"} ");
            append_decimal(out, c);
            out.append("\n");
            assert(out@ =~= before + ("rproxy_requests_total{status=\""@ + text::decimal(s as nat)
                + "\"} "@ + text::decimal(c as nat) + "\n"@));
        }
        assert(out@ =~= old(out)@ + status_lines(ws, n, s + 1));
    }
}

fn append_backend(out: &mut String, name: &str, b: &Backend, v: u64)
    ensures
        final(out)@ == old(out)@ + backend_line(name@, *b, v as nat),
{
    out.append(name);
    out.append("{host=\"");
    out.append(b.host.as_str());
    out.append(":");
    append_decimal(out, b.port as u64);
    out.append("\"} ");
    append_decimal(out, v);
    out.append("\n");
    assert(out@ =~= old(out)@ + backend_line(name@, *b, v as nat));
}

/// Writes the metrics page.
pub fn metrics_text(shm: &SharedMemory, workers: usize, backends: &[Backend]) -> (r: String)
    requires
        shm.wf(),
        workers <= shared::WORKER_SLOTS,
        balancer::list_within(backends@, *shm),
    ensures
        r@ == metrics_page(*shm, workers as int, backends@),
{
    let ghost ws = shm.metrics.workers@;
    let ghost n = workers as int;
    proof {
        reveal_strlit("");
    }
    let mut out =
        "# HELP rproxy_cpu_load CPU Load Percentage\n# TYPE rproxy_cpu_load gauge\nrproxy_cpu_load ".to_owned();
    append_decimal(&mut out, shm.metrics.global_cpu_load as u64);
    out.append("\n");
    let ghost cpu = out@;
    let t = sum_workers(&shm.metrics, workers);
    out.append("# HELP rproxy_requests_total Total Requests\n# TYPE rproxy_requests_total counter\n");
    append_statuses(&mut out, &t.status, Ghost(ws), Ghost(n));
    append_metric(&mut out, "rproxy_qos_dropped_total", t.qos);
    append_metric(&mut out, "rproxy_rate_limit_dropped_total", t.rate);
    append_metric(&mut out, "rproxy_ip_dropped_total", t.ip);
    append_metric(&mut out, "rproxy_jwt_dropped_total", t.jwt);
    append_metric(&mut out, "rproxy_rule_dropped_total", t.rule);
    out.append("# HELP rproxy_bytes_total Total Bytes\n# TYPE rproxy_bytes_total counter\n");
    append_metric(&mut out, "rproxy_bytes_total{dir=\"rx\"}", t.rx);
    append_metric(&mut out, "rproxy_bytes_total{dir=\"tx\"}", t.tx);
    out.append(
        "# HELP rproxy_active_connections Total Active Connections\n# TYPE rproxy_active_connections gauge\n",
    );
    append_metric(&mut out, "rproxy_active_connections", t.active);
    assert(out@ =~= cpu + worker_section(ws, n));
    out.append("# HELP rproxy_backend_up Backend Up Status\n# TYPE rproxy_backend_up gauge\n");
    let ghost head = out@;
    assert(out@ =~= head + up_lines(backends@.take(0), *shm));
    for i in 0..backends.len()
        invariant
            balancer::list_within(backends@, *shm),
            out@ == head + up_lines(backends@.take(i as int), *shm),
    {
        let b = &backends[i];
        let up: u64 = if b.state.is_up(shm) {
            1
        } else {
            0
        };
        let ghost before = out@;
        append_backend(&mut out, "rproxy_backend_up", b, up);
        assert(backends@.take(i + 1).drop_last() =~= backends@.take(i as int));
        assert(out@ =~= head + up_lines(backends@.take(i + 1), *shm));
    }
    assert(backends@.take(backends@.len() as int) =~= backends@);
    out.append(
        "# HELP rproxy_backend_active_connections Backend Connections\n# TYPE rproxy_backend_active_connections gauge\n",
    );
    let ghost head2 = out@;
    assert(out@ =~= head2 + conn_lines(backends@.take(0), *shm));
    for i in 0..backends.len()
        invariant
            balancer::list_within(backends@, *shm),
            out@ == head2 + conn_lines(backends@.take(i as int), *shm),
    {
        let b = &backends[i];
        append_backend(
            &mut out,
            "rproxy_backend_active_connections",
            b,
            b.state.active_conns(shm) as u64,
        );
        assert(backends@.take(i + 1).drop_last() =~= backends@.take(i as int));
        assert(out@ =~= head2 + conn_lines(backends@.take(i + 1), *shm));
    }
    assert(out@ =~= metrics_page(*shm, n, backends@));
    out
}

} // verus!
