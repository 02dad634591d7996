//! The exchange with a backend: which one is tried, when it is tried again, and what its response
//! comes to.

use vstd::prelude::*;
use vstd::string::*;
use vstd::utf8::*;

use crate::balancer;
use crate::balancer::BalancerState;
use crate::buf_pool::BUF_SIZE;
use crate::cache;
use crate::cache::CacheEntry;
use crate::config;
use crate::config::{Backend, RouteCache};
use crate::header_util;
use crate::header_util::{contains_ci, find_ci};
use crate::http;
use crate::http::{is_chunked_field, parse_response, read_length, text_of, Header, Parsed};
use crate::http::ResponseHead;
use crate::jwt::NANOS;
use crate::net::IpAddr;
use crate::pipe;
use crate::request::Refusal;
use crate::shared::SharedMemory;
use crate::text;
use crate::text::{bytes_eq, read_unsigned, split_once, split_str, str_eq_ci, trim_str};

verus! {

/// How many backends are tried for a request.
pub const MAX_BACKEND_TRIES: usize = 3;

// ---------------------------------------------------------------------------
// Failover
// ---------------------------------------------------------------------------

/// The backends that could not be reached for a request.
pub struct Failover {
    failed: Vec<usize>,
}

impl Failover {
    /// The backends that could not be reached, by their ids.
    pub closed spec fn failed(self) -> Seq<usize> {
        self.failed@
    }

    /// No backend was tried yet.
    pub fn new() -> (r: Failover)
        ensures
            r.failed() == Seq::<usize>::empty(),
    {
        Failover { failed: Vec::new() }
    }

    /// The ids of the backends that are not to be tried again.
    pub fn skip_ids(&self) -> (r: &[usize])
        ensures
            r@ == self.failed(),
    {
        self.failed.as_slice()
    }

    /// The backend to try next: one that can serve and has not failed before. `None` where there is
    /// none, or as many as are tried have failed.
    pub fn next<'a>(
        &self,
        list: &'a mut BalancerState,
        client_ip: &IpAddr,
        target: &str,
        shm: &SharedMemory,
    ) -> (r: Option<&'a Backend>)
        requires
            balancer::list_within(old(list).list.backends@, *shm),
            old(list).list.balance is Weighted && old(list).list.backends@.len() != 1
                ==> balancer::weight_sum(
                old(list).list.backends@,
                old(list).candidates(*shm, self.failed()),
            ) <= u32::MAX,
        ensures
            final(list).list == old(list).list,
            self.failed().len() >= MAX_BACKEND_TRIES ==> r is None && final(list).rr_index == old(
                list,
            ).rr_index,
            self.failed().len() < MAX_BACKEND_TRIES ==> {
                &&& final(list).rr_index == balancer::next_cursor(
                    old(list).list,
                    old(list).candidates(*shm, self.failed()),
                    old(list).rr_index,
                )
                &&& match r {
                    Some(b) => exists|p: int|
                        0 <= p < old(list).list.backends@.len() && *b == old(list).list.backends@[p]
                            && #[trigger] balancer::is_choice(
                            old(list).list,
                            old(list).candidates(*shm, self.failed()),
                            old(list).rr_index,
                            *client_ip,
                            target.spec_bytes(),
                            *shm,
                            Some(p),
                        ),
                    None => balancer::is_choice(
                        old(list).list,
                        old(list).candidates(*shm, self.failed()),
                        old(list).rr_index,
                        *client_ip,
                        target.spec_bytes(),
                        *shm,
                        None,
                    ),
                }
            },
            r matches Some(b) ==> balancer::usable(*b, *shm, self.failed()),
    {
        if self.failed.len() >= MAX_BACKEND_TRIES {
            return None;
        }
        list.select_backend(client_ip, target, self.failed.as_slice(), shm)
    }

    /// Notes that a backend could not be reached.
    pub fn record(&mut self, id: usize)
        ensures
            final(self).failed() == old(self).failed().push(id),
    {
        self.failed.push(id);
    }
}

/// No more backends are tried than the limit, and none twice: a backend that is to be tried is not
/// among those that failed, so that noting it keeps them distinct.
pub proof fn law_failover_tries_distinct_backends(
    failed: Seq<usize>,
    b: Backend,
    shm: SharedMemory,
)
    requires
        failed.no_duplicates(),
        balancer::usable(b, shm, failed),
    ensures
        failed.push(b.id).no_duplicates(),
{
}

// ---------------------------------------------------------------------------
// Sending the request
// ---------------------------------------------------------------------------

/// How a write ended: all was written, it failed, or it failed and the buffer is gone.
#[derive(Clone, Copy, PartialEq, Eq, Structural, Debug)]
pub enum Write {
    Done,
    Failed,
    Lost,
}

/// What follows a write of the request.
#[derive(Clone, Copy, PartialEq, Eq, Structural, Debug)]
pub enum AfterWrite {
    /// The request was sent.
    Sent,
    /// The connection was a kept one, which may have gone stale: connect anew and write once more.
    Reconnect,
    /// Answer that no backend responds.
    Refuse(Refusal),
    /// Drop the connection.
    Drop,
}

/// What follows a write of the request. `kept` says whether the connection was a kept one and this
/// the first write on it.
pub fn after_write(w: Write, kept: bool) -> (r: AfterWrite)
    ensures
        r == match w {
            Write::Done => AfterWrite::Sent,
            Write::Lost => AfterWrite::Drop,
            Write::Failed => if kept {
                AfterWrite::Reconnect
            } else {
                AfterWrite::Refuse(Refusal::BadGateway)
            },
        },
{
    match w {
        Write::Done => AfterWrite::Sent,
        Write::Lost => AfterWrite::Drop,
        Write::Failed => if kept {
            AfterWrite::Reconnect
        } else {
            AfterWrite::Refuse(Refusal::BadGateway)
        },
    }
}

/// Whether a request can be sent once more: it has no body, or one that was read whole; a body that
/// was passed through is gone, and a tunnel is not repeated.
pub fn replayable(want_upgrade: bool, clen: usize, is_chunked: bool, body_kept: bool) -> (r: bool)
    ensures
        r == (!want_upgrade && ((clen == 0 && !is_chunked) || body_kept)),
{
    !want_upgrade && ((clen == 0 && !is_chunked) || body_kept)
}

// ---------------------------------------------------------------------------
// Reading the response head
// ---------------------------------------------------------------------------

/// How far the response head has come: the bytes read, whether the connection is a kept one that
/// has answered nothing yet, and whether the request was already sent anew.
#[derive(Clone, Copy, PartialEq, Eq, Structural, Debug)]
pub struct ResponseWait {
    pub pos: usize,
    pub kept: bool,
    pub retried: bool,
}

/// What follows the end of a backend's connection before the response head.
#[derive(Clone, Copy, PartialEq, Eq, Structural, Debug)]
pub enum AfterClose {
    /// Connect anew and send the request once more.
    Resend,
    /// Answer that no backend responds.
    Refuse(Refusal),
    /// Drop the connection: part of a response was read.
    Drop,
}

/// What follows the end of a backend's connection before the response head. A kept connection that
/// answered nothing has gone stale: the request is sent anew, once, where it can be. Otherwise the
/// client is told, unless part of a response was read.
pub open spec fn close_step(w: ResponseWait, can_replay: bool) -> (AfterClose, ResponseWait) {
    if w.pos > 0 {
        (AfterClose::Drop, w)
    } else if w.kept && !w.retried && can_replay {
        (AfterClose::Resend, ResponseWait { pos: 0, kept: false, retried: true })
    } else {
        (AfterClose::Refuse(Refusal::BadGateway), w)
    }
}

impl ResponseWait {
    /// Nothing read yet.
    pub fn new(kept: bool) -> (r: ResponseWait)
        ensures
            r == (ResponseWait { pos: 0, kept, retried: false }),
    {
        ResponseWait { pos: 0, kept, retried: false }
    }

    /// The backend closed the connection.
    pub fn closed(&mut self, can_replay: bool) -> (r: AfterClose)
        ensures
            (r, *final(self)) == close_step(*old(self), can_replay),
    {
        if self.pos > 0 {
            return AfterClose::Drop;
        }
        if self.kept && !self.retried && can_replay {
            self.kept = false;
            self.retried = true;
            return AfterClose::Resend;
        }
        AfterClose::Refuse(Refusal::BadGateway)
    }

    /// The backend sent `n` bytes.
    pub fn received(&mut self, n: usize)
        requires
            old(self).pos + n <= BUF_SIZE,
        ensures
            *final(self) == (ResponseWait { pos: (old(self).pos + n) as usize, ..*old(self) }),
    {
        self.pos = self.pos + n;
    }

    /// An interim response of `n` bytes was passed on.
    pub fn passed_interim(&mut self, n: usize)
        requires
            n <= old(self).pos,
        ensures
            *final(self) == (ResponseWait { pos: (old(self).pos - n) as usize, ..*old(self) }),
    {
        self.pos = self.pos - n;
    }

    /// Whether a head that has not ended fills the buffer.
    pub fn is_full(&self) -> (r: bool)
        ensures
            r == (self.pos == BUF_SIZE),
    {
        self.pos == BUF_SIZE
    }
}

/// A request is sent anew at most once, and only on a kept connection that answered nothing: once it
/// was, no later end of a connection leads there again.
pub proof fn law_resent_at_most_once(
    w: ResponseWait,
    can_replay: bool,
    later: ResponseWait,
    again: bool,
)
    requires
        close_step(w, can_replay).0 == AfterClose::Resend,
        later.retried == close_step(w, can_replay).1.retried,
    ensures
        w.pos == 0 && w.kept && can_replay,
        close_step(later, again).0 != AfterClose::Resend,
        close_step(later, again).1.retried,
{
}

/// Whether the beginning of a response rules out an interim one: it has a status line, and its
/// status does not start with 1, or it has none.
pub open spec fn surely_final(b: Seq<u8>) -> bool {
    b.len() >= 12 && !(b.take(7) == "HTTP/1.".spec_bytes() && b[8] == 32 && b[9] == 49)
}

/// The length of an interim response at the beginning of some bytes: one with a status from 100 to
/// 199, but for 101, which switches protocols.
pub open spec fn interim(b: Seq<u8>) -> Option<usize> {
    if surely_final(b) {
        None
    } else {
        match http::parsed_response(b) {
            Parsed::Complete(h, n) => if is_interim(h.code) {
                Some(n)
            } else {
                None
            },
            _ => None,
        }
    }
}

/// Whether a status is that of an interim response.
pub open spec fn is_interim(code: Option<u16>) -> bool {
    code matches Some(c) && 100 <= c <= 199 && c != 101
}

/// Whether a status is that of an interim response.
pub fn interim_status(code: Option<u16>) -> (r: bool)
    ensures
        r == is_interim(code),
{
    match code {
        Some(c) => 100 <= c && c <= 199 && c != 101,
        None => false,
    }
}

/// The length of an interim response at the beginning of some bytes.
pub fn interim_len(b: &[u8]) -> (r: Option<usize>)
    ensures
        r == interim(b@),
        r matches Some(n) ==> 0 < n <= b@.len(),
{
    if b.len() >= 12 {
        proof {
            reveal_strlit("HTTP/1.");
            assert("HTTP/1.".is_ascii());
        }
        assert(b@.subrange(0, 7) =~= b@.take(7));
        if !(bytes_eq(&b[0..7], "HTTP/1.".as_bytes()) && b[8] == 32 && b[9] == 49) {
            return None;
        }
    }
    match parse_response(b) {
        Parsed::Complete(h, n) => if interim_status(h.code) {
            Some(n)
        } else {
            None
        },
        _ => None,
    }
}

// ---------------------------------------------------------------------------
// What a response comes to
// ---------------------------------------------------------------------------

/// The last valid `Content-Length` of a response.
pub open spec fn response_length(hs: Seq<http::Field>) -> Option<nat>
    decreases hs.len(),
{
    if hs.len() == 0 {
        None
    } else if http::named(hs.last(), "content-length") && http::length_value(hs.last().value)
        is Some {
        http::length_value(hs.last().value)
    } else {
        response_length(hs.drop_last())
    }
}

/// Whether a `Vary` field names nothing but `Accept-Encoding`.
pub open spec fn vary_safe(v: Seq<u8>) -> bool {
    &&& http::value_text(v) matches Some(s)
    &&& forall|i: int|
        0 <= i < text::split(s, ',').len() ==> is_accept_encoding(
            #[trigger] text::split(s, ',')[i],
        )
}

/// Whether a part of a `Vary` field names `Accept-Encoding`.
pub open spec fn is_accept_encoding(part: Seq<char>) -> bool {
    text::eq_ci(encode_utf8(text::trim(part)), "accept-encoding".spec_bytes())
}

/// Whether a field keeps a response out of the cache: it sets a cookie, it varies with more than the
/// encoding, or it forbids it.
pub open spec fn forbids_storing(h: http::Field) -> bool {
    ||| http::named(h, "set-cookie")
    ||| http::named(h, "vary") && !vary_safe(h.value)
    ||| http::named(h, "cache-control") && (http::mentions(h.value, "no-cache") || http::mentions(
        h.value,
        "no-store",
    ) || http::mentions(h.value, "private"))
}

/// Whether some field keeps a response out of the cache.
pub open spec fn storing_forbidden(hs: Seq<http::Field>) -> bool {
    exists|i: int| 0 <= i < hs.len() && forbids_storing(#[trigger] hs[i])
}

/// The age that a `Cache-Control` value gives: the number behind the first `max-age=`, up to a
/// comma.
pub open spec fn max_age(v: Seq<u8>) -> Option<nat> {
    match header_util::search_ci(v, "max-age=".spec_bytes(), 0) {
        Some(k) => {
            match http::value_text(v.skip(k + 8)) {
                Some(rest) => text::parse_unsigned(
                    encode_utf8(text::trim(rest.take(text::find(rest, ',')))),
                    10,
                    u64::MAX as nat,
                ),
                None => None,
            }
        },
        None => None,
    }
}

/// How long a response is kept, in seconds: as its last `max-age` says, or else as the route does.
pub open spec fn ttl_of(hs: Seq<http::Field>, default: u64) -> nat
    decreases hs.len(),
{
    if hs.len() == 0 {
        default as nat
    } else if http::named(hs.last(), "cache-control") && max_age(hs.last().value) is Some {
        max_age(hs.last().value)->0
    } else {
        ttl_of(hs.drop_last(), default)
    }
}

/// Whether some `Connection` field of a response says `close`.
pub open spec fn says_close(hs: Seq<http::Field>) -> bool {
    exists|i: int| 0 <= i < hs.len() && closes(#[trigger] hs[i])
}

/// Whether a field is a `Connection` that says `close`.
pub open spec fn closes(h: http::Field) -> bool {
    http::named(h, "connection") && http::mentions(h.value, "close")
}

/// Whether a status has no body.
pub open spec fn bodiless(code: u16) -> bool {
    code == 204 || code == 304 || 100 <= code <= 199
}

/// The length of the body of a response, where its fields tell it: under chunked coding the chunks
/// do, whatever a `Content-Length` says.
pub open spec fn body_length(hs: Seq<http::Field>) -> Option<nat> {
    if http::chunked_response(hs) {
        None
    } else {
        response_length(hs)
    }
}

/// Whether the body of a response ends only with the connection.
pub open spec fn ends_with_connection(code: u16, hs: Seq<http::Field>) -> bool {
    !http::chunked_response(hs) && response_length(hs) is None && !bodiless(code)
}

/// How a response that may be stored is kept.
pub struct Keep {
    /// Bytes that the copy may take.
    pub max_size: usize,
    /// Seconds for which it may be served.
    pub ttl: u64,
    pub etag: Option<String>,
    pub last_modified: Option<String>,
}

/// What a response comes to.
pub struct Analysis {
    pub code: u16,
    /// Length of the body, where it is not chunked and the response tells it.
    pub clen: Option<usize>,
    pub chunked: bool,
    /// Whether the body ends only with the connection.
    pub eof_body: bool,
    /// Whether the client's connection continues.
    pub client_keep_alive: bool,
    /// Whether the backend's connection continues.
    pub backend_keep_alive: bool,
    /// How the response is kept, where it is.
    pub keep: Option<Keep>,
}

/// The status of a response.
pub open spec fn code_of(resp: http::ResponseFields) -> u16 {
    match resp.code {
        Some(c) => c,
        None => 502,
    }
}

/// Whether a response may be stored.
pub open spec fn storable(resp: http::ResponseFields) -> bool {
    &&& code_of(resp) == 200
    &&& !storing_forbidden(resp.headers)
    &&& !ends_with_connection(200, resp.headers)
}

/// Whether an analysis says what a response comes to.
pub open spec fn analysis_is(
    a: Analysis,
    resp: http::ResponseFields,
    store: Option<RouteCache>,
    client_keep_alive: bool,
    draining: bool,
) -> bool {
    let hs = resp.headers;
    let eof = ends_with_connection(code_of(resp), hs);
    &&& a.code == code_of(resp)
    &&& match a.clen {
        Some(n) => body_length(hs) == Some(n as nat),
        None => body_length(hs) is None,
    }
    &&& a.chunked == http::chunked_response(hs)
    &&& a.eof_body == eof
    &&& a.client_keep_alive == (client_keep_alive && !eof && !draining)
    &&& a.backend_keep_alive == !says_close(hs)
    &&& match (a.keep, store) {
        (Some(k), Some(c)) => {
            &&& storable(resp)
            &&& k.max_size == c.max_size
            &&& k.ttl == ttl_of(hs, c.ttl)
            &&& config::opt_text(k.etag) == cache::last_text(hs, "etag")
            &&& config::opt_text(k.last_modified) == cache::last_text(hs, "last-modified")
        },
        (None, Some(_)) => !storable(resp),
        (None, None) => true,
        (Some(_), None) => false,
    }
}

fn is_vary_safe(v: &[u8]) -> (r: bool)
    ensures
        r == vary_safe(v@),
{
    let s = match text_of(v) {
        Some(s) => s,
        None => return false,
    };
    let parts = split_str(s, ',');
    let ghost ps = text::split(s@, ',');
    for i in 0..parts.len()
        invariant
            ps == text::split(s@, ','),
            text::views(parts@) == ps,
            http::value_text(v@) == Some(s@),
            forall|j: int| 0 <= j < i ==> is_accept_encoding(#[trigger] ps[j]),
    {
        assert(text::views(parts@)[i as int] == parts@[i as int]@);
        if !str_eq_ci(trim_str(parts[i]), "accept-encoding") {
            assert(!is_accept_encoding(text::split(http::value_text(v@)->0, ',')[i as int]));
            return false;
        }
    }
    true
}

fn forbids(h: &Header) -> (r: bool)
    ensures
        r == forbids_storing(h@),
{
    if str_eq_ci(h.name, "set-cookie") {
        return true;
    }
    if str_eq_ci(h.name, "vary") && !is_vary_safe(h.value) {
        return true;
    }
    str_eq_ci(h.name, "cache-control") && (contains_ci(h.value, "no-cache".as_bytes())
        || contains_ci(h.value, "no-store".as_bytes()) || contains_ci(
        h.value,
        "private".as_bytes(),
    ))
}

fn read_max_age(v: &[u8]) -> (r: Option<u64>)
    ensures
        match r {
            Some(n) => max_age(v@) == Some(n as nat),
            None => max_age(v@) is None,
        },
{
    proof {
        reveal_strlit("max-age=");
        assert("max-age=".is_ascii());
    }
    let n: usize = v.len();
    let k: usize = match find_ci(v, "max-age=".as_bytes()) {
        Some(k) => k,
        None => return None,
    };
    assert(v@.subrange(k + 8, n as int) =~= v@.skip(k + 8));
    let rest = match text_of(&v[k + 8..n]) {
        Some(s) => s,
        None => return None,
    };
    proof {
        text::lemma_find(rest@, ',');
    }
    let first = match split_once(rest, ',') {
        Some((a, _)) => a,
        None => rest,
    };
    assert(first@ =~= rest@.take(text::find(rest@, ',')));
    read_unsigned(trim_str(first).as_bytes(), 10, u64::MAX)
}

fn owned_text(s: Option<&str>) -> (r: Option<String>)
    ensures
        config::opt_text(r) == http::opt_view(s),
{
    match s {
        Some(t) => Some(t.to_owned()),
        None => None,
    }
}

/// What a response comes to. `store` says how the route caches, where this response may be stored
/// at all, and `draining` whether the worker is about to end.
pub fn analyze(
    resp: &ResponseHead,
    store: Option<RouteCache>,
    client_keep_alive: bool,
    draining: bool,
) -> (r: Analysis)
    ensures
        analysis_is(r, resp@, store, client_keep_alive, draining),
{
    let headers = resp.headers.as_slice();
    let ghost hs = resp@.headers;
    let code: u16 = match resp.code {
        Some(c) => c,
        None => 502,
    };
    let mut clen: Option<usize> = None;
    let mut chunked: bool = false;
    let mut closing: bool = false;
    let mut forbidden: bool = false;
    let mut ttl: u64 = match store {
        Some(c) => c.ttl,
        None => 0,
    };
    let ghost default = ttl;
    for i in 0..headers.len()
        invariant
            headers@ == resp.headers@,
            hs == http::fields(headers@),
            match clen {
                Some(n) => response_length(hs.take(i as int)) == Some(n as nat),
                None => response_length(hs.take(i as int)) is None,
            },
            chunked == exists|j: int| 0 <= j < i && http::chunked_field(#[trigger] hs[j]),
            closing == exists|j: int| 0 <= j < i && closes(#[trigger] hs[j]),
            forbidden == exists|j: int| 0 <= j < i && forbids_storing(#[trigger] hs[j]),
            ttl == ttl_of(hs.take(i as int), default),
    {
        let h = &headers[i];
        proof {
            assert(hs[i as int] == h@);
            assert(hs.take(i + 1).drop_last() =~= hs.take(i as int));
            assert(hs.take(i + 1).last() == h@);
        }
        if str_eq_ci(h.name, "content-length") {
            if let Some(n) = read_length(h.value) {
                clen = Some(n);
            }
        }
        if is_chunked_field(h) {
            assert(http::chunked_field(hs[i as int]));
            chunked = true;
        }
        if forbids(h) {
            assert(forbids_storing(hs[i as int]));
            forbidden = true;
        }
        if str_eq_ci(h.name, "cache-control") {
            if let Some(n) = read_max_age(h.value) {
                ttl = n;
            }
        }
        if str_eq_ci(h.name, "connection") && contains_ci(h.value, "close".as_bytes()) {
            assert(closes(hs[i as int]));
            closing = true;
        }
    }
    assert(hs.take(hs.len() as int) =~= hs);
    if chunked {
        clen = None;
    }
    let eof_body = !chunked && clen.is_none() && !(code == 204 || code == 304 || (100 <= code && code
        <= 199));
    let keep = match store {
        Some(c) => if code == 200 && !forbidden && !eof_body {
            Some(
                Keep {
                    max_size: c.max_size,
                    ttl,
                    etag: owned_text(cache::last_header_text(headers, "etag")),
                    last_modified: owned_text(cache::last_header_text(headers, "last-modified")),
                },
            )
        } else {
            None
        },
        None => None,
    };
    Analysis {
        code,
        clen,
        chunked,
        eof_body,
        client_keep_alive: client_keep_alive && !eof_body && !draining,
        backend_keep_alive: !closing,
        keep,
    }
}

/// What the bytes that came from a backend amount to.
pub enum Examined<'a> {
    /// An interim response of the given length comes first.
    Interim(usize),
    /// There is no whole head yet, or none that can be read.
    Incomplete,
    /// The backend switches protocols.
    Switch,
    /// A head of the given length, and what it comes to.
    Final(ResponseHead<'a>, usize, Analysis),
}

/// Examines the bytes that came from a backend, interim responses first.
pub fn examine<'a>(
    b: &'a [u8],
    store: Option<RouteCache>,
    client_keep_alive: bool,
    draining: bool,
) -> (r: Examined<'a>)
    ensures
        match r {
            Examined::Interim(n) => interim(b@) == Some(n) && 0 < n <= b@.len(),
            Examined::Incomplete => interim(b@) is None && !(http::parsed_response(b@)
                is Complete),
            Examined::Switch => {
                &&& interim(b@) is None
                &&& http::parsed_response(b@) matches Parsed::Complete(h, _)
                &&& h.code == Some(101u16)
            },
            Examined::Final(head, n, a) => {
                &&& interim(b@) is None
                &&& http::parsed_response(b@) == Parsed::Complete(head@, n)
                &&& 0 < n <= b@.len()
                &&& head.code != Some(101u16)
                &&& analysis_is(a, head@, store, client_keep_alive, draining)
            },
        },
{
    if let Some(n) = interim_len(b) {
        return Examined::Interim(n);
    }
    match parse_response(b) {
        Parsed::Complete(head, n) => {
            if let Some(c) = head.code {
                if c == 101 {
                    return Examined::Switch;
                }
            }
            let a = analyze(&head, store, client_keep_alive, draining);
            Examined::Final(head, n, a)
        },
        _ => Examined::Incomplete,
    }
}

// ---------------------------------------------------------------------------
// Passing the response on
// ---------------------------------------------------------------------------

/// Whether a response of declared length is there as a whole: `pos` bytes were read, of which the
/// head takes `head_len`.
pub fn body_buffered(clen: Option<usize>, pos: usize, head_len: usize) -> (r: bool)
    requires
        head_len <= pos,
    ensures
        r == (clen matches Some(n) && pos >= head_len + n),
{
    match clen {
        Some(n) => pos - head_len >= n,
        None => false,
    }
}

/// Whether a response is written at once: it is there as a whole, and its head, which takes
/// `head_len` bytes for the client, fits a buffer of `room` bytes together with its body.
pub fn answers_whole(
    clen: Option<usize>,
    pos: usize,
    raw_len: usize,
    head_len: usize,
    room: usize,
) -> (r: bool)
    requires
        raw_len <= pos,
    ensures
        r == (clen matches Some(n) && pos >= raw_len + n && head_len + n <= room),
{
    match clen {
        Some(n) => body_buffered(clen, pos, raw_len) && n <= room && head_len <= room - n,
        None => false,
    }
}

/// The copy of a response for the cache begins with its head, where that fits.
pub fn begin_copy(head: &[u8], limit: usize) -> (r: Option<Vec<u8>>)
    ensures
        pipe::opt_bytes(r) == pipe::cache_after(Some(Seq::<u8>::empty()), head@, limit as nat),
{
    let mut copy: Option<Vec<u8>> = Some(Vec::new());
    assert(pipe::opt_bytes(copy)->0 =~= Seq::<u8>::empty());
    pipe::extend_cache(&mut copy, head, limit);
    copy
}

/// The cache entry of a response, which may be served until its time is over, counted from `now`
/// nanoseconds.
pub fn cache_entry(copy: Vec<u8>, keep: Keep, now: u64) -> (r: CacheEntry)
    ensures
        r@ == (cache::CacheModel {
            data: copy@,
            expires_at: now + keep.ttl * NANOS,
            etag: config::opt_text(keep.etag),
            last_modified: config::opt_text(keep.last_modified),
        }),
{
    assert(0 <= keep.ttl * NANOS <= u64::MAX * NANOS) by (nonlinear_arith)
        requires
            0 <= keep.ttl <= u64::MAX,
            NANOS == 1_000_000_000,
    ;
    let expires_at: u128 = now as u128 + keep.ttl as u128 * NANOS as u128;
    CacheEntry { data: copy, expires_at, etag: keep.etag, last_modified: keep.last_modified }
}

/// Whether a backend's connection is kept after a response: some are kept, there is room for one
/// more, and the response did not end it.
pub fn keep_connection(
    pool_size: usize,
    kept: usize,
    backend_keep_alive: bool,
    eof_body: bool,
) -> (r: bool)
    ensures
        r == (kept < pool_size && backend_keep_alive && !eof_body),
{
    pool_size > 0 && backend_keep_alive && !eof_body && kept < pool_size
}

// ---------------------------------------------------------------------------
// Laws
// ---------------------------------------------------------------------------

/// A client is never told that its connection continues where it could not tell the end of the
/// body, or the worker is about to end.
pub proof fn law_unframed_response_closes(
    a: Analysis,
    resp: http::ResponseFields,
    store: Option<RouteCache>,
    client_keep_alive: bool,
    draining: bool,
)
    requires
        analysis_is(a, resp, store, client_keep_alive, draining),
    ensures
        ends_with_connection(code_of(resp), resp.headers) || draining || !client_keep_alive
            ==> !a.client_keep_alive,
{
}

/// A chunked response has no length that could cut it short: whatever its `Content-Length` says,
/// its chunks alone tell where it ends.
pub proof fn law_chunked_wins_over_length(
    a: Analysis,
    resp: http::ResponseFields,
    store: Option<RouteCache>,
    client_keep_alive: bool,
    draining: bool,
)
    requires
        analysis_is(a, resp, store, client_keep_alive, draining),
        http::chunked_response(resp.headers),
    ensures
        a.chunked,
        a.clen is None,
        !a.eof_body,
{
}

/// What is stored is a complete `200` response, whose end either its length or its chunks tell, that
/// sets no cookie, varies with nothing but the encoding, and does not forbid it.
pub proof fn law_stored_response_is_shareable(
    a: Analysis,
    resp: http::ResponseFields,
    store: Option<RouteCache>,
    client_keep_alive: bool,
    draining: bool,
)
    requires
        analysis_is(a, resp, store, client_keep_alive, draining),
        a.keep is Some,
    ensures
        store is Some,
        code_of(resp) == 200,
        !http::has_field(resp.headers, "set-cookie"),
        forall|i: int|
            0 <= i < resp.headers.len() && http::named(#[trigger] resp.headers[i], "vary")
                ==> vary_safe(resp.headers[i].value),
        a.chunked != (a.clen is Some),
{
    let hs = resp.headers;
    if http::has_field(hs, "set-cookie") {
        let i = choose|i: int| 0 <= i < hs.len() && http::named(#[trigger] hs[i], "set-cookie");
        assert(forbids_storing(hs[i]));
    }
    assert forall|i: int| 0 <= i < hs.len() && http::named(#[trigger] hs[i], "vary") implies
        vary_safe(hs[i].value) by {
        assert(!forbids_storing(hs[i]));
    }
}

} // verus!
