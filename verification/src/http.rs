//! Message heads: parsing, framing and the heads that the proxy sends on.

use vstd::prelude::*;
use vstd::string::*;
use vstd::utf8::*;

use crate::header_util;
use crate::header_util::{buf_put, contains_ci, te_is_chunked, HeaderFragment};
use crate::net::IpAddr;
use crate::path;
use crate::path::path_has_separator_evasion;
use crate::text;
use crate::text::{
    bytes_eq_ci, from_utf8, plus, push_bytes, read_digits, split_once, str_eq, str_eq_ci,
    strip_prefix, trim_str,
};

verus! {

/// Most header fields that a head may have.
pub const MAX_HEADERS: usize = 64;

/// One header field.
pub struct Header<'a> {
    pub name: &'a str,
    pub value: &'a [u8],
}

/// The bytes of one header field.
pub struct Field {
    pub name: Seq<u8>,
    pub value: Seq<u8>,
}

impl<'a> View for Header<'a> {
    type V = Field;

    open spec fn view(&self) -> Field {
        Field { name: self.name.spec_bytes(), value: self.value@ }
    }
}

/// The bytes of a sequence of header fields.
pub open spec fn fields(hs: Seq<Header>) -> Seq<Field> {
    Seq::new(hs.len(), |i: int| hs[i]@)
}

/// The head of a request.
pub struct RequestHead<'a> {
    pub method: Option<&'a str>,
    pub path: Option<&'a str>,
    pub version: Option<u8>,
    pub headers: Vec<Header<'a>>,
}

/// What the head of a request holds.
pub struct RequestFields {
    pub method: Option<Seq<char>>,
    pub path: Option<Seq<char>>,
    pub version: Option<u8>,
    pub headers: Seq<Field>,
}

/// The text of an optional string slice.
pub open spec fn opt_view(s: Option<&str>) -> Option<Seq<char>> {
    match s {
        Some(t) => Some(t@),
        None => None,
    }
}

impl<'a> View for RequestHead<'a> {
    type V = RequestFields;

    open spec fn view(&self) -> RequestFields {
        RequestFields {
            method: opt_view(self.method),
            path: opt_view(self.path),
            version: self.version,
            headers: fields(self.headers@),
        }
    }
}

/// The head of a response.
pub struct ResponseHead<'a> {
    pub code: Option<u16>,
    pub reason: Option<&'a str>,
    pub headers: Vec<Header<'a>>,
}

/// What the head of a response holds.
pub struct ResponseFields {
    pub code: Option<u16>,
    pub reason: Option<Seq<char>>,
    pub headers: Seq<Field>,
}

impl<'a> View for ResponseHead<'a> {
    type V = ResponseFields;

    open spec fn view(&self) -> ResponseFields {
        ResponseFields {
            code: self.code,
            reason: opt_view(self.reason),
            headers: fields(self.headers@),
        }
    }
}

/// What parsing a head gives: the head and its length, nothing yet, or a refusal.
pub enum Parsed<T> {
    Complete(T, usize),
    Partial,
    Invalid,
}

/// What `httparse::Request::parse`, with room for [`MAX_HEADERS`] fields, makes of some bytes.
pub uninterp spec fn parsed_request(buf: Seq<u8>) -> Parsed<RequestFields>;

/// What `httparse::Response::parse`, with room for [`MAX_HEADERS`] fields, makes of some bytes.
pub uninterp spec fn parsed_response(buf: Seq<u8>) -> Parsed<ResponseFields>;

/// What a parsed request head holds.
pub open spec fn request_outcome(p: Parsed<RequestHead>) -> Parsed<RequestFields> {
    match p {
        Parsed::Complete(h, n) => Parsed::Complete(h@, n),
        Parsed::Partial => Parsed::Partial,
        Parsed::Invalid => Parsed::Invalid,
    }
}

/// What a parsed response head holds.
pub open spec fn response_outcome(p: Parsed<ResponseHead>) -> Parsed<ResponseFields> {
    match p {
        Parsed::Complete(h, n) => Parsed::Complete(h@, n),
        Parsed::Partial => Parsed::Partial,
        Parsed::Invalid => Parsed::Invalid,
    }
}

/// `httparse::Request::parse`: the head at the beginning of `buf`. A complete head is not empty,
/// no longer than `buf`, and has a method, a target and a version. What heads the crate accepts is
/// not stated.
#[verifier::external_body]
fn httparse_request<'a>(buf: &'a [u8]) -> (r: Parsed<RequestHead<'a>>)
    ensures
        request_outcome(r) == parsed_request(buf@),
        r matches Parsed::Complete(h, n) ==> 0 < n <= buf@.len() && h.method is Some && h.path is Some
            && h.version is Some,
{
    let mut room = [httparse::EMPTY_HEADER; MAX_HEADERS];
    let mut req = httparse::Request::new(&mut room);
    match req.parse(buf) {
        Ok(httparse::Status::Complete(n)) => {
            let headers = req.headers.iter().map(|h| Header { name: h.name, value: h.value });
            let (method, path, version) = (req.method, req.path, req.version);
            Parsed::Complete(RequestHead { method, path, version, headers: headers.collect() }, n)
        }
        Ok(httparse::Status::Partial) => Parsed::Partial,
        Err(_) => Parsed::Invalid,
    }
}

/// `httparse::Response::parse`: the head at the beginning of `buf`. A complete head is not empty,
/// no longer than `buf`, and has a status. What heads the crate accepts is not stated.
#[verifier::external_body]
fn httparse_response<'a>(buf: &'a [u8]) -> (r: Parsed<ResponseHead<'a>>)
    ensures
        response_outcome(r) == parsed_response(buf@),
        r matches Parsed::Complete(h, n) ==> 0 < n <= buf@.len() && h.code is Some,
{
    let mut room = [httparse::EMPTY_HEADER; MAX_HEADERS];
    let mut resp = httparse::Response::new(&mut room);
    match resp.parse(buf) {
        Ok(httparse::Status::Complete(n)) => {
            let headers = resp.headers.iter().map(|h| Header { name: h.name, value: h.value });
            let (code, reason) = (resp.code, resp.reason);
            Parsed::Complete(ResponseHead { code, reason, headers: headers.collect() }, n)
        }
        Ok(httparse::Status::Partial) => Parsed::Partial,
        Err(_) => Parsed::Invalid,
    }
}

/// The request head at the beginning of `buf`.
pub fn parse_request<'a>(buf: &'a [u8]) -> (r: Parsed<RequestHead<'a>>)
    ensures
        request_outcome(r) == parsed_request(buf@),
        r matches Parsed::Complete(h, n) ==> 0 < n <= buf@.len() && h.method is Some && h.path is Some
            && h.version is Some,
{
    httparse_request(buf)
}

/// The response head at the beginning of `buf`.
pub fn parse_response<'a>(buf: &'a [u8]) -> (r: Parsed<ResponseHead<'a>>)
    ensures
        response_outcome(r) == parsed_response(buf@),
        r matches Parsed::Complete(h, n) ==> 0 < n <= buf@.len() && h.code is Some,
{
    httparse_response(buf)
}

// ---------------------------------------------------------------------------
// Fields by name
// ---------------------------------------------------------------------------

/// Whether a field has the given name, up to the case of ASCII letters.
pub open spec fn named(f: Field, name: &str) -> bool {
    text::eq_ci(f.name, name.spec_bytes())
}

/// Whether any field has the given name.
pub open spec fn has_field(hs: Seq<Field>, name: &str) -> bool {
    exists|i: int| 0 <= i < hs.len() && named(#[trigger] hs[i], name)
}

/// Number of fields with the given name.
pub open spec fn count_field(hs: Seq<Field>, name: &str) -> nat
    decreases hs.len(),
{
    if hs.len() == 0 {
        0
    } else {
        count_field(hs.drop_last(), name) + (if named(hs.last(), name) {
            1nat
        } else {
            0nat
        })
    }
}

/// Whether any field has the given name.
pub fn has_header(hs: &[Header], name: &str) -> (r: bool)
    ensures
        r == has_field(fields(hs@), name),
{
    for i in 0..hs.len()
        invariant
            forall|j: int| 0 <= j < i ==> !named(#[trigger] fields(hs@)[j], name),
    {
        if str_eq_ci(hs[i].name, name) {
            assert(named(fields(hs@)[i as int], name));
            return true;
        }
    }
    false
}

/// The text of a value, where it is valid UTF-8.
pub open spec fn value_text(v: Seq<u8>) -> Option<Seq<char>> {
    if valid_utf8(v) {
        Some(decode_utf8(v))
    } else {
        None
    }
}

/// The text of a value, where it is valid UTF-8.
pub fn text_of<'a>(v: &'a [u8]) -> (r: Option<&'a str>)
    ensures
        opt_view(r) == value_text(v@),
        r matches Some(s) ==> s.spec_bytes() == v@,
{
    let r = from_utf8(v);
    proof {
        if let Some(s) = r {
            encode_utf8_decode_utf8(s@);
            encode_utf8_valid_utf8(s@);
        }
    }
    r
}

// ---------------------------------------------------------------------------
// Request framing
// ---------------------------------------------------------------------------

/// The length that a `Content-Length` value gives: digits alone, up to surrounding whitespace.
pub open spec fn length_value(v: Seq<u8>) -> Option<nat> {
    match value_text(v) {
        Some(s) => text::parse_digits(encode_utf8(text::trim(s)), 10, usize::MAX as nat),
        None => None,
    }
}

/// The length that a `Content-Length` value gives.
pub fn read_length(v: &[u8]) -> (r: Option<usize>)
    ensures
        match r {
            Some(n) => length_value(v@) == Some(n as nat),
            None => length_value(v@) is None,
        },
{
    match text_of(v) {
        Some(s) => match read_digits(trim_str(s).as_bytes(), 10, usize::MAX as u64) {
            Some(n) => Some(n as usize),
            None => None,
        },
        None => None,
    }
}

/// The lengths that the well-formed `Content-Length` fields give, in order.
pub open spec fn lengths(hs: Seq<Field>) -> Seq<nat>
    decreases hs.len(),
{
    if hs.len() == 0 {
        seq![]
    } else if named(hs.last(), "content-length") && length_value(hs.last().value) is Some {
        lengths(hs.drop_last()).push(length_value(hs.last().value)->0)
    } else {
        lengths(hs.drop_last())
    }
}

/// Whether some `Content-Length` field is malformed, or two of them disagree.
pub open spec fn bad_length(hs: Seq<Field>) -> bool {
    ||| exists|i: int|
        0 <= i < hs.len() && named(#[trigger] hs[i], "content-length") && length_value(hs[i].value)
            is None
    ||| exists|i: int| 0 < i < lengths(hs).len() && #[trigger] lengths(hs)[i] != lengths(hs)[0]
}

/// Whether a `Transfer-Encoding` value is the one coding `chunked`.
pub open spec fn bare_chunked(v: Seq<u8>) -> bool {
    match value_text(v) {
        Some(s) => text::eq_ci(encode_utf8(text::trim(s)), "chunked".spec_bytes()),
        None => false,
    }
}

/// Whether every `Transfer-Encoding` field is a bare `chunked`.
pub open spec fn codings_bare(hs: Seq<Field>) -> bool {
    forall|i: int|
        0 <= i < hs.len() && named(#[trigger] hs[i], "transfer-encoding") ==> bare_chunked(
            hs[i].value,
        )
}

/// Whether a request is chunked: it has exactly one `Transfer-Encoding` field, and that is a bare
/// `chunked`.
pub open spec fn chunked_request(hs: Seq<Field>) -> bool {
    count_field(hs, "transfer-encoding") == 1 && codings_bare(hs)
}

/// The last `Host` value that is valid UTF-8; empty where there is none.
pub open spec fn host_of(hs: Seq<Field>) -> Seq<char>
    decreases hs.len(),
{
    if hs.len() == 0 {
        seq![]
    } else if named(hs.last(), "host") && value_text(hs.last().value) is Some {
        value_text(hs.last().value)->0
    } else {
        host_of(hs.drop_last())
    }
}

/// Whether a value contains a token, up to the case of ASCII letters.
pub open spec fn mentions(v: Seq<u8>, token: &str) -> bool {
    header_util::search_ci(v, token.spec_bytes(), 0) is Some
}

/// Whether the client connection may stay open: the last `Connection` field that says `close` or
/// `keep-alive` decides, otherwise the version.
pub open spec fn keeps_alive(hs: Seq<Field>, version: Option<u8>) -> bool
    decreases hs.len(),
{
    if hs.len() == 0 {
        version == Some(1u8)
    } else if named(hs.last(), "connection") && mentions(hs.last().value, "close") {
        false
    } else if named(hs.last(), "connection") && mentions(hs.last().value, "keep-alive") {
        true
    } else {
        keeps_alive(hs.drop_last(), version)
    }
}

/// Whether the target is neither in origin form nor `*`, or carries a fragment.
pub open spec fn bad_target(target: Option<Seq<char>>) -> bool {
    match target {
        Some(p) => (!"/"@.is_prefix_of(p) && p != "*"@) || p.contains('#'),
        None => false,
    }
}

/// Whether a request is refused for its framing, its `Host` or its target.
pub open spec fn bad_request(
    hs: Seq<Field>,
    version: Option<u8>,
    target: Option<Seq<char>>,
    reject_encoded_slash: bool,
) -> bool {
    ||| bad_length(hs)
    ||| (has_field(hs, "transfer-encoding") && !chunked_request(hs))
    ||| count_field(hs, "host") > 1
    ||| (count_field(hs, "host") == 0 && version == Some(1u8))
    ||| bad_target(target)
    ||| (reject_encoded_slash && target is Some && path::evasive(encode_utf8(target->0)))
    ||| (lengths(hs).len() > 1 && chunked_request(hs))
}

/// What the framing of a request comes to.
pub struct FramingResult<'b> {
    pub clen: usize,
    pub host_str: &'b str,
    pub client_keep_alive: bool,
    pub is_chunked: bool,
    /// Ambiguous `Transfer-Encoding`, duplicate or missing `Host`, an illegal or evasive target,
    /// or a malformed or conflicting `Content-Length`.
    pub bad_request: bool,
}

proof fn lemma_count_field(hs: Seq<Field>, name: &str)
    ensures
        count_field(hs, name) <= hs.len(),
        count_field(hs, name) > 0 <==> has_field(hs, name),
    decreases hs.len(),
{
    if hs.len() > 0 {
        let t = hs.drop_last();
        lemma_count_field(t, name);
        if has_field(t, name) {
            let i = choose|i: int| 0 <= i < t.len() && named(#[trigger] t[i], name);
            assert(hs[i] == t[i]);
            assert(named(hs[i], name));
        }
        if has_field(hs, name) && !named(hs.last(), name) {
            let i = choose|i: int| 0 <= i < hs.len() && named(#[trigger] hs[i], name);
            assert(t[i] == hs[i]);
            assert(named(t[i], name));
        }
        if named(hs.last(), name) {
            assert(named(hs[hs.len() - 1], name));
        }
    }
}

proof fn lemma_lengths(hs: Seq<Field>)
    ensures
        lengths(hs).len() <= hs.len(),
    decreases hs.len(),
{
    if hs.len() > 0 {
        lemma_lengths(hs.drop_last());
    }
}

/// What the `Content-Length` fields read so far come to.
#[derive(Clone, Copy)]
struct LengthTally {
    clen: usize,
    count: usize,
    bad: bool,
}

impl LengthTally {
    spec fn of(self, hs: Seq<Field>) -> bool {
        &&& self.count == lengths(hs).len()
        &&& self.clen == (if self.count == 0 {
            0
        } else {
            lengths(hs).last()
        })
        &&& self.bad == bad_length(hs)
    }

    fn after(self, h: &Header, Ghost(pre): Ghost<Seq<Field>>) -> (r: LengthTally)
        requires
            self.of(pre),
            pre.len() < usize::MAX,
        ensures
            r.of(pre.push(h@)),
    {
        let ghost cur = pre.push(h@);
        proof {
            lemma_lengths(pre);
            assert(cur.drop_last() =~= pre);
        }
        if !str_eq_ci(h.name, "content-length") {
            proof {
                lemma_bad_length_step(cur);
            }
            return self;
        }
        match read_length(h.value) {
            Some(n) => {
                proof {
                    lemma_bad_length_step(cur);
                }
                LengthTally {
                    clen: n,
                    count: self.count + 1,
                    bad: self.bad || (self.count > 0 && n != self.clen),
                }
            },
            None => {
                proof {
                    assert(named(cur[pre.len() as int], "content-length"));
                    assert(bad_length(cur));
                }
                LengthTally { clen: self.clen, count: self.count, bad: true }
            },
        }
    }
}

/// What the `Transfer-Encoding` fields read so far come to.
#[derive(Clone, Copy)]
struct CodingTally {
    count: usize,
    bare: bool,
}

impl CodingTally {
    spec fn of(self, hs: Seq<Field>) -> bool {
        self.count == count_field(hs, "transfer-encoding") && self.bare == codings_bare(hs)
    }

    fn after(self, h: &Header, Ghost(pre): Ghost<Seq<Field>>) -> (r: CodingTally)
        requires
            self.of(pre),
            pre.len() < usize::MAX,
        ensures
            r.of(pre.push(h@)),
    {
        let ghost cur = pre.push(h@);
        proof {
            lemma_count_field(pre, "transfer-encoding");
            assert(cur.drop_last() =~= pre);
            lemma_codings_step(pre, h@);
        }
        if !str_eq_ci(h.name, "transfer-encoding") {
            return self;
        }
        let bare = match text_of(h.value) {
            Some(s) => str_eq_ci(trim_str(s), "chunked"),
            None => false,
        };
        CodingTally { count: self.count + 1, bare: self.bare && bare }
    }
}

proof fn lemma_codings_step(pre: Seq<Field>, f: Field)
    ensures
        codings_bare(pre.push(f)) == (codings_bare(pre) && (named(f, "transfer-encoding")
            ==> bare_chunked(f.value))),
{
    let cur = pre.push(f);
    assert(cur[pre.len() as int] == f);
    if codings_bare(cur) {
        assert forall|i: int|
            0 <= i < pre.len() && named(#[trigger] pre[i], "transfer-encoding") implies bare_chunked(
            pre[i].value,
        ) by {
            assert(cur[i] == pre[i]);
        }
    }
}

/// What the `Host` fields read so far come to.
#[derive(Clone, Copy)]
struct HostTally<'b> {
    count: usize,
    host: &'b str,
}

impl<'b> HostTally<'b> {
    spec fn of(self, hs: Seq<Field>) -> bool {
        self.count == count_field(hs, "host") && self.host@ == host_of(hs)
    }

    fn after(self, h: &Header<'b>, Ghost(pre): Ghost<Seq<Field>>) -> (r: HostTally<'b>)
        requires
            self.of(pre),
            pre.len() < usize::MAX,
        ensures
            r.of(pre.push(h@)),
    {
        proof {
            lemma_count_field(pre, "host");
            assert(pre.push(h@).drop_last() =~= pre);
        }
        if !str_eq_ci(h.name, "host") {
            return self;
        }
        let host = match text_of(h.value) {
            Some(s) => s,
            None => self.host,
        };
        HostTally { count: self.count + 1, host }
    }
}

/// Whether the client connection may stay open after one more field.
fn keep_alive_after(
    before: bool,
    h: &Header,
    version: Option<u8>,
    Ghost(pre): Ghost<Seq<Field>>,
) -> (r: bool)
    requires
        before == keeps_alive(pre, version),
    ensures
        r == keeps_alive(pre.push(h@), version),
{
    proof {
        assert(pre.push(h@).drop_last() =~= pre);
    }
    if !str_eq_ci(h.name, "connection") {
        before
    } else if contains_ci(h.value, "close".as_bytes()) {
        false
    } else {
        before || contains_ci(h.value, "keep-alive".as_bytes())
    }
}

/// Checks the framing of a request (`Content-Length`, `Transfer-Encoding`), its `Host` and its
/// target.
pub fn validate_request_framing<'b>(
    headers: &[Header<'b>],
    version: Option<u8>,
    path: Option<&'b str>,
    reject_encoded_slash: bool,
) -> (r: FramingResult<'b>)
    ensures
        r.bad_request == bad_request(
            fields(headers@),
            version,
            opt_view(path),
            reject_encoded_slash,
        ),
        r.clen == (if lengths(fields(headers@)).len() == 0 {
            0
        } else {
            lengths(fields(headers@)).last()
        }),
        r.host_str@ == host_of(fields(headers@)),
        r.client_keep_alive == keeps_alive(fields(headers@), version),
        r.is_chunked == chunked_request(fields(headers@)),
{
    let mut length = LengthTally { clen: 0, count: 0, bad: false };
    let mut coding = CodingTally { count: 0, bare: true };
    let mut host = HostTally { count: 0, host: "" };
    let mut client_keep_alive: bool = version == Some(1);
    let ghost hs = fields(headers@);
    proof {
        reveal_strlit("");
        assert(host.host@ =~= Seq::<char>::empty());
    }
    for i in 0..headers.len()
        invariant
            hs == fields(headers@),
            length.of(hs.take(i as int)),
            coding.of(hs.take(i as int)),
            host.of(hs.take(i as int)),
            client_keep_alive == keeps_alive(hs.take(i as int), version),
    {
        let h = &headers[i];
        let ghost pre = hs.take(i as int);
        proof {
            assert(hs[i as int] == h@);
            assert(hs.take(i + 1) =~= pre.push(h@));
        }
        length = length.after(h, Ghost(pre));
        coding = coding.after(h, Ghost(pre));
        host = host.after(h, Ghost(pre));
        client_keep_alive = keep_alive_after(client_keep_alive, h, version, Ghost(pre));
    }
    proof {
        assert(hs.take(hs.len() as int) =~= hs);
        lemma_count_field(hs, "transfer-encoding");
    }
    let is_chunked = coding.count == 1 && coding.bare;
    let te_ambiguous = coding.count > 0 && !is_chunked;
    let bad_host = host.count > 1 || (host.count == 0 && version == Some(1));
    let target_is_bad = match path {
        Some(p) => {
            proof {
                text::lemma_find(p@, '#');
            }
            (strip_prefix(p, "/").is_none() && !str_eq(p, "*")) || split_once(p, '#').is_some()
        },
        None => false,
    };
    let bad_encoded_sep = reject_encoded_slash && match path {
        Some(p) => path_has_separator_evasion(p.as_bytes()),
        None => false,
    };
    let bad_request = length.bad || te_ambiguous || bad_host || target_is_bad || bad_encoded_sep || (
    length.count > 1 && is_chunked);
    FramingResult {
        clen: length.clen,
        host_str: host.host,
        client_keep_alive,
        is_chunked,
        bad_request,
    }
}

/// How one more field changes whether the lengths are bad, unless it is a malformed length.
proof fn lemma_bad_length_step(cur: Seq<Field>)
    requires
        cur.len() > 0,
        !named(cur.last(), "content-length") || length_value(cur.last().value) is Some,
    ensures
        ({
            let pre = cur.drop_last();
            let counted = named(cur.last(), "content-length");
            &&& counted ==> lengths(cur) == lengths(pre).push(length_value(cur.last().value)->0)
            &&& !counted ==> lengths(cur) == lengths(pre)
            &&& bad_length(cur) == (bad_length(pre) || (counted && lengths(pre).len() > 0
                && length_value(cur.last().value)->0 != lengths(pre).last()))
        }),
{
    let pre = cur.drop_last();
    let counted = named(cur.last(), "content-length");
    let lp = lengths(pre);
    let lc = lengths(cur);
    let malformed_pre = exists|i: int|
        0 <= i < pre.len() && named(#[trigger] pre[i], "content-length") && length_value(
            pre[i].value,
        ) is None;
    let malformed_cur = exists|i: int|
        0 <= i < cur.len() && named(#[trigger] cur[i], "content-length") && length_value(
            cur[i].value,
        ) is None;
    assert(malformed_pre == malformed_cur) by {
        if malformed_pre {
            let i = choose|i: int|
                0 <= i < pre.len() && named(#[trigger] pre[i], "content-length") && length_value(
                    pre[i].value,
                ) is None;
            assert(cur[i] == pre[i]);
        }
        if malformed_cur {
            let i = choose|i: int|
                0 <= i < cur.len() && named(#[trigger] cur[i], "content-length") && length_value(
                    cur[i].value,
                ) is None;
            assert(cur[i] == pre[i]);
        }
    }
    let differ_pre = exists|i: int| 0 < i < lp.len() && #[trigger] lp[i] != lp[0];
    let differ_cur = exists|i: int| 0 < i < lc.len() && #[trigger] lc[i] != lc[0];
    if counted {
        let v = length_value(cur.last().value)->0;
        assert(lc == lp.push(v));
        assert(differ_cur == (differ_pre || (lp.len() > 0 && v != lp.last()))) by {
            if differ_pre {
                let i = choose|i: int| 0 < i < lp.len() && #[trigger] lp[i] != lp[0];
                assert(lc[i] != lc[0]);
            } else if lp.len() > 0 {
                if lp.len() > 1 {
                    assert(lp[lp.len() - 1] == lp[0]);
                }
                assert(lp.last() == lp[0]);
                if v != lp.last() {
                    assert(lc[lp.len() as int] != lc[0]);
                }
                if differ_cur {
                    let i = choose|i: int| 0 < i < lc.len() && #[trigger] lc[i] != lc[0];
                    if i < lp.len() {
                        assert(lp[i] == lp[0]);
                    }
                }
            }
        }
    }
}

// ---------------------------------------------------------------------------
// Heads that the proxy sends
// ---------------------------------------------------------------------------

/// One header line.
pub open spec fn line(f: Field) -> Seq<u8> {
    f.name + ": ".spec_bytes() + f.value + "\r\n".spec_bytes()
}

/// The header lines of some fields, in order.
pub open spec fn lines(fs: Seq<Field>) -> Seq<u8>
    decreases fs.len(),
{
    if fs.len() == 0 {
        seq![]
    } else {
        lines(fs.drop_last()) + line(fs.last())
    }
}

/// The fields about one connection that a request does not take along, whatever it asks for. The
/// transfer coding is among them: the proxy writes its own.
pub open spec fn request_hop(f: Field) -> bool {
    ||| named(f, "keep-alive")
    ||| named(f, "proxy-authenticate")
    ||| named(f, "proxy-authorization")
    ||| named(f, "te")
    ||| named(f, "trailer")
    ||| named(f, "transfer-encoding")
}

/// The fields about one connection that a request takes along only where it asks for an upgrade.
pub open spec fn upgrade_hop(f: Field) -> bool {
    named(f, "connection") || named(f, "upgrade")
}

/// Whether a name is among those that the proxy injects.
pub open spec fn injected(f: Field, inject: Seq<Seq<u8>>) -> bool {
    exists|i: int| 0 <= i < inject.len() && text::eq_ci(f.name, #[trigger] inject[i])
}

/// Whether a request takes a field along, given the fields before it.
pub open spec fn takes_upstream(
    before: Seq<Field>,
    f: Field,
    inject: Seq<Seq<u8>>,
    chunked: bool,
    upgrade: bool,
) -> bool {
    &&& f.name.len() > 0
    &&& upgrade_hop(f) ==> upgrade
    &&& !request_hop(f)
    &&& named(f, "content-length") ==> !chunked && !has_field(before, "content-length")
    &&& !injected(f, inject)
}

/// The fields that a request takes along.
pub open spec fn upstream_fields(
    hs: Seq<Field>,
    inject: Seq<Seq<u8>>,
    chunked: bool,
    upgrade: bool,
) -> Seq<Field>
    decreases hs.len(),
{
    if hs.len() == 0 {
        seq![]
    } else if takes_upstream(hs.drop_last(), hs.last(), inject, chunked, upgrade) {
        upstream_fields(hs.drop_last(), inject, chunked, upgrade).push(hs.last())
    } else {
        upstream_fields(hs.drop_last(), inject, chunked, upgrade)
    }
}

/// Most bytes that a client address takes in a header.
pub const IP_TEXT_MAX: usize = 45;

/// What a fragment comes to for a client.
pub open spec fn rendered(f: header_util::Fragment, ip: IpAddr) -> Seq<u8> {
    match f {
        header_util::Fragment::Text(t) => t,
        header_util::Fragment::ClientIp => if ip.text().len() <= IP_TEXT_MAX {
            ip.text()
        } else {
            ip.text().take(IP_TEXT_MAX as int)
        },
    }
}

/// What a list of fragments comes to for a client.
pub open spec fn rendered_all(fs: Seq<header_util::Fragment>, ip: IpAddr) -> Seq<u8>
    decreases fs.len(),
{
    if fs.len() == 0 {
        seq![]
    } else {
        rendered_all(fs.drop_last(), ip) + rendered(fs.last(), ip)
    }
}

/// The line that says whether a connection stays open.
pub open spec fn connection_line(keep_alive: bool) -> Seq<u8> {
    if keep_alive {
        "Connection: keep-alive\r\n".spec_bytes()
    } else {
        "Connection: close\r\n".spec_bytes()
    }
}

/// The head of the request that goes upstream.
pub open spec fn upstream_head(
    req: RequestFields,
    target: Seq<u8>,
    frags: Seq<header_util::Fragment>,
    inject: Seq<Seq<u8>>,
    ip: IpAddr,
    chunked: bool,
    keep_alive: bool,
    upgrade: bool,
) -> Seq<u8> {
    encode_utf8(
        match req.method {
            Some(m) => m,
            None => "GET"@,
        },
    ) + " ".spec_bytes() + target + " HTTP/1.1\r\n".spec_bytes() + lines(
        upstream_fields(req.headers, inject, chunked, upgrade),
    ) + (if upgrade {
        seq![]
    } else {
        connection_line(keep_alive)
    }) + (if chunked {
        "Transfer-Encoding: chunked\r\n".spec_bytes()
    } else {
        seq![]
    }) + rendered_all(frags, ip) + "\r\n".spec_bytes()
}

/// Bytes that the lines of some fields take at most.
pub open spec fn lines_room(hs: Seq<Field>) -> nat
    decreases hs.len(),
{
    if hs.len() == 0 {
        0
    } else {
        lines_room(hs.drop_last()) + hs.last().name.len() + hs.last().value.len() + 4
    }
}

/// Bytes that some fragments take at most.
pub open spec fn frags_room(fs: Seq<header_util::Fragment>) -> nat
    decreases fs.len(),
{
    if fs.len() == 0 {
        0
    } else {
        frags_room(fs.drop_last()) + (match fs.last() {
            header_util::Fragment::Text(t) => t.len(),
            header_util::Fragment::ClientIp => IP_TEXT_MAX as nat,
        })
    }
}

fn lines_size(hs: &[Header]) -> (r: Option<usize>)
    ensures
        text::is_count(r, lines_room(fields(hs@))),
{
    let ghost fs = fields(hs@);
    let mut sum: Option<usize> = Some(0);
    for i in 0..hs.len()
        invariant
            fs == fields(hs@),
            text::is_count(sum, lines_room(fs.take(i as int))),
    {
        let h = &hs[i];
        proof {
            assert(fs[i as int] == h@);
            assert(fs.take(i + 1).drop_last() =~= fs.take(i as int));
            assert(fs.take(i + 1).last() == h@);
        }
        let ghost before = lines_room(fs.take(i as int));
        sum = plus(sum, Some(h.name.as_bytes().len()), Ghost(before), Ghost(h@.name.len()));
        let ghost named = before + h@.name.len();
        sum = plus(sum, Some(h.value.len()), Ghost(named), Ghost(h@.value.len()));
        sum = plus(sum, Some(4), Ghost(named + h@.value.len()), Ghost(4));
    }
    assert(fs.take(fs.len() as int) =~= fs);
    sum
}

fn frags_size(frags: &[HeaderFragment]) -> (r: Option<usize>)
    ensures
        text::is_count(r, frags_room(header_util::fragments(frags@))),
{
    let ghost fs = header_util::fragments(frags@);
    let mut sum: Option<usize> = Some(0);
    for i in 0..frags.len()
        invariant
            fs == header_util::fragments(frags@),
            text::is_count(sum, frags_room(fs.take(i as int))),
    {
        proof {
            assert(fs[i as int] == frags@[i as int]@);
            assert(fs.take(i + 1).drop_last() =~= fs.take(i as int));
            assert(fs.take(i + 1).last() == fs[i as int]);
        }
        let n: usize = match &frags[i] {
            HeaderFragment::Text(t) => t.len(),
            HeaderFragment::ClientIp => IP_TEXT_MAX,
        };
        sum = plus(sum, Some(n), Ghost(frags_room(fs.take(i as int))), Ghost(n as nat));
    }
    assert(fs.take(fs.len() as int) =~= fs);
    sum
}

/// Bytes that a request head takes at most.
pub open spec fn upstream_room(
    req: RequestFields,
    target: Seq<u8>,
    frags: Seq<header_util::Fragment>,
) -> nat {
    (match req.method {
        Some(m) => encode_utf8(m).len(),
        None => 3,
    }) + target.len() + lines_room(req.headers) + frags_room(frags) + 80
}

/// Whether a request head is short enough to be built: a buffer for it has a size that is a power
/// of two.
pub fn upstream_fits(req: &RequestHead, path: &str, set_frags: &[HeaderFragment]) -> (r: bool)
    ensures
        r == (upstream_room(req@, path.spec_bytes(), header_util::fragments(set_frags@))
            <= usize::MAX / 2 + 1),
{
    let method: usize = match req.method {
        Some(m) => m.as_bytes().len(),
        None => 3,
    };
    let target: usize = path.as_bytes().len();
    let ghost lines = lines_room(req@.headers);
    let ghost frags = frags_room(header_util::fragments(set_frags@));
    let sum = plus(Some(method), Some(target), Ghost(method as nat), Ghost(target as nat));
    let ghost so_far = (method + target) as nat;
    let sum = plus(sum, lines_size(req.headers.as_slice()), Ghost(so_far), Ghost(lines));
    let sum = plus(sum, frags_size(set_frags), Ghost(so_far + lines), Ghost(frags));
    let sum = plus(sum, Some(80), Ghost(so_far + lines + frags), Ghost(80));
    match sum {
        Some(n) => n <= usize::MAX / 2 + 1,
        None => false,
    }
}

/// `bytes` stand at the beginning of the buffer `new`, which was `old`: a buffer that is long
/// enough keeps the rest, one that is too short grows to the next power of two, with zeros.
pub open spec fn put_first(old: Seq<u8>, bytes: Seq<u8>, new: Seq<u8>) -> bool {
    &&& bytes.len() <= new.len()
    &&& new.take(bytes.len() as int) == bytes
    &&& bytes.len() <= old.len() ==> new == bytes + old.skip(bytes.len() as int)
    &&& bytes.len() > old.len() ==> header_util::is_next_power_of_two(
        bytes.len() as int,
        new.len() as int,
    ) && forall|i: int| bytes.len() <= i < new.len() ==> new[i] == 0
}

/// Writes `bytes` to the beginning of `x`.
fn put_front(x: &mut Vec<u8>, bytes: &[u8]) -> (n: usize)
    requires
        bytes@.len() <= usize::MAX / 2 + 1,
    ensures
        n == bytes@.len(),
        put_first(old(x)@, bytes@, final(x)@),
{
    let mut pos: usize = 0;
    buf_put(x, &mut pos, bytes);
    proof {
        let n = bytes@.len() as int;
        assert(x@.take(n) =~= x@.subrange(0, n));
        assert forall|i: int| 0 <= i < n implies x@[i] == bytes@[i] by {
            assert(x@[i] == x@.subrange(0, n)[i]);
        }
        if n <= old(x)@.len() {
            assert(x@ =~= bytes@ + old(x)@.skip(n));
        }
    }
    pos
}

/// Whether a name is among those that the proxy injects.
fn is_injected(name: &str, inject: &[Vec<u8>]) -> (r: bool)
    ensures
        r == exists|i: int|
            0 <= i < inject@.len() && text::eq_ci(
                name.spec_bytes(),
                #[trigger] header_util::byte_strings(inject@)[i],
            ),
{
    for i in 0..inject.len()
        invariant
            forall|j: int|
                0 <= j < i ==> !text::eq_ci(
                    name.spec_bytes(),
                    #[trigger] header_util::byte_strings(inject@)[j],
                ),
    {
        if bytes_eq_ci(name.as_bytes(), inject[i].as_slice()) {
            assert(text::eq_ci(name.spec_bytes(), header_util::byte_strings(inject@)[i as int]));
            return true;
        }
    }
    false
}

/// Appends one header line.
fn push_line(out: &mut Vec<u8>, h: &Header)
    ensures
        final(out)@ == old(out)@ + line(h@),
{
    push_bytes(out, h.name.as_bytes());
    push_bytes(out, ": ".as_bytes());
    push_bytes(out, h.value);
    push_bytes(out, "\r\n".as_bytes());
    assert(out@ =~= old(out)@ + line(h@));
}

/// Appends the lines of the fields that a request takes along.
fn push_upstream_fields(
    out: &mut Vec<u8>,
    hs: &[Header],
    inject: &[Vec<u8>],
    is_chunked: bool,
    want_upgrade: bool,
)
    ensures
        final(out)@ == old(out)@ + lines(
            upstream_fields(
                fields(hs@),
                header_util::byte_strings(inject@),
                is_chunked,
                want_upgrade,
            ),
        ),
{
    let mut seen_clen: bool = false;
    let ghost fs = fields(hs@);
    let ghost inj = header_util::byte_strings(inject@);
    proof {
        assert(old(out)@ + lines(Seq::<Field>::empty()) =~= old(out)@);
    }
    for i in 0..hs.len()
        invariant
            fs == fields(hs@),
            inj == header_util::byte_strings(inject@),
            seen_clen == has_field(fs.take(i as int), "content-length"),
            out@ == old(out)@ + lines(
                upstream_fields(fs.take(i as int), inj, is_chunked, want_upgrade),
            ),
    {
        let h = &hs[i];
        let ghost pre = fs.take(i as int);
        let ghost cur = fs.take(i + 1);
        let ghost f = h@;
        proof {
            assert(cur.drop_last() =~= pre);
            assert(cur.last() == f);
            lemma_has_field_push(cur, "content-length");
        }
        let had_clen = seen_clen;
        let is_clen = str_eq_ci(h.name, "content-length");
        if is_clen {
            seen_clen = true;
        }
        let hop = str_eq_ci(h.name, "keep-alive") || str_eq_ci(h.name, "proxy-authenticate")
            || str_eq_ci(h.name, "proxy-authorization") || str_eq_ci(h.name, "te") || str_eq_ci(
            h.name,
            "trailer",
        ) || str_eq_ci(h.name, "transfer-encoding");
        let up = str_eq_ci(h.name, "connection") || str_eq_ci(h.name, "upgrade");
        let keep = h.name.as_bytes().len() > 0 && (!up || want_upgrade) && !hop && (!is_clen || (
        !is_chunked && !had_clen)) && !is_injected(h.name, inject);
        proof {
            assert(keep == takes_upstream(pre, f, inj, is_chunked, want_upgrade));
        }
        if keep {
            push_line(out, h);
            proof {
                let kept = upstream_fields(pre, inj, is_chunked, want_upgrade);
                assert(kept.push(f).drop_last() =~= kept);
                assert(out@ =~= old(out)@ + (lines(kept) + line(f)));
            }
        }
    }
    assert(fs.take(fs.len() as int) =~= fs);
}

proof fn lemma_has_field_push(hs: Seq<Field>, name: &str)
    requires
        hs.len() > 0,
    ensures
        has_field(hs, name) == (has_field(hs.drop_last(), name) || named(hs.last(), name)),
{
    let t = hs.drop_last();
    if has_field(t, name) {
        let i = choose|i: int| 0 <= i < t.len() && named(#[trigger] t[i], name);
        assert(named(hs[i], name));
    }
    if named(hs.last(), name) {
        assert(named(hs[hs.len() - 1], name));
    }
    if has_field(hs, name) && !named(hs.last(), name) {
        let i = choose|i: int| 0 <= i < hs.len() && named(#[trigger] hs[i], name);
        assert(named(t[i], name));
    }
}

/// Appends what a list of fragments comes to for a client.
fn push_fragments(out: &mut Vec<u8>, frags: &[HeaderFragment], client_ip: &IpAddr)
    ensures
        final(out)@ == old(out)@ + rendered_all(header_util::fragments(frags@), *client_ip),
{
    let ghost fs = header_util::fragments(frags@);
    proof {
        assert(old(out)@ + rendered_all(Seq::empty(), *client_ip) =~= old(out)@);
    }
    for i in 0..frags.len()
        invariant
            fs == header_util::fragments(frags@),
            out@ == old(out)@ + rendered_all(fs.take(i as int), *client_ip),
    {
        let ghost before = out@;
        proof {
            assert(fs.take(i + 1).drop_last() =~= fs.take(i as int));
            assert(fs.take(i + 1).last() == frags@[i as int]@);
        }
        match &frags[i] {
            HeaderFragment::Text(t) => {
                push_bytes(out, t.as_slice());
            },
            HeaderFragment::ClientIp => {
                let t = client_ip.to_text();
                if t.len() <= IP_TEXT_MAX {
                    push_bytes(out, t.as_slice());
                } else {
                    push_bytes(out, &t.as_slice()[0..IP_TEXT_MAX]);
                    assert(t@.subrange(0, IP_TEXT_MAX as int) =~= t@.take(IP_TEXT_MAX as int));
                }
            },
        }
        assert(out@ =~= old(out)@ + (rendered_all(fs.take(i as int), *client_ip) + rendered(
            fs[i as int],
            *client_ip,
        )));
    }
    assert(fs.take(fs.len() as int) =~= fs);
}

proof fn lemma_lines_room(hs: Seq<Field>, inject: Seq<Seq<u8>>, chunked: bool, upgrade: bool)
    ensures
        lines(upstream_fields(hs, inject, chunked, upgrade)).len() <= lines_room(hs),
    decreases hs.len(),
{
    if hs.len() > 0 {
        lemma_lines_room(hs.drop_last(), inject, chunked, upgrade);
        lemma_line_len(hs.last());
        let kept = upstream_fields(hs.drop_last(), inject, chunked, upgrade);
        assert(kept.push(hs.last()).drop_last() =~= kept);
    }
}

proof fn lemma_line_len(f: Field)
    ensures
        line(f).len() == f.name.len() + f.value.len() + 4,
{
    reveal_strlit(": ");
    reveal_strlit("\r\n");
    assert(": ".is_ascii());
    assert("\r\n".is_ascii());
}

proof fn lemma_frags_room(fs: Seq<header_util::Fragment>, ip: IpAddr)
    ensures
        rendered_all(fs, ip).len() <= frags_room(fs),
    decreases fs.len(),
{
    if fs.len() > 0 {
        lemma_frags_room(fs.drop_last(), ip);
    }
}

proof fn lemma_fixed_texts()
    ensures
        "GET".spec_bytes().len() == 3,
        " ".spec_bytes().len() == 1,
        " HTTP/1.1\r\n".spec_bytes().len() == 11,
        "Connection: keep-alive\r\n".spec_bytes().len() == 24,
        "Connection: close\r\n".spec_bytes().len() == 19,
        "Transfer-Encoding: chunked\r\n".spec_bytes().len() == 28,
        "\r\n".spec_bytes().len() == 2,
        "HTTP/1.1 ".spec_bytes().len() == 9,
{
    reveal_strlit("GET");
    reveal_strlit(" ");
    reveal_strlit(" HTTP/1.1\r\n");
    reveal_strlit("Connection: keep-alive\r\n");
    reveal_strlit("Connection: close\r\n");
    reveal_strlit("Transfer-Encoding: chunked\r\n");
    reveal_strlit("\r\n");
    reveal_strlit("HTTP/1.1 ");
    assert("GET".is_ascii());
    assert(" ".is_ascii());
    assert(" HTTP/1.1\r\n".is_ascii());
    assert("Connection: keep-alive\r\n".is_ascii());
    assert("Connection: close\r\n".is_ascii());
    assert("Transfer-Encoding: chunked\r\n".is_ascii());
    assert("\r\n".is_ascii());
    assert("HTTP/1.1 ".is_ascii());
}

/// Builds the head of the request that goes upstream into `x` and returns its length. `path` is
/// the target on which the request was judged.
pub fn build_upstream_head(
    x: &mut Vec<u8>,
    req: &RequestHead,
    path: &str,
    set_frags: &[HeaderFragment],
    inject_names: &[Vec<u8>],
    client_ip: &IpAddr,
    is_chunked: bool,
    upstream_keepalive: bool,
    want_upgrade: bool,
) -> (n: usize)
    requires
        upstream_room(req@, path.spec_bytes(), header_util::fragments(set_frags@)) <= usize::MAX / 2
            + 1,
    ensures
        n == upstream_head(
            req@,
            path.spec_bytes(),
            header_util::fragments(set_frags@),
            header_util::byte_strings(inject_names@),
            *client_ip,
            is_chunked,
            upstream_keepalive,
            want_upgrade,
        ).len(),
        put_first(
            old(x)@,
            upstream_head(
                req@,
                path.spec_bytes(),
                header_util::fragments(set_frags@),
                header_util::byte_strings(inject_names@),
                *client_ip,
                is_chunked,
                upstream_keepalive,
                want_upgrade,
            ),
            final(x)@,
        ),
{
    let method = match req.method {
        Some(m) => m,
        None => "GET",
    };
    let mut head: Vec<u8> = Vec::new();
    push_bytes(&mut head, method.as_bytes());
    push_bytes(&mut head, " ".as_bytes());
    push_bytes(&mut head, path.as_bytes());
    push_bytes(&mut head, " HTTP/1.1\r\n".as_bytes());
    push_upstream_fields(&mut head, req.headers.as_slice(), inject_names, is_chunked, want_upgrade);
    if !want_upgrade {
        push_connection(&mut head, upstream_keepalive);
    }
    if is_chunked {
        push_bytes(&mut head, "Transfer-Encoding: chunked\r\n".as_bytes());
    }
    push_fragments(&mut head, set_frags, client_ip);
    push_bytes(&mut head, "\r\n".as_bytes());
    proof {
        let inj = header_util::byte_strings(inject_names@);
        assert(head@ =~= upstream_head(
            req@,
            path.spec_bytes(),
            header_util::fragments(set_frags@),
            inj,
            *client_ip,
            is_chunked,
            upstream_keepalive,
            want_upgrade,
        ));
        lemma_lines_room(req@.headers, inj, is_chunked, want_upgrade);
        lemma_frags_room(header_util::fragments(set_frags@), *client_ip);
        lemma_fixed_texts();
    }
    put_front(x, head.as_slice())
}

/// Appends the line that says whether a connection stays open.
fn push_connection(out: &mut Vec<u8>, keep_alive: bool)
    ensures
        final(out)@ == old(out)@ + connection_line(keep_alive),
{
    if keep_alive {
        push_bytes(out, "Connection: keep-alive\r\n".as_bytes());
    } else {
        push_bytes(out, "Connection: close\r\n".as_bytes());
    }
}

/// The fields about one connection that a response does not take along.
pub open spec fn response_hop(f: Field) -> bool {
    ||| named(f, "connection")
    ||| named(f, "keep-alive")
    ||| named(f, "proxy-authenticate")
    ||| named(f, "proxy-authorization")
    ||| named(f, "upgrade")
    ||| named(f, "trailer")
    ||| named(f, "te")
}

/// Whether the last transfer coding of a field is `chunked`.
pub open spec fn chunked_field(f: Field) -> bool {
    named(f, "transfer-encoding") && value_text(f.value) is Some && header_util::chunked_last(
        value_text(f.value)->0,
    )
}

/// Whether a response is chunked.
pub open spec fn chunked_response(hs: Seq<Field>) -> bool {
    exists|i: int| 0 <= i < hs.len() && chunked_field(#[trigger] hs[i])
}

/// Whether a response takes a field along, given the fields before it.
pub open spec fn takes_downstream(before: Seq<Field>, f: Field, chunked: bool) -> bool {
    &&& f.name.len() > 0
    &&& !response_hop(f)
    &&& named(f, "content-length") ==> !chunked && !has_field(before, "content-length")
}

/// The fields that a response takes along.
pub open spec fn response_fields(hs: Seq<Field>, chunked: bool) -> Seq<Field>
    decreases hs.len(),
{
    if hs.len() == 0 {
        seq![]
    } else if takes_downstream(hs.drop_last(), hs.last(), chunked) {
        response_fields(hs.drop_last(), chunked).push(hs.last())
    } else {
        response_fields(hs.drop_last(), chunked)
    }
}

/// The three digits of a status.
pub open spec fn status_digits(code: u16) -> Seq<u8> {
    seq![
        (48 + code / 100 % 10) as u8,
        (48 + code / 10 % 10) as u8,
        (48 + code % 10) as u8,
    ]
}

/// The head of the response that goes to the client.
pub open spec fn response_head(resp: ResponseFields, keep_alive: bool) -> Seq<u8> {
    "HTTP/1.1 ".spec_bytes() + status_digits(
        match resp.code {
            Some(c) => c,
            None => 502,
        },
    ) + " ".spec_bytes() + (match resp.reason {
        Some(r) => encode_utf8(r),
        None => seq![],
    }) + "\r\n".spec_bytes() + lines(
        response_fields(resp.headers, chunked_response(resp.headers)),
    ) + connection_line(keep_alive) + "\r\n".spec_bytes()
}

/// Bytes that a response head takes at most.
pub open spec fn response_room(resp: ResponseFields) -> nat {
    (match resp.reason {
        Some(r) => encode_utf8(r).len(),
        None => 0,
    }) + lines_room(resp.headers) + 60
}

/// Whether a response head is short enough to be built.
pub fn response_fits(resp: &ResponseHead) -> (r: bool)
    ensures
        r == (response_room(resp@) <= usize::MAX / 2 + 1),
{
    let reason: usize = match resp.reason {
        Some(s) => s.as_bytes().len(),
        None => 0,
    };
    let ghost lines = lines_room(resp@.headers);
    let sum = lines_size(resp.headers.as_slice());
    let sum = plus(Some(reason), sum, Ghost(reason as nat), Ghost(lines));
    let sum = plus(sum, Some(60), Ghost(reason as nat + lines), Ghost(60));
    match sum {
        Some(n) => n <= usize::MAX / 2 + 1,
        None => false,
    }
}

proof fn lemma_response_lines_room(hs: Seq<Field>, chunked: bool)
    ensures
        lines(response_fields(hs, chunked)).len() <= lines_room(hs),
    decreases hs.len(),
{
    if hs.len() > 0 {
        lemma_response_lines_room(hs.drop_last(), chunked);
        lemma_line_len(hs.last());
        let kept = response_fields(hs.drop_last(), chunked);
        assert(kept.push(hs.last()).drop_last() =~= kept);
    }
}

/// Whether the last transfer coding of a field is `chunked`.
pub fn is_chunked_field(h: &Header) -> (r: bool)
    ensures
        r == chunked_field(h@),
{
    str_eq_ci(h.name, "transfer-encoding") && match text_of(h.value) {
        Some(s) => te_is_chunked(s),
        None => false,
    }
}

/// Appends the lines of the fields that a response takes along.
fn push_response_fields(out: &mut Vec<u8>, hs: &[Header])
    ensures
        final(out)@ == old(out)@ + lines(
            response_fields(fields(hs@), chunked_response(fields(hs@))),
        ),
{
    let ghost fs = fields(hs@);
    let mut chunked: bool = false;
    for i in 0..hs.len()
        invariant
            fs == fields(hs@),
            chunked == exists|j: int| 0 <= j < i && chunked_field(#[trigger] fs[j]),
    {
        if is_chunked_field(&hs[i]) {
            assert(chunked_field(fs[i as int]));
            chunked = true;
        }
    }
    let mut seen_clen: bool = false;
    proof {
        assert(old(out)@ + lines(Seq::<Field>::empty()) =~= old(out)@);
    }
    for i in 0..hs.len()
        invariant
            fs == fields(hs@),
            seen_clen == has_field(fs.take(i as int), "content-length"),
            out@ == old(out)@ + lines(response_fields(fs.take(i as int), chunked)),
    {
        let h = &hs[i];
        let ghost pre = fs.take(i as int);
        let ghost cur = fs.take(i + 1);
        let ghost f = h@;
        proof {
            assert(cur.drop_last() =~= pre);
            assert(cur.last() == f);
            lemma_has_field_push(cur, "content-length");
        }
        let had_clen = seen_clen;
        let is_clen = str_eq_ci(h.name, "content-length");
        if is_clen {
            seen_clen = true;
        }
        let hop = str_eq_ci(h.name, "connection") || str_eq_ci(h.name, "keep-alive") || str_eq_ci(
            h.name,
            "proxy-authenticate",
        ) || str_eq_ci(h.name, "proxy-authorization") || str_eq_ci(h.name, "upgrade") || str_eq_ci(
            h.name,
            "trailer",
        ) || str_eq_ci(h.name, "te");
        let keep = h.name.as_bytes().len() > 0 && !hop && (!is_clen || (!chunked && !had_clen));
        proof {
            assert(keep == takes_downstream(pre, f, chunked));
        }
        if keep {
            push_line(out, h);
            proof {
                let kept = response_fields(pre, chunked);
                assert(kept.push(f).drop_last() =~= kept);
                assert(out@ =~= old(out)@ + (lines(kept) + line(f)));
            }
        }
    }
    assert(fs.take(fs.len() as int) =~= fs);
}

/// Builds the head of the response that goes to the client into `x` and returns its length.
pub fn build_response_head(x: &mut Vec<u8>, resp: &ResponseHead, client_keep_alive: bool) -> (n:
    usize)
    requires
        response_room(resp@) <= usize::MAX / 2 + 1,
    ensures
        n == response_head(resp@, client_keep_alive).len(),
        put_first(old(x)@, response_head(resp@, client_keep_alive), final(x)@),
{
    let code: u16 = match resp.code {
        Some(c) => c,
        None => 502,
    };
    let mut head: Vec<u8> = Vec::new();
    push_bytes(&mut head, "HTTP/1.1 ".as_bytes());
    head.push((48 + code / 100 % 10) as u8);
    head.push((48 + code / 10 % 10) as u8);
    head.push((48 + code % 10) as u8);
    push_bytes(&mut head, " ".as_bytes());
    if let Some(r) = resp.reason {
        push_bytes(&mut head, r.as_bytes());
    }
    push_bytes(&mut head, "\r\n".as_bytes());
    push_response_fields(&mut head, resp.headers.as_slice());
    push_connection(&mut head, client_keep_alive);
    push_bytes(&mut head, "\r\n".as_bytes());
    proof {
        assert(head@ =~= response_head(resp@, client_keep_alive));
        lemma_response_lines_room(resp@.headers, chunked_response(resp@.headers));
        lemma_fixed_texts();
    }
    put_front(x, head.as_slice())
}

// ---------------------------------------------------------------------------
// What framing and heads guarantee
// ---------------------------------------------------------------------------

/// Every field that goes upstream came from the client, and is none of those that stay behind: no
/// field about one connection (but for an upgrade), no transfer coding, no injected name, and no
/// length beside a chunked body.
pub proof fn law_upstream_fields_are_clean(
    hs: Seq<Field>,
    inject: Seq<Seq<u8>>,
    chunked: bool,
    upgrade: bool,
    i: int,
)
    requires
        0 <= i < upstream_fields(hs, inject, chunked, upgrade).len(),
    ensures
        ({
            let f = upstream_fields(hs, inject, chunked, upgrade)[i];
            &&& hs.contains(f)
            &&& !request_hop(f)
            &&& upgrade_hop(f) ==> upgrade
            &&& !injected(f, inject)
            &&& chunked ==> !named(f, "content-length")
        }),
    decreases hs.len(),
{
    let t = hs.drop_last();
    let kept = upstream_fields(t, inject, chunked, upgrade);
    if i < kept.len() {
        law_upstream_fields_are_clean(t, inject, chunked, upgrade, i);
        let f = kept[i];
        let k = choose|k: int| 0 <= k < t.len() && t[k] == f;
        assert(hs[k] == f);
    } else {
        assert(hs[hs.len() - 1] == hs.last());
    }
}

/// An ordinary field goes upstream: one with a name that is about the message, is not injected
/// and is no length.
pub proof fn law_ordinary_fields_go_upstream(
    hs: Seq<Field>,
    inject: Seq<Seq<u8>>,
    chunked: bool,
    upgrade: bool,
    i: int,
)
    requires
        0 <= i < hs.len(),
        hs[i].name.len() > 0,
        !request_hop(hs[i]),
        !upgrade_hop(hs[i]),
        !injected(hs[i], inject),
        !named(hs[i], "content-length"),
    ensures
        upstream_fields(hs, inject, chunked, upgrade).contains(hs[i]),
    decreases hs.len(),
{
    let t = hs.drop_last();
    let kept = upstream_fields(t, inject, chunked, upgrade);
    let all = upstream_fields(hs, inject, chunked, upgrade);
    if i == hs.len() - 1 {
        assert(all[all.len() - 1] == hs[i]);
    } else {
        law_ordinary_fields_go_upstream(t, inject, chunked, upgrade, i);
        let k = choose|k: int| 0 <= k < kept.len() && kept[k] == t[i];
        assert(all[k] == hs[i]);
    }
}

proof fn lemma_upstream_lengths(hs: Seq<Field>, inject: Seq<Seq<u8>>, chunked: bool, upgrade: bool)
    ensures
        count_field(upstream_fields(hs, inject, chunked, upgrade), "content-length") <= 1,
        !has_field(hs, "content-length") ==> count_field(
            upstream_fields(hs, inject, chunked, upgrade),
            "content-length",
        ) == 0,
    decreases hs.len(),
{
    if hs.len() > 0 {
        lemma_upstream_lengths(hs.drop_last(), inject, chunked, upgrade);
        lemma_has_field_push(hs, "content-length");
        let kept = upstream_fields(hs.drop_last(), inject, chunked, upgrade);
        assert(kept.push(hs.last()).drop_last() =~= kept);
    }
}

/// A request goes upstream with at most one length, and with none where its body is chunked.
pub proof fn law_upstream_length_is_single(
    hs: Seq<Field>,
    inject: Seq<Seq<u8>>,
    chunked: bool,
    upgrade: bool,
)
    ensures
        count_field(upstream_fields(hs, inject, chunked, upgrade), "content-length") <= (if chunked {
            0nat
        } else {
            1nat
        }),
{
    lemma_upstream_lengths(hs, inject, chunked, upgrade);
    let out = upstream_fields(hs, inject, chunked, upgrade);
    lemma_count_field(out, "content-length");
    if chunked && has_field(out, "content-length") {
        let i = choose|i: int| 0 <= i < out.len() && named(#[trigger] out[i], "content-length");
        law_upstream_fields_are_clean(hs, inject, chunked, upgrade, i);
    }
}

proof fn lemma_lengths_hold(hs: Seq<Field>, i: int)
    requires
        0 <= i < hs.len(),
        named(hs[i], "content-length"),
        length_value(hs[i].value) is Some,
    ensures
        lengths(hs).contains(length_value(hs[i].value)->0),
    decreases hs.len(),
{
    let v = length_value(hs[i].value)->0;
    if i == hs.len() - 1 {
        assert(lengths(hs)[lengths(hs).len() - 1] == v);
    } else {
        let t = hs.drop_last();
        lemma_lengths_hold(t, i);
        let k = choose|k: int| 0 <= k < lengths(t).len() && lengths(t)[k] == v;
        assert(lengths(hs)[k] == v);
    }
}

/// The framing of a request that is let through cannot be read in two ways: every length it gives
/// is well-formed and the same, a transfer coding is one bare `chunked`, and it does not carry
/// several lengths beside that. Under HTTP/1.1 it has exactly one `Host`, and its target is rooted
/// or `*` and without a fragment.
pub proof fn law_accepted_framing_is_unambiguous(
    hs: Seq<Field>,
    version: Option<u8>,
    target: Option<Seq<char>>,
    reject_encoded_slash: bool,
)
    requires
        !bad_request(hs, version, target, reject_encoded_slash),
    ensures
        forall|i: int|
            0 <= i < hs.len() && named(#[trigger] hs[i], "content-length") ==> length_value(
                hs[i].value,
            ) == Some(lengths(hs).last()),
        has_field(hs, "transfer-encoding") ==> chunked_request(hs),
        chunked_request(hs) ==> lengths(hs).len() <= 1,
        count_field(hs, "host") <= 1,
        version == Some(1u8) ==> count_field(hs, "host") == 1,
        target matches Some(p) ==> ("/"@.is_prefix_of(p) || p == "*"@) && !p.contains('#'),
        reject_encoded_slash && target is Some ==> !path::evasive(encode_utf8(target->0)),
{
    let ls = lengths(hs);
    assert forall|i: int|
        0 <= i < hs.len() && named(#[trigger] hs[i], "content-length") implies length_value(
        hs[i].value,
    ) == Some(ls.last()) by {
        assert(length_value(hs[i].value) is Some);
        lemma_lengths_hold(hs, i);
        let v = length_value(hs[i].value)->0;
        let k = choose|k: int| 0 <= k < ls.len() && ls[k] == v;
        assert forall|m: int| 0 <= m < ls.len() implies #[trigger] ls[m] == ls[0] by {
            if m > 0 {
                assert(!(0 < m < ls.len() && ls[m] != ls[0]));
            }
        }
        assert(ls[ls.len() - 1] == ls[0]);
    }
}

/// What is forwarded is what was judged: a length that goes upstream is the one by which the
/// proxy itself reads the body.
pub proof fn law_forwarded_length_is_the_judged_one(
    hs: Seq<Field>,
    version: Option<u8>,
    target: Option<Seq<char>>,
    reject_encoded_slash: bool,
    inject: Seq<Seq<u8>>,
    upgrade: bool,
    i: int,
)
    requires
        !bad_request(hs, version, target, reject_encoded_slash),
        0 <= i < upstream_fields(hs, inject, chunked_request(hs), upgrade).len(),
        named(upstream_fields(hs, inject, chunked_request(hs), upgrade)[i], "content-length"),
    ensures
        !chunked_request(hs),
        length_value(upstream_fields(hs, inject, chunked_request(hs), upgrade)[i].value) == Some(
            lengths(hs).last(),
        ),
{
    let f = upstream_fields(hs, inject, chunked_request(hs), upgrade)[i];
    law_upstream_fields_are_clean(hs, inject, chunked_request(hs), upgrade, i);
    law_accepted_framing_is_unambiguous(hs, version, target, reject_encoded_slash);
    let k = choose|k: int| 0 <= k < hs.len() && hs[k] == f;
    assert(named(hs[k], "content-length"));
}

/// A response goes to the client without fields about one connection, and without a length beside
/// a chunked body.
pub proof fn law_response_fields_are_clean(hs: Seq<Field>, chunked: bool, i: int)
    requires
        0 <= i < response_fields(hs, chunked).len(),
    ensures
        ({
            let f = response_fields(hs, chunked)[i];
            &&& hs.contains(f)
            &&& !response_hop(f)
            &&& chunked ==> !named(f, "content-length")
        }),
    decreases hs.len(),
{
    let t = hs.drop_last();
    let kept = response_fields(t, chunked);
    if i < kept.len() {
        law_response_fields_are_clean(t, chunked, i);
        let f = kept[i];
        let k = choose|k: int| 0 <= k < t.len() && t[k] == f;
        assert(hs[k] == f);
    } else {
        assert(hs[hs.len() - 1] == hs.last());
    }
}

proof fn lemma_response_lengths(hs: Seq<Field>, chunked: bool)
    ensures
        count_field(response_fields(hs, chunked), "content-length") <= 1,
        !has_field(hs, "content-length") ==> count_field(
            response_fields(hs, chunked),
            "content-length",
        ) == 0,
    decreases hs.len(),
{
    if hs.len() > 0 {
        lemma_response_lengths(hs.drop_last(), chunked);
        lemma_has_field_push(hs, "content-length");
        let kept = response_fields(hs.drop_last(), chunked);
        assert(kept.push(hs.last()).drop_last() =~= kept);
    }
}

/// A response goes to the client with at most one length, and with none where its body is
/// chunked.
pub proof fn law_response_length_is_single(hs: Seq<Field>, chunked: bool)
    ensures
        count_field(response_fields(hs, chunked), "content-length") <= (if chunked {
            0nat
        } else {
            1nat
        }),
{
    lemma_response_lengths(hs, chunked);
    let out = response_fields(hs, chunked);
    lemma_count_field(out, "content-length");
    if chunked && has_field(out, "content-length") {
        let i = choose|i: int| 0 <= i < out.len() && named(#[trigger] out[i], "content-length");
        law_response_fields_are_clean(hs, chunked, i);
    }
}

} // verus!
