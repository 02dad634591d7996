//! Which responses are kept, for how long, and for whom.

use std::collections::hash_map::DefaultHasher;

use vstd::prelude::*;
use vstd::std_specs::hash::*;
use vstd::string::*;
use vstd::utf8::*;

use crate::cache;
use crate::cache::{CacheModel, CachePlan, Lookup};
use crate::config;
use crate::config::RouteCache;
use crate::header_util;
use crate::http;
use crate::http::{Field, Parsed, ResponseFields};
use crate::text;
use crate::text_laws;
use crate::upstream;
use crate::upstream::Analysis;

verus! {

/// Whether a value holds a word somewhere, up to case.
pub open spec fn says(value: Seq<u8>, word: Seq<u8>) -> bool {
    exists|k: int|
        0 <= k <= value.len() - word.len() && text::eq_ci(
            #[trigger] value.subrange(k, k + word.len()),
            word,
        )
}

/// A search finds a word exactly where the value holds it.
pub proof fn law_search_finds_what_is_there(value: Seq<u8>, word: &str)
    ensures
        http::mentions(value, word) == says(value, word.spec_bytes()),
{
    header_util::lemma_search_ci(value, word.spec_bytes(), 0);
    let w = word.spec_bytes();
    match header_util::search_ci(value, w, 0) {
        Some(k) => {
            assert(text::eq_ci(value.subrange(k, k + w.len()), w));
        },
        None => {},
    }
}

// ---------------------------------------------------------------------------
// What may be stored
// ---------------------------------------------------------------------------

/// Each name that a stored response varies with is `Accept-Encoding`: between any two commas of any
/// `Vary` field stand, but for blanks, just those letters in either case.
pub proof fn law_stored_response_varies_with_the_encoding_alone(
    a: Analysis,
    resp: ResponseFields,
    store: Option<RouteCache>,
    client_keep_alive: bool,
    draining: bool,
    i: int,
    j: int,
)
    requires
        upstream::analysis_is(a, resp, store, client_keep_alive, draining),
        a.keep is Some,
        0 <= i < resp.headers.len(),
        text::eq_ci(resp.headers[i].name, "vary".spec_bytes()),
        valid_utf8(resp.headers[i].value) ==> 0 <= j < text::split(
            decode_utf8(resp.headers[i].value),
            ',',
        ).len(),
    ensures
        valid_utf8(resp.headers[i].value),
        ({
            let part = encode_utf8(
                text::trim(text::split(decode_utf8(resp.headers[i].value), ',')[j]),
            );
            let name = seq![
                97u8,
                99,
                99,
                101,
                112,
                116,
                45,
                101,
                110,
                99,
                111,
                100,
                105,
                110,
                103,
            ];
            &&& part.len() == name.len()
            &&& forall|k: int|
                0 <= k < part.len() ==> #[trigger] part[k] == name[k] || (part[k] == name[k] - 32 && k
                    != 6)
        }),
{
    let h = resp.headers[i];
    let name = "accept-encoding".spec_bytes();
    reveal_strlit("accept-encoding");
    assert("accept-encoding".is_ascii());
    assert(name =~= seq![
        97u8,
        99,
        99,
        101,
        112,
        116,
        45,
        101,
        110,
        99,
        111,
        100,
        105,
        110,
        103,
    ]);
    assert(!upstream::forbids_storing(h));
    assert(upstream::vary_safe(h.value));
    let s = http::value_text(h.value)->0;
    assert(s == decode_utf8(h.value));
    assert(upstream::is_accept_encoding(text::split(s, ',')[j]));
    let part = text::split(decode_utf8(h.value), ',')[j];
    assert(upstream::is_accept_encoding(part));
    text_laws::law_case_is_all_that_is_ignored(encode_utf8(text::trim(part)), name);
}

/// A stored response has status 200, sets no cookie, and no `Cache-Control` of it says `no-cache`,
/// `no-store` or `private`.
pub proof fn law_stored_response_is_for_everyone(
    a: Analysis,
    resp: ResponseFields,
    store: Option<RouteCache>,
    client_keep_alive: bool,
    draining: bool,
)
    requires
        upstream::analysis_is(a, resp, store, client_keep_alive, draining),
        a.keep is Some,
    ensures
        resp.code == Some(200u16),
        store is Some,
        forall|i: int|
            0 <= i < resp.headers.len() ==> {
                let h = #[trigger] resp.headers[i];
                &&& !text::eq_ci(h.name, "set-cookie".spec_bytes())
                &&& text::eq_ci(h.name, "cache-control".spec_bytes()) ==> !says(
                    h.value,
                    "no-cache".spec_bytes(),
                ) && !says(h.value, "no-store".spec_bytes()) && !says(
                    h.value,
                    "private".spec_bytes(),
                )
            },
{
    assert forall|i: int| 0 <= i < resp.headers.len() implies ({
        let h = #[trigger] resp.headers[i];
        &&& !text::eq_ci(h.name, "set-cookie".spec_bytes())
        &&& text::eq_ci(h.name, "cache-control".spec_bytes()) ==> !says(
            h.value,
            "no-cache".spec_bytes(),
        ) && !says(h.value, "no-store".spec_bytes()) && !says(h.value, "private".spec_bytes())
    }) by {
        let h = resp.headers[i];
        assert(!upstream::forbids_storing(h));
        law_search_finds_what_is_there(h.value, "no-cache");
        law_search_finds_what_is_there(h.value, "no-store");
        law_search_finds_what_is_there(h.value, "private");
    }
}

/// A response with status 200 whose end is known, and that says nothing of caching, is stored where
/// its route caches, as the route says.
pub proof fn law_plain_response_is_stored(
    a: Analysis,
    resp: ResponseFields,
    c: RouteCache,
    client_keep_alive: bool,
    draining: bool,
)
    requires
        upstream::analysis_is(a, resp, Some(c), client_keep_alive, draining),
        resp.code == Some(200u16),
        a.chunked || a.clen is Some,
        forall|i: int|
            0 <= i < resp.headers.len() ==> {
                let h = #[trigger] resp.headers[i];
                &&& !text::eq_ci(h.name, "set-cookie".spec_bytes())
                &&& !text::eq_ci(h.name, "vary".spec_bytes())
                &&& !text::eq_ci(h.name, "cache-control".spec_bytes())
            },
    ensures
        a.keep matches Some(k) && k.ttl == c.ttl && k.max_size == c.max_size,
{
    let hs = resp.headers;
    assert(!upstream::storing_forbidden(hs)) by {
        assert forall|i: int| 0 <= i < hs.len() implies !upstream::forbids_storing(
            #[trigger] hs[i],
        ) by {
            assert(!text::eq_ci(hs[i].name, "set-cookie".spec_bytes()));
        }
    }
    lemma_no_max_age(hs, c.ttl);
    assert(upstream::storable(resp));
}

proof fn lemma_no_max_age(hs: Seq<Field>, default: u64)
    requires
        forall|i: int|
            0 <= i < hs.len() ==> !text::eq_ci(
                (#[trigger] hs[i]).name,
                "cache-control".spec_bytes(),
            ),
    ensures
        upstream::ttl_of(hs, default) == default,
    decreases hs.len(),
{
    if hs.len() > 0 {
        let t = hs.drop_last();
        assert forall|i: int| 0 <= i < t.len() implies !text::eq_ci(
            (#[trigger] t[i]).name,
            "cache-control".spec_bytes(),
        ) by {
            assert(t[i] == hs[i]);
        }
        lemma_no_max_age(t, default);
        assert(!text::eq_ci(hs[hs.len() - 1].name, "cache-control".spec_bytes()));
    }
}

/// A response that says `max-age` is kept for that many seconds, and the last field that says so
/// decides.
pub proof fn law_max_age_decides(
    hs: Seq<Field>,
    f: Field,
    before: Seq<u8>,
    n: nat,
    default: u64,
)
    requires
        text::eq_ci(f.name, "cache-control".spec_bytes()),
        f.value == before + "max-age=".spec_bytes() + text::decimal_bytes(n),
        n <= u64::MAX,
        forall|k: int|
            0 <= k < before.len() ==> !text::eq_ci(
                #[trigger] f.value.subrange(k, k + 8),
                "max-age=".spec_bytes(),
            ),
    ensures
        upstream::ttl_of(hs.push(f), default) == n,
{
    let word = "max-age=".spec_bytes();
    reveal_strlit("max-age=");
    assert("max-age=".is_ascii());
    assert(word.len() == 8);
    let at = before.len() as int;
    let v = f.value;
    assert(v.subrange(at, at + 8) =~= word);
    header_util::lemma_search_ci(v, word, 0);
    assert(text::eq_ci(v.subrange(at, at + word.len()), word));
    assert(header_util::search_ci(v, word, 0) is Some);
    let k = header_util::search_ci(v, word, 0)->0;
    if k < at {
        assert(text::eq_ci(v.subrange(k, k + 8), word));
    }
    assert(k == at);
    assert(v.skip(at + 8) =~= text::decimal_bytes(n));
    lemma_decimal_text(n);
    assert(hs.push(f).drop_last() =~= hs);
}

proof fn lemma_decimal_text(n: nat)
    ensures
        http::value_text(text::decimal_bytes(n)) == Some(text::decimal(n)),
        text::trim(text::decimal(n)) == text::decimal(n),
        text::find(text::decimal(n), ',') == text::decimal(n).len(),
        text::decimal(n).take(text::decimal(n).len() as int) == text::decimal(n),
        encode_utf8(text::decimal(n)) == text::decimal_bytes(n),
        text::parse_unsigned(text::decimal_bytes(n), 10, n) == Some(n),
        forall|m: nat| n <= m ==> #[trigger] text::parse_unsigned(text::decimal_bytes(n), 10, m) == Some(n),
        forall|m: nat| n <= m ==> #[trigger] text::parse_digits(text::decimal_bytes(n), 10, m) == Some(n),
{
    let d = text::decimal(n);
    text_laws::law_decimal_reads_back(n, n);
    encode_utf8_valid_utf8(d);
    encode_utf8_decode_utf8(d);
    lemma_decimal_chars(n);
    text::lemma_find_is(d, ',', d.len() as int);
    assert(d.take(d.len() as int) =~= d);
    assert forall|m: nat| n <= m implies #[trigger] text::parse_unsigned(
        text::decimal_bytes(n),
        10,
        m,
    ) == Some(n) by {
        text_laws::law_decimal_reads_back(n, m);
    }
    assert forall|m: nat| n <= m implies #[trigger] text::parse_digits(
        text::decimal_bytes(n),
        10,
        m,
    ) == Some(n) by {
        text_laws::law_decimal_reads_back(n, m);
    }
}

proof fn lemma_decimal_chars(n: nat)
    ensures
        text::decimal(n).len() > 0,
        forall|i: int| 0 <= i < text::decimal(n).len() ==> '0' <= #[trigger] text::decimal(n)[i] <= '9',
    decreases n,
{
    if n >= 10 {
        lemma_decimal_chars(n / 10);
    }
}

/// A `Content-Length` in decimal digits gives that length, with or without blanks around it; in a
/// response the last such field decides.
pub proof fn law_length_is_what_the_digits_say(hs: Seq<Field>, f: Field, n: nat)
    requires
        text::eq_ci(f.name, "content-length".spec_bytes()),
        f.value == text::decimal_bytes(n),
        n <= usize::MAX,
    ensures
        http::length_value(f.value) == Some(n),
        upstream::response_length(hs.push(f)) == Some(n),
        http::lengths(hs.push(f)) == http::lengths(hs).push(n),
{
    lemma_decimal_text(n);
    assert(hs.push(f).drop_last() =~= hs);
}

// ---------------------------------------------------------------------------
// Where a response ends
// ---------------------------------------------------------------------------

/// A response that gives neither a length nor a transfer coding ends with the connection, unless its
/// status has no body: one below 200, 204 or 304.
pub proof fn law_response_without_framing(
    a: Analysis,
    resp: ResponseFields,
    c: u16,
    store: Option<RouteCache>,
    client_keep_alive: bool,
    draining: bool,
)
    requires
        upstream::analysis_is(a, resp, store, client_keep_alive, draining),
        resp.code == Some(c),
        100 <= c,
        forall|i: int|
            0 <= i < resp.headers.len() ==> {
                let h = #[trigger] resp.headers[i];
                !text::eq_ci(h.name, "content-length".spec_bytes()) && !text::eq_ci(
                    h.name,
                    "transfer-encoding".spec_bytes(),
                )
            },
    ensures
        a.code == c,
        !a.chunked,
        a.clen is None,
        a.eof_body == !(c < 200 || c == 204 || c == 304),
        a.client_keep_alive == (client_keep_alive && !draining && (c < 200 || c == 204 || c == 304)),
{
    let hs = resp.headers;
    lemma_no_length(hs);
    assert(!http::chunked_response(hs)) by {
        assert forall|i: int| 0 <= i < hs.len() implies !http::chunked_field(#[trigger] hs[i]) by {
            assert(!text::eq_ci(hs[i].name, "transfer-encoding".spec_bytes()));
        }
    }
}

proof fn lemma_no_length(hs: Seq<Field>)
    requires
        forall|i: int|
            0 <= i < hs.len() ==> !text::eq_ci(
                (#[trigger] hs[i]).name,
                "content-length".spec_bytes(),
            ),
    ensures
        upstream::response_length(hs) is None,
    decreases hs.len(),
{
    if hs.len() > 0 {
        let t = hs.drop_last();
        assert forall|i: int| 0 <= i < t.len() implies !text::eq_ci(
            (#[trigger] t[i]).name,
            "content-length".spec_bytes(),
        ) by {
            assert(t[i] == hs[i]);
        }
        lemma_no_length(t);
        assert(!text::eq_ci(hs[hs.len() - 1].name, "content-length".spec_bytes()));
    }
}

/// A backend's connection is kept unless one of its `Connection` fields says `close`.
pub proof fn law_backend_connection_is_kept_unless_closed(
    a: Analysis,
    resp: ResponseFields,
    store: Option<RouteCache>,
    client_keep_alive: bool,
    draining: bool,
)
    requires
        upstream::analysis_is(a, resp, store, client_keep_alive, draining),
    ensures
        a.backend_keep_alive <==> forall|i: int|
            0 <= i < resp.headers.len() ==> {
                let h = #[trigger] resp.headers[i];
                text::eq_ci(h.name, "connection".spec_bytes()) ==> !says(
                    h.value,
                    "close".spec_bytes(),
                )
            },
{
    let hs = resp.headers;
    assert forall|i: int| 0 <= i < hs.len() implies upstream::closes(#[trigger] hs[i]) == (
    text::eq_ci(hs[i].name, "connection".spec_bytes()) && says(
        hs[i].value,
        "close".spec_bytes(),
    )) by {
        law_search_finds_what_is_there(hs[i].value, "close");
    }
    if upstream::says_close(hs) {
        let i = choose|i: int| 0 <= i < hs.len() && upstream::closes(#[trigger] hs[i]);
        assert(text::eq_ci(hs[i].name, "connection".spec_bytes()));
    }
}

/// An interim response is one with a status from 100 to 199, but for 101, which ends the exchange;
/// what follows it is examined on its own.
pub proof fn law_interim_responses(b: Seq<u8>, h: ResponseFields, n: usize, c: u16)
    requires
        http::parsed_response(b) == Parsed::Complete(h, n),
        h.code == Some(c),
    ensures
        upstream::interim(b) matches Some(k) ==> k == n && 100 <= c < 200 && c != 101,
        100 <= c < 200 && c != 101 && b.len() >= 12 && b.take(7) == "HTTP/1.".spec_bytes() && b[8]
            == 32 && b[9] == 49 ==> upstream::interim(b) == Some(n),
{
}

// ---------------------------------------------------------------------------
// For whom a response is kept
// ---------------------------------------------------------------------------

/// The key under which a response is kept is a hash of host, target and encoding, each of them: what
/// is hashed differs wherever one of them does.
pub proof fn law_key_covers_host_target_and_encoding(
    a: (Seq<char>, Seq<char>, Seq<char>),
    b: (Seq<char>, Seq<char>, Seq<char>),
) -> (hashed: (Seq<Seq<u8>>, Seq<Seq<u8>>))
    ensures
        cache::key_of(a.0, a.1, a.2) == DefaultHasher::spec_finish(hashed.0),
        cache::key_of(b.0, b.1, b.2) == DefaultHasher::spec_finish(hashed.1),
        hashed.0 == hashed.1 <==> a == b,
{
    let x = seq![
        encode_utf8(a.0),
        seq![255u8],
        encode_utf8(a.1),
        seq![255u8],
        encode_utf8(a.2),
        seq![255u8],
    ];
    let y = seq![
        encode_utf8(b.0),
        seq![255u8],
        encode_utf8(b.1),
        seq![255u8],
        encode_utf8(b.2),
        seq![255u8],
    ];
    if x == y {
        assert(x[0] == y[0] && x[2] == y[2] && x[4] == y[4]);
        text::lemma_same_bytes(a.0, b.0);
        text::lemma_same_bytes(a.1, b.1);
        text::lemma_same_bytes(a.2, b.2);
    }
    (x, y)
}

/// A client that takes `br` is served from what was stored for `br`, one that takes `gzip` and not
/// `br` from what was stored for `gzip`, and any other from what was stored plain.
pub proof fn law_encodings_are_kept_apart(hs: Seq<Field>, f: Field)
    ensures
        cache::encoding_of(seq![]) == Seq::<char>::empty(),
        !text::eq_ci(f.name, "accept-encoding".spec_bytes()) || !valid_utf8(f.value)
            ==> cache::encoding_of(hs.push(f)) == cache::encoding_of(hs),
        text::eq_ci(f.name, "accept-encoding".spec_bytes()) && valid_utf8(f.value) ==> {
            let br = exists|k: int|
                0 <= k && k + 2 <= f.value.len() && #[trigger] f.value.subrange(k, k + 2) == seq![
                    98u8,
                    114,
                ];
            let gzip = exists|k: int|
                0 <= k && k + 4 <= f.value.len() && #[trigger] f.value.subrange(k, k + 4) == seq![
                    103u8,
                    122,
                    105,
                    112,
                ];
            &&& br ==> cache::encoding_of(hs.push(f)) == "br"@
            &&& !br && gzip ==> cache::encoding_of(hs.push(f)) == "gzip"@
            &&& !br && !gzip ==> cache::encoding_of(hs.push(f)) == cache::encoding_of(hs)
        },
{
    reveal_strlit("");
    reveal_strlit("br");
    reveal_strlit("gzip");
    assert(""@ =~= Seq::<char>::empty());
    assert("br".is_ascii());
    assert("gzip".is_ascii());
    assert("br".spec_bytes() =~= seq![98u8, 114]);
    assert("gzip".spec_bytes() =~= seq![103u8, 122, 105, 112]);
    assert(hs.push(f).drop_last() =~= hs);
    header_util::lemma_search(f.value, "br".spec_bytes(), 0);
    header_util::lemma_search(f.value, "gzip".spec_bytes(), 0);
    if let Some(k) = header_util::search(f.value, "br".spec_bytes(), 0) {
        assert(f.value.subrange(k, k + 2) == seq![98u8, 114]);
    }
    if let Some(k) = header_util::search(f.value, "gzip".spec_bytes(), 0) {
        assert(f.value.subrange(k, k + 4) == seq![103u8, 122, 105, 112]);
    }
}

/// The cache takes part in a request exactly where its route caches, it is a `GET` without
/// credentials and without an upgrade; and it is asked for an answer unless the client says
/// `no-cache` or `no-store`.
pub proof fn law_cache_takes_part(m: Seq<char>, hs: Seq<Field>, c: RouteCache)
    ensures
        ({
            let plan = cache::cache_plan_of(Some(m), hs, Some(c));
            let plain = m == "GET"@ && forall|i: int|
                0 <= i < hs.len() ==> !text::eq_ci(
                    (#[trigger] hs[i]).name,
                    "authorization".spec_bytes(),
                ) && !text::eq_ci(hs[i].name, "upgrade".spec_bytes());
            let fresh = exists|i: int|
                0 <= i < hs.len() && text::eq_ci(
                    (#[trigger] hs[i]).name,
                    "cache-control".spec_bytes(),
                ) && (says(hs[i].value, "no-cache".spec_bytes()) || says(
                    hs[i].value,
                    "no-store".spec_bytes(),
                ));
            &&& plan.store == (if plain {
                Some(c)
            } else {
                None
            })
            &&& plan.lookup == (plain && !fresh)
            &&& cache::cache_plan_of(Some(m), hs, None) == (CachePlan { store: None, lookup: false })
        }),
{
    let plain = forall|i: int|
        0 <= i < hs.len() ==> !text::eq_ci((#[trigger] hs[i]).name, "authorization".spec_bytes())
            && !text::eq_ci(hs[i].name, "upgrade".spec_bytes());
    assert(plain == (!http::has_field(hs, "authorization") && !http::has_field(hs, "upgrade"))) by {
        if http::has_field(hs, "authorization") {
            let i = choose|i: int| 0 <= i < hs.len() && http::named(#[trigger] hs[i], "authorization");
            assert(text::eq_ci(hs[i].name, "authorization".spec_bytes()));
        }
        if http::has_field(hs, "upgrade") {
            let i = choose|i: int| 0 <= i < hs.len() && http::named(#[trigger] hs[i], "upgrade");
            assert(text::eq_ci(hs[i].name, "upgrade".spec_bytes()));
        }
        if !http::has_field(hs, "authorization") && !http::has_field(hs, "upgrade") {
            assert forall|i: int| 0 <= i < hs.len() implies !text::eq_ci(
                (#[trigger] hs[i]).name,
                "authorization".spec_bytes(),
            ) && !text::eq_ci(hs[i].name, "upgrade".spec_bytes()) by {
                assert(!http::named(hs[i], "authorization"));
                assert(!http::named(hs[i], "upgrade"));
            }
        }
    }
    assert forall|i: int| 0 <= i < hs.len() implies cache::forbids_cached(#[trigger] hs[i]) == (
    text::eq_ci(hs[i].name, "cache-control".spec_bytes()) && (says(
        hs[i].value,
        "no-cache".spec_bytes(),
    ) || says(hs[i].value, "no-store".spec_bytes()))) by {
        law_search_finds_what_is_there(hs[i].value, "no-cache");
        law_search_finds_what_is_there(hs[i].value, "no-store");
    }
    let fresh = exists|i: int|
        0 <= i < hs.len() && text::eq_ci((#[trigger] hs[i]).name, "cache-control".spec_bytes()) && (
        says(hs[i].value, "no-cache".spec_bytes()) || says(
            hs[i].value,
            "no-store".spec_bytes(),
        ));
    assert(fresh == cache::wants_fresh(hs)) by {
        if cache::wants_fresh(hs) {
            let i = choose|i: int| 0 <= i < hs.len() && cache::forbids_cached(#[trigger] hs[i]);
            assert(text::eq_ci(hs[i].name, "cache-control".spec_bytes()));
        }
        if fresh {
            let i = choose|i: int|
                0 <= i < hs.len() && text::eq_ci(
                    (#[trigger] hs[i]).name,
                    "cache-control".spec_bytes(),
                ) && (says(hs[i].value, "no-cache".spec_bytes()) || says(
                    hs[i].value,
                    "no-store".spec_bytes(),
                ));
            assert(cache::forbids_cached(hs[i]));
        }
    }
}

/// A client that shows the tag, or the time of the last change, that the kept response has is told
/// that nothing changed, where its route heeds such fields; any other client gets the kept response;
/// and no one gets it once its time is over.
pub proof fn law_answers_from_the_cache(
    r: Lookup,
    e: CacheModel,
    respect: bool,
    hs: Seq<Field>,
    now: u64,
)
    requires
        cache::lookup_is(r, Some(e), respect, hs, now),
    ensures
        e.expires_at <= now ==> r is Miss,
        e.expires_at > now && respect && e.etag is Some && cache::last_text(hs, "if-none-match")
            == e.etag ==> r is NotModified,
        e.expires_at > now && respect && e.last_modified is Some && cache::last_text(
            hs,
            "if-modified-since",
        ) == e.last_modified ==> r is NotModified,
        e.expires_at > now && (!respect || (cache::last_text(hs, "if-none-match") is None
            && cache::last_text(hs, "if-modified-since") is None)) ==> (
        r matches Lookup::Hit(d) && d@ == e.data),
        e.expires_at > now && cache::last_text(hs, "if-none-match") != e.etag && cache::last_text(
            hs,
            "if-modified-since",
        ) != e.last_modified ==> r is Hit,
{
}

/// The text of the last field of a name.
pub proof fn law_last_field_counts(hs: Seq<Field>, f: Field, name: &str)
    ensures
        cache::last_text(seq![], name) is None,
        cache::last_text(hs.push(f), name) == (if text::eq_ci(f.name, name.spec_bytes()) {
            if valid_utf8(f.value) {
                Some(decode_utf8(f.value))
            } else {
                None
            }
        } else {
            cache::last_text(hs, name)
        }),
{
    assert(hs.push(f).drop_last() =~= hs);
}

/// What is stored under a key carries the tag and the time of the response it came from.
pub proof fn law_stored_response_keeps_its_tags(
    a: Analysis,
    resp: ResponseFields,
    store: Option<RouteCache>,
    client_keep_alive: bool,
    draining: bool,
    f: Field,
)
    requires
        upstream::analysis_is(a, resp, store, client_keep_alive, draining),
        a.keep is Some,
        resp.headers.len() > 0,
        resp.headers.last() == f,
        valid_utf8(f.value),
    ensures
        text::eq_ci(f.name, "etag".spec_bytes()) ==> config::opt_text(a.keep->0.etag) == Some(
            decode_utf8(f.value),
        ),
        text::eq_ci(f.name, "last-modified".spec_bytes()) ==> config::opt_text(
            a.keep->0.last_modified,
        ) == Some(decode_utf8(f.value)),
{
}

} // verus!
