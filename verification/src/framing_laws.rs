//! How the framing of a request is read, and which requests are refused for it.

use vstd::prelude::*;
use vstd::string::*;
use vstd::utf8::*;

use crate::header_util;
use crate::header_util::Fragment;
use crate::http;
use crate::http::Field;
use crate::net::IpAddr;
use crate::path;
use crate::text;

verus! {

// ---------------------------------------------------------------------------
// Connection and host
// ---------------------------------------------------------------------------

/// Without a `Connection` field an HTTP/1.1 client stays connected and an older one does not. The
/// last such field that says `close` or `keep-alive` decides, and `close` before the other.
pub proof fn law_who_stays_connected(hs: Seq<Field>, f: Field, version: Option<u8>)
    ensures
        http::keeps_alive(seq![], version) <==> version == Some(1u8),
        ({
            let says_close = text::eq_ci(f.name, "connection".spec_bytes()) && http::mentions(
                f.value,
                "close",
            );
            let says_keep = text::eq_ci(f.name, "connection".spec_bytes()) && http::mentions(
                f.value,
                "keep-alive",
            );
            &&& says_close ==> !http::keeps_alive(hs.push(f), version)
            &&& !says_close && says_keep ==> http::keeps_alive(hs.push(f), version)
            &&& !says_close && !says_keep ==> http::keeps_alive(hs.push(f), version)
                == http::keeps_alive(hs, version)
        }),
{
    assert(hs.push(f).drop_last() =~= hs);
}

/// The host of a request is what its `Host` field says.
pub proof fn law_host_is_what_the_field_says(hs: Seq<Field>, f: Field)
    ensures
        http::host_of(seq![]) == Seq::<char>::empty(),
        text::eq_ci(f.name, "host".spec_bytes()) && valid_utf8(f.value) ==> http::host_of(
            hs.push(f),
        ) == decode_utf8(f.value),
        !text::eq_ci(f.name, "host".spec_bytes()) || !valid_utf8(f.value) ==> http::host_of(
            hs.push(f),
        ) == http::host_of(hs),
{
    assert(hs.push(f).drop_last() =~= hs);
}

// ---------------------------------------------------------------------------
// The body of a request
// ---------------------------------------------------------------------------

proof fn lemma_count(hs: Seq<Field>, name: &str)
    ensures
        http::count_field(hs, name) == 0 <==> forall|i: int|
            0 <= i < hs.len() ==> !text::eq_ci((#[trigger] hs[i]).name, name.spec_bytes()),
        http::count_field(hs, name) == 1 <==> only_field(hs, name.spec_bytes()),
    decreases hs.len(),
{
    let n = name.spec_bytes();
    if hs.len() > 0 {
        let t = hs.drop_last();
        let k = hs.len() - 1;
        lemma_count(t, name);
        assert(forall|i: int| 0 <= i < t.len() ==> #[trigger] t[i] == hs[i]);
        if http::count_field(t, name) == 0 && text::eq_ci(hs[k].name, n) {
            assert forall|j: int| 0 <= j < hs.len() && j != k implies !text::eq_ci(
                (#[trigger] hs[j]).name,
                n,
            ) by {
                assert(t[j] == hs[j]);
            }
            assert(is_only_field(hs, n, k));
        }
        if http::count_field(t, name) == 1 && !text::eq_ci(hs[k].name, n) {
            let i = choose|i: int| #[trigger] is_only_field(t, n, i);
            assert(t[i] == hs[i]);
            assert forall|j: int| 0 <= j < hs.len() && j != i implies !text::eq_ci(
                (#[trigger] hs[j]).name,
                n,
            ) by {
                if j < t.len() {
                    assert(t[j] == hs[j]);
                }
            }
            assert(is_only_field(hs, n, i));
        }
        if only_field(hs, n) {
            let i = choose|i: int| #[trigger] is_only_field(hs, n, i);
            if i == k {
                assert forall|j: int| 0 <= j < t.len() implies !text::eq_ci(
                    (#[trigger] t[j]).name,
                    n,
                ) by {
                    assert(t[j] == hs[j]);
                }
            } else {
                assert(t[i] == hs[i]);
                assert forall|j: int| 0 <= j < t.len() && j != i implies !text::eq_ci(
                    (#[trigger] t[j]).name,
                    n,
                ) by {
                    assert(t[j] == hs[j]);
                }
                assert(is_only_field(t, n, i));
                assert(!text::eq_ci(hs[k].name, n));
            }
        }
        if forall|i: int| 0 <= i < hs.len() ==> !text::eq_ci((#[trigger] hs[i]).name, n) {
            assert(!text::eq_ci(hs[k].name, n));
            assert forall|j: int| 0 <= j < t.len() implies !text::eq_ci(
                (#[trigger] t[j]).name,
                n,
            ) by {
                assert(t[j] == hs[j]);
            }
        }
        if http::count_field(hs, name) == 0 {
            assert forall|i: int| 0 <= i < hs.len() implies !text::eq_ci(
                (#[trigger] hs[i]).name,
                n,
            ) by {
                if i < t.len() {
                    assert(t[i] == hs[i]);
                }
            }
        }
    } else {
        if only_field(hs, n) {
            let i = choose|i: int| #[trigger] is_only_field(hs, n, i);
            assert(0 <= i < hs.len());
        }
    }
}

/// Whether the field at a place has a name, up to case, and no other has.
pub open spec fn is_only_field(hs: Seq<Field>, name: Seq<u8>, i: int) -> bool {
    &&& 0 <= i < hs.len()
    &&& text::eq_ci(hs[i].name, name)
    &&& forall|j: int| 0 <= j < hs.len() && j != i ==> !text::eq_ci((#[trigger] hs[j]).name, name)
}

/// Whether exactly one field has a name.
pub open spec fn only_field(hs: Seq<Field>, name: Seq<u8>) -> bool {
    exists|i: int| #[trigger] is_only_field(hs, name, i)
}

/// Whether a value is, but for blanks around it, the word `chunked` in either case.
pub open spec fn is_chunked_word(v: Seq<u8>) -> bool {
    valid_utf8(v) && text::eq_ci(encode_utf8(text::trim(decode_utf8(v))), "chunked".spec_bytes())
}

/// A request is chunked exactly where it has one `Transfer-Encoding` field, and that is `chunked`.
pub proof fn law_which_requests_are_chunked(hs: Seq<Field>)
    ensures
        http::chunked_request(hs) <==> exists|i: int| #[trigger]
            is_only_field(hs, "transfer-encoding".spec_bytes(), i) && is_chunked_word(hs[i].value),
{
    let n = "transfer-encoding".spec_bytes();
    lemma_count(hs, "transfer-encoding");
    if http::chunked_request(hs) {
        let i = choose|i: int| #[trigger] is_only_field(hs, n, i);
        assert(http::named(hs[i], "transfer-encoding"));
        assert(http::bare_chunked(hs[i].value));
    }
    if exists|i: int| #[trigger] is_only_field(hs, n, i) && is_chunked_word(hs[i].value) {
        let i = choose|i: int| #[trigger]
            is_only_field(hs, n, i) && is_chunked_word(hs[i].value);
        assert forall|j: int|
            0 <= j < hs.len() && http::named(#[trigger] hs[j], "transfer-encoding") implies http::bare_chunked(
            hs[j].value,
        ) by {
            assert(j == i);
        }
    }
}

/// The last coding of a response decides whether it is chunked: what stands behind the last comma.
pub proof fn law_last_coding_decides(before: Seq<char>, last: Seq<char>)
    requires
        !last.contains(','),
    ensures
        header_util::chunked_last(last) <==> text::eq_ci(
            encode_utf8(text::trim(last)),
            "chunked".spec_bytes(),
        ),
        header_util::chunked_last(before + seq![','] + last) == header_util::chunked_last(last),
{
    text::lemma_rfind(last, ',');
    let k = text::rfind(last, ',');
    if k >= 0 {
        assert(last.contains(last[k]));
    }
    assert(last.skip(0) =~= last);
    let v = before + seq![','] + last;
    let n = before.len() as int;
    text::lemma_rfind(v, ',');
    assert(v[n] == ',');
    let m = text::rfind(v, ',');
    if m > n {
        assert(v[m] == last[m - n - 1]);
        assert(last.contains(last[m - n - 1]));
    }
    assert(v.skip(n + 1) =~= last);
}

// ---------------------------------------------------------------------------
// What is refused
// ---------------------------------------------------------------------------

/// A request is refused where its framing or its host could be read in two ways: two lengths that
/// differ, a length that is none, a transfer coding other than one `chunked`, or two hosts.
pub proof fn law_ambiguous_requests_are_refused(
    hs: Seq<Field>,
    version: Option<u8>,
    target: Option<Seq<char>>,
    reject_encoded_slash: bool,
    i: int,
    j: int,
)
    requires
        0 <= i < hs.len(),
        0 <= j < hs.len(),
    ensures
        ({
            let bad = http::bad_request(hs, version, target, reject_encoded_slash);
            let length = "content-length".spec_bytes();
            let coding = "transfer-encoding".spec_bytes();
            let host = "host".spec_bytes();
            &&& text::eq_ci(hs[i].name, length) && http::length_value(hs[i].value) is None ==> bad
            &&& text::eq_ci(hs[i].name, length) && text::eq_ci(hs[j].name, length)
                && http::length_value(hs[i].value) != http::length_value(hs[j].value) ==> bad
            &&& text::eq_ci(hs[i].name, coding) && !is_chunked_word(hs[i].value) ==> bad
            &&& i != j && text::eq_ci(hs[i].name, coding) && text::eq_ci(hs[j].name, coding) ==> bad
            &&& i != j && text::eq_ci(hs[i].name, host) && text::eq_ci(hs[j].name, host) ==> bad
        }),
{
    let bad = http::bad_request(hs, version, target, reject_encoded_slash);
    let length = "content-length".spec_bytes();
    let coding = "transfer-encoding".spec_bytes();
    let host = "host".spec_bytes();
    lemma_count(hs, "transfer-encoding");
    lemma_count(hs, "host");
    if !bad {
        http::law_accepted_framing_is_unambiguous(hs, version, target, reject_encoded_slash);
        if text::eq_ci(hs[i].name, length) {
            assert(http::named(hs[i], "content-length"));
        }
        if text::eq_ci(hs[j].name, length) {
            assert(http::named(hs[j], "content-length"));
        }
        if text::eq_ci(hs[i].name, coding) {
            assert(http::named(hs[i], "transfer-encoding"));
            assert(http::bare_chunked(hs[i].value));
            let k = choose|k: int| #[trigger] is_only_field(hs, coding, k);
            assert(k == i);
        }
        if text::eq_ci(hs[i].name, host) && text::eq_ci(hs[j].name, host) {
            if only_field(hs, host) {
                let k = choose|k: int| #[trigger] is_only_field(hs, host, k);
                assert(k == i);
            }
        }
    }
}

/// A request is refused without a host under HTTP/1.1, and for a target that is neither rooted nor
/// `*`, carries a fragment, or, where that is asked for, hides a separator.
pub proof fn law_strange_targets_are_refused(
    hs: Seq<Field>,
    version: Option<u8>,
    p: Seq<char>,
    reject_encoded_slash: bool,
)
    ensures
        ({
            let bad = http::bad_request(hs, version, Some(p), reject_encoded_slash);
            &&& version == Some(1u8) && (forall|k: int|
                0 <= k < hs.len() ==> !text::eq_ci((#[trigger] hs[k]).name, "host".spec_bytes()))
                ==> bad
            &&& p.len() == 0 ==> bad
            &&& p.len() > 0 && p[0] != '/' && p != seq!['*'] ==> bad
            &&& p.contains('#') ==> bad
            &&& reject_encoded_slash && path::evasive(encode_utf8(p)) ==> bad
        }),
{
    reveal_strlit("/");
    reveal_strlit("*");
    assert("*"@ =~= seq!['*']);
    if "/"@.is_prefix_of(p) {
        assert(p.subrange(0, 1)[0] == "/"@[0]);
    }
    lemma_count(hs, "host");
}

/// A request whose framing, host and target can be read in one way only is not refused: it has one
/// host, no transfer coding, at most one length and that a number, and a rooted target without a
/// fragment.
pub proof fn law_sound_requests_are_let_through(
    hs: Seq<Field>,
    version: Option<u8>,
    p: Seq<char>,
)
    requires
        only_field(hs, "host".spec_bytes()),
        forall|i: int|
            0 <= i < hs.len() ==> !text::eq_ci(
                (#[trigger] hs[i]).name,
                "transfer-encoding".spec_bytes(),
            ),
        (forall|i: int|
            0 <= i < hs.len() ==> !text::eq_ci(
                (#[trigger] hs[i]).name,
                "content-length".spec_bytes(),
            )) || (exists|i: int| #[trigger]
            is_only_field(hs, "content-length".spec_bytes(), i) && http::length_value(hs[i].value)
                is Some),
        p.len() > 0,
        p[0] == '/',
        !p.contains('#'),
    ensures
        !http::bad_request(hs, version, Some(p), false),
{
    reveal_strlit("/");
    assert(p.subrange(0, 1) =~= "/"@);
    lemma_count(hs, "host");
    lemma_count(hs, "transfer-encoding");
    lemma_count(hs, "content-length");
    assert(!http::has_field(hs, "transfer-encoding"));
    lemma_lengths_count(hs);
    assert forall|i: int|
        0 <= i < hs.len() && http::named(#[trigger] hs[i], "content-length") implies http::length_value(
        hs[i].value,
    ) is Some by {
        assert(text::eq_ci(hs[i].name, "content-length".spec_bytes()));
        if exists|k: int| #[trigger]
            is_only_field(hs, "content-length".spec_bytes(), k) && http::length_value(hs[k].value)
                is Some {
            let k = choose|k: int| #[trigger]
                is_only_field(hs, "content-length".spec_bytes(), k) && http::length_value(
                    hs[k].value,
                ) is Some;
            assert(k == i);
        }
    }
    assert(!http::bad_length(hs));
}

proof fn lemma_lengths_count(hs: Seq<Field>)
    ensures
        http::lengths(hs).len() <= http::count_field(hs, "content-length"),
    decreases hs.len(),
{
    if hs.len() > 0 {
        lemma_lengths_count(hs.drop_last());
    }
}

// ---------------------------------------------------------------------------
// Fields that the proxy sets
// ---------------------------------------------------------------------------

proof fn lemma_rendered_sum(a: Seq<Fragment>, b: Seq<Fragment>, ip: IpAddr)
    ensures
        http::rendered_all(a + b, ip) == http::rendered_all(a, ip) + http::rendered_all(b, ip),
    decreases b.len(),
{
    if b.len() == 0 {
        assert(a + b =~= a);
        assert(http::rendered_all(a, ip) + Seq::<u8>::empty() =~= http::rendered_all(a, ip));
    } else {
        lemma_rendered_sum(a, b.drop_last(), ip);
        assert((a + b).drop_last() =~= a + b.drop_last());
        assert(http::rendered_all(a + b, ip) =~= http::rendered_all(a, ip) + http::rendered_all(b, ip));
    }
}

proof fn lemma_rendered_one(f: Fragment, ip: IpAddr)
    ensures
        http::rendered_all(seq![f], ip) == http::rendered(f, ip),
{
    let none = Seq::<Fragment>::empty();
    assert(seq![f].drop_last() =~= none);
    assert(http::rendered_all(none, ip) =~= Seq::<u8>::empty());
    assert(http::rendered_all(seq![f], ip) =~= http::rendered(f, ip));
}

/// The letters of the word that stands for the client's address.
pub open spec fn address_word() -> Seq<u8> {
    seq![36u8, 99, 108, 105, 101, 110, 116, 95, 105, 112]
}

proof fn lemma_address_word()
    ensures
        header_util::client_ip_token() == address_word(),
{
    reveal_strlit("$client_ip");
    assert("$client_ip".is_ascii());
    assert(header_util::client_ip_token() =~= address_word());
}

/// A field that the proxy sets reaches the backend as the line `name: value`; where the value holds
/// `$client_ip`, the client's address stands in its place, each time.
pub proof fn law_set_fields(
    name: Seq<char>,
    value: Seq<char>,
    text: Seq<u8>,
    a: Seq<u8>,
    b: Seq<u8>,
    ip: IpAddr,
)
    requires
        forall|k: int|
            0 <= k < a.len() ==> #[trigger] (a + address_word() + b).subrange(k, k + 10)
                != address_word(),
        forall|k: int|
            0 <= k <= encode_utf8(value).len() - 10 ==> #[trigger] encode_utf8(value).subrange(
                k,
                k + 10,
            ) != address_word(),
        ip.text().len() <= 45,
    ensures
        http::rendered_all(header_util::compile_entry(name, value), ip) == encode_utf8(name) + seq![
            58u8,
            32,
        ] + encode_utf8(value) + seq![13u8, 10],
        http::rendered_all(header_util::compile_value(text, a + address_word() + b), ip) == text + a
            + ip.text() + http::rendered_all(header_util::compile_value(seq![], b), ip),
{
    lemma_address_word();
    let w = address_word();
    reveal_strlit(": ");
    reveal_strlit("\r\n");
    assert(": ".is_ascii());
    assert("\r\n".is_ascii());
    assert(": ".spec_bytes() =~= seq![58u8, 32]);
    assert("\r\n".spec_bytes() =~= seq![13u8, 10]);
    let v = encode_utf8(value);
    header_util::lemma_search(v, w, 0);
    if let Some(k) = header_util::search(v, w, 0) {
        assert(v.subrange(k, k + 10) == w);
    }
    let line = Fragment::Text(encode_utf8(name) + ": ".spec_bytes() + v + "\r\n".spec_bytes());
    assert(header_util::compile_entry(name, value) =~= seq![line]);
    lemma_rendered_one(line, ip);
    let whole = a + w + b;
    let n = a.len() as int;
    header_util::lemma_search(whole, w, 0);
    assert(whole.subrange(n, n + w.len()) =~= w);
    assert(header_util::search(whole, w, 0) is Some);
    let k = header_util::search(whole, w, 0)->0;
    if k < n {
        assert(whole.subrange(k, k + 10) == w);
    }
    assert(k == n);
    assert(whole.take(n) =~= a);
    assert(whole.skip(n + w.len()) =~= b);
    let first = Fragment::Text(text + a);
    let rest = header_util::compile_value(seq![], b);
    assert(header_util::compile_value(text, whole) =~= seq![first] + (seq![Fragment::ClientIp]
        + rest));
    lemma_rendered_sum(seq![first], seq![Fragment::ClientIp] + rest, ip);
    lemma_rendered_sum(seq![Fragment::ClientIp], rest, ip);
    lemma_rendered_one(first, ip);
    lemma_rendered_one(Fragment::ClientIp, ip);
    assert(http::rendered_all(header_util::compile_value(text, whole), ip) =~= text + a + ip.text()
        + http::rendered_all(rest, ip));
}

/// The fields that the proxy sets stand one behind the other.
pub proof fn law_set_fields_follow_each_other(
    entries: Seq<(String, String)>,
    e: (String, String),
    ip: IpAddr,
)
    ensures
        http::rendered_all(header_util::compile_entries(entries.push(e)), ip)
            == http::rendered_all(header_util::compile_entries(entries), ip) + http::rendered_all(
            header_util::compile_entry(e.0@, e.1@),
            ip,
        ),
        header_util::entry_names(entries.push(e)) == header_util::entry_names(entries).push(
            encode_utf8(e.0@),
        ),
{
    assert(entries.push(e).drop_last() =~= entries);
    lemma_rendered_sum(
        header_util::compile_entries(entries),
        header_util::compile_entry(e.0@, e.1@),
        ip,
    );
    assert(header_util::entry_names(entries.push(e)) =~= header_util::entry_names(entries).push(
        encode_utf8(e.0@),
    ));
}

/// An address is written as its four bytes, the highest first, in decimal with dots between.
pub proof fn law_address_text(a: u32, b0: u8, b1: u8, b2: u8, b3: u8)
    requires
        a == b0 * 0x1000000 + b1 * 0x10000 + b2 * 0x100 + b3,
    ensures
        IpAddr::V4(a).text() == text::decimal_bytes(b0 as nat) + seq![46u8] + text::decimal_bytes(
            b1 as nat,
        ) + seq![46u8] + text::decimal_bytes(b2 as nat) + seq![46u8] + text::decimal_bytes(
            b3 as nat,
        ),
{
    assert(a / 0x1000000 == b0);
    assert(a / 0x10000 % 256 == b1);
    assert(a / 0x100 % 256 == b2);
    assert(a % 256 == b3);
}

} // verus!
