//! What a message that passes through the proxy keeps, and what it loses.

use vstd::prelude::*;
use vstd::string::*;
use vstd::utf8::*;

use crate::header_util;
use crate::http;
use crate::http::{Field, RequestFields, ResponseFields};
use crate::net::IpAddr;
use crate::text;

verus! {

/// The names of the fields that are about one connection and not about the message.
pub open spec fn about_connection(name: Seq<u8>) -> bool {
    ||| text::eq_ci(name, "connection".spec_bytes())
    ||| text::eq_ci(name, "keep-alive".spec_bytes())
    ||| text::eq_ci(name, "proxy-authenticate".spec_bytes())
    ||| text::eq_ci(name, "proxy-authorization".spec_bytes())
    ||| text::eq_ci(name, "te".spec_bytes())
    ||| text::eq_ci(name, "trailer".spec_bytes())
    ||| text::eq_ci(name, "upgrade".spec_bytes())
}

/// Whether `part` stands somewhere in `whole`.
pub open spec fn stands_in(part: Seq<u8>, whole: Seq<u8>) -> bool {
    exists|k: int|
        0 <= k <= whole.len() - part.len() && #[trigger] whole.subrange(k, k + part.len()) == part
}

proof fn lemma_first_line(a: Seq<u8>, b: Seq<u8>, version: Seq<u8>, rest: Seq<u8>)
    requires
        !a.contains(32),
        !b.contains(32),
        !a.contains(13),
        !b.contains(13),
        version == seq![72u8, 84, 84, 80, 47, 49, 46, 49],
    ensures
        ({
            let line = a + seq![32u8] + b + seq![32u8] + version;
            let all = line + seq![13u8, 10] + rest;
            &&& all.take(text::find(all, 13u8)) == line
            &&& text::split(line, 32u8) == seq![a, b, version]
        }),
{
    let line = a + seq![32u8] + b + seq![32u8] + version;
    let all = line + seq![13u8, 10] + rest;
    assert forall|i: int| 0 <= i < line.len() implies all[i] != 13 by {
        if i < a.len() {
            assert(all[i] == a[i]);
        } else if i > a.len() && i < a.len() + 1 + b.len() {
            assert(all[i] == b[i - a.len() - 1]);
        }
    }
    text::lemma_find_is(all, 13u8, line.len() as int);
    assert(all.take(line.len() as int) =~= line);
    assert forall|i: int| 0 <= i < a.len() implies line[i] != 32 by {
        assert(line[i] == a[i]);
    }
    text::lemma_find_is(line, 32u8, a.len() as int);
    assert(line.take(a.len() as int) =~= a);
    let second = b + seq![32u8] + version;
    assert(line.skip(a.len() as int + 1) =~= second);
    assert forall|i: int| 0 <= i < b.len() implies second[i] != 32 by {
        assert(second[i] == b[i]);
    }
    text::lemma_find_is(second, 32u8, b.len() as int);
    assert(second.take(b.len() as int) =~= b);
    assert(second.skip(b.len() as int + 1) =~= version);
    text::lemma_find_is(version, 32u8, version.len() as int);
    assert(text::split(version, 32u8) =~= seq![version]);
    assert(text::split(second, 32u8) =~= seq![b, version]);
    assert(text::split(line, 32u8) =~= seq![a, b, version]);
}

proof fn lemma_texts()
    ensures
        " ".spec_bytes() == seq![32u8],
        "\r\n".spec_bytes() == seq![13u8, 10],
        ": ".spec_bytes() == seq![58u8, 32],
        " HTTP/1.1\r\n".spec_bytes() == seq![32u8, 72, 84, 84, 80, 47, 49, 46, 49, 13, 10],
        "HTTP/1.1 ".spec_bytes() == seq![72u8, 84, 84, 80, 47, 49, 46, 49, 32],
{
    reveal_strlit(" ");
    reveal_strlit("\r\n");
    reveal_strlit(": ");
    reveal_strlit(" HTTP/1.1\r\n");
    reveal_strlit("HTTP/1.1 ");
    assert(" ".is_ascii());
    assert("\r\n".is_ascii());
    assert(": ".is_ascii());
    assert(" HTTP/1.1\r\n".is_ascii());
    assert("HTTP/1.1 ".is_ascii());
    assert(" ".spec_bytes() =~= seq![32u8]);
    assert("\r\n".spec_bytes() =~= seq![13u8, 10]);
    assert(": ".spec_bytes() =~= seq![58u8, 32]);
    assert(" HTTP/1.1\r\n".spec_bytes() =~= seq![32u8, 72, 84, 84, 80, 47, 49, 46, 49, 13, 10]);
    assert("HTTP/1.1 ".spec_bytes() =~= seq![72u8, 84, 84, 80, 47, 49, 46, 49, 32]);
}

// ---------------------------------------------------------------------------
// The request line
// ---------------------------------------------------------------------------

/// What goes to a backend begins with the client's own method and the target on which the request
/// was judged. Read back as a request line, it gives both again.
pub proof fn law_backend_gets_the_clients_method_and_target(
    req: RequestFields,
    m: Seq<char>,
    target: Seq<u8>,
    frags: Seq<header_util::Fragment>,
    inject: Seq<Seq<u8>>,
    ip: IpAddr,
    chunked: bool,
    keep_alive: bool,
    upgrade: bool,
)
    requires
        req.method == Some(m),
    ensures
        ({
            let head = http::upstream_head(
                req,
                target,
                frags,
                inject,
                ip,
                chunked,
                keep_alive,
                upgrade,
            );
            let method = encode_utf8(m);
            let version = seq![72u8, 84, 84, 80, 47, 49, 46, 49];
            &&& (method + seq![32u8] + target + seq![32u8] + version + seq![13u8, 10]).is_prefix_of(
                head,
            )
            &&& !method.contains(32) && !method.contains(13) && !target.contains(32)
                && !target.contains(13) ==> text::split(
                head.take(text::find(head, 13u8)),
                32u8,
            ) == seq![method, target, version]
        }),
{
    lemma_texts();
    let head = http::upstream_head(req, target, frags, inject, ip, chunked, keep_alive, upgrade);
    let method = encode_utf8(m);
    let version = seq![72u8, 84, 84, 80, 47, 49, 46, 49];
    let line = method + seq![32u8] + target + seq![32u8] + version;
    let begin = line + seq![13u8, 10];
    let rest = head.skip(begin.len() as int);
    assert(begin =~= method + seq![32u8] + target + " HTTP/1.1\r\n".spec_bytes());
    assert(head =~= begin + rest);
    assert(begin.is_prefix_of(head));
    if !method.contains(32) && !method.contains(13) && !target.contains(32) && !target.contains(13) {
        lemma_first_line(method, target, version, rest);
    }
}

/// Two requests that reach a backend with the same first line were sent with the same method, for
/// the same target.
pub proof fn law_requests_are_told_apart(
    a: RequestFields,
    b: RequestFields,
    target_a: Seq<u8>,
    target_b: Seq<u8>,
    frags: Seq<header_util::Fragment>,
    inject: Seq<Seq<u8>>,
    ip: IpAddr,
    chunked: bool,
    keep_alive: bool,
    upgrade: bool,
)
    requires
        a.method matches Some(m) && !encode_utf8(m).contains(32) && !encode_utf8(m).contains(13),
        b.method matches Some(m) && !encode_utf8(m).contains(32) && !encode_utf8(m).contains(13),
        !target_a.contains(32) && !target_a.contains(13),
        !target_b.contains(32) && !target_b.contains(13),
        ({
            let x = http::upstream_head(
                a,
                target_a,
                frags,
                inject,
                ip,
                chunked,
                keep_alive,
                upgrade,
            );
            let y = http::upstream_head(
                b,
                target_b,
                frags,
                inject,
                ip,
                chunked,
                keep_alive,
                upgrade,
            );
            x.take(text::find(x, 13u8)) == y.take(text::find(y, 13u8))
        }),
    ensures
        a.method == b.method,
        target_a == target_b,
{
    law_backend_gets_the_clients_method_and_target(
        a,
        a.method->0,
        target_a,
        frags,
        inject,
        ip,
        chunked,
        keep_alive,
        upgrade,
    );
    law_backend_gets_the_clients_method_and_target(
        b,
        b.method->0,
        target_b,
        frags,
        inject,
        ip,
        chunked,
        keep_alive,
        upgrade,
    );
    let version = seq![72u8, 84, 84, 80, 47, 49, 46, 49];
    let xs = seq![encode_utf8(a.method->0), target_a, version];
    let ys = seq![encode_utf8(b.method->0), target_b, version];
    assert(xs == ys);
    assert(xs[0] == ys[0] && xs[1] == ys[1]);
    text::lemma_same_bytes(a.method->0, b.method->0);
}

// ---------------------------------------------------------------------------
// The fields of a request
// ---------------------------------------------------------------------------

proof fn lemma_line_in_lines(fs: Seq<Field>, i: int)
    requires
        0 <= i < fs.len(),
    ensures
        stands_in(fs[i].name + seq![58u8, 32] + fs[i].value + seq![13u8, 10], http::lines(fs)),
    decreases fs.len(),
{
    lemma_texts();
    let part = fs[i].name + seq![58u8, 32] + fs[i].value + seq![13u8, 10];
    let before = http::lines(fs.drop_last());
    let all = http::lines(fs);
    if i == fs.len() - 1 {
        let k = before.len() as int;
        assert(all =~= before + part);
        assert(all.subrange(k, k + part.len()) =~= part);
    } else {
        lemma_line_in_lines(fs.drop_last(), i);
        let k = choose|k: int|
            0 <= k <= before.len() - part.len() && #[trigger] before.subrange(k, k + part.len())
                == part;
        assert(all.subrange(k, k + part.len()) =~= before.subrange(k, k + part.len()));
    }
}

proof fn lemma_stands_in_longer(part: Seq<u8>, mid: Seq<u8>, before: Seq<u8>, after: Seq<u8>)
    requires
        stands_in(part, mid),
    ensures
        stands_in(part, before + mid + after),
{
    let k = choose|k: int|
        0 <= k <= mid.len() - part.len() && #[trigger] mid.subrange(k, k + part.len()) == part;
    let all = before + mid + after;
    let at = before.len() + k;
    assert(all.subrange(at, at + part.len()) =~= mid.subrange(k, k + part.len()));
}

/// Every field of the client that is about the message reaches the backend as the client wrote it:
/// whatever has a name that is none of the connection's, no framing, and not set by the proxy.
pub proof fn law_end_to_end_fields_reach_the_backend(
    req: RequestFields,
    target: Seq<u8>,
    frags: Seq<header_util::Fragment>,
    inject: Seq<Seq<u8>>,
    ip: IpAddr,
    chunked: bool,
    keep_alive: bool,
    upgrade: bool,
    i: int,
)
    requires
        0 <= i < req.headers.len(),
        req.headers[i].name.len() > 0,
        !about_connection(req.headers[i].name),
        !text::eq_ci(req.headers[i].name, "content-length".spec_bytes()),
        !text::eq_ci(req.headers[i].name, "transfer-encoding".spec_bytes()),
        forall|k: int|
            0 <= k < inject.len() ==> !text::eq_ci(req.headers[i].name, #[trigger] inject[k]),
    ensures
        stands_in(
            req.headers[i].name + seq![58u8, 32] + req.headers[i].value + seq![13u8, 10],
            http::upstream_head(req, target, frags, inject, ip, chunked, keep_alive, upgrade),
        ),
{
    let f = req.headers[i];
    let fs = http::upstream_fields(req.headers, inject, chunked, upgrade);
    http::law_ordinary_fields_go_upstream(req.headers, inject, chunked, upgrade, i);
    let k = choose|k: int| 0 <= k < fs.len() && fs[k] == f;
    lemma_line_in_lines(fs, k);
    lemma_request_layout(req, target, frags, inject, ip, chunked, keep_alive, upgrade);
}

proof fn lemma_request_layout(
    req: RequestFields,
    target: Seq<u8>,
    frags: Seq<header_util::Fragment>,
    inject: Seq<Seq<u8>>,
    ip: IpAddr,
    chunked: bool,
    keep_alive: bool,
    upgrade: bool,
)
    ensures
        forall|part: Seq<u8>|
            stands_in(
                part,
                http::lines(http::upstream_fields(req.headers, inject, chunked, upgrade)),
            ) ==> #[trigger] stands_in(
                part,
                http::upstream_head(req, target, frags, inject, ip, chunked, keep_alive, upgrade),
            ),
{
    let mid = http::lines(http::upstream_fields(req.headers, inject, chunked, upgrade));
    let before = encode_utf8(
        match req.method {
            Some(m) => m,
            None => "GET"@,
        },
    ) + " ".spec_bytes() + target + " HTTP/1.1\r\n".spec_bytes();
    let after = (if upgrade {
        seq![]
    } else {
        http::connection_line(keep_alive)
    }) + (if chunked {
        "Transfer-Encoding: chunked\r\n".spec_bytes()
    } else {
        seq![]
    }) + http::rendered_all(frags, ip) + "\r\n".spec_bytes();
    let head = http::upstream_head(req, target, frags, inject, ip, chunked, keep_alive, upgrade);
    assert(head =~= before + mid + after);
    assert forall|part: Seq<u8>| stands_in(part, mid) implies #[trigger] stands_in(part, head) by {
        lemma_stands_in_longer(part, mid, before, after);
    }
}

/// What a backend gets beside the request line: the client's fields, each on its line, then what the
/// proxy says of the connection and the framing, then the fields that it sets, then a blank line. No
/// field of the client's connection is among them, but for an upgrade; no transfer coding of the
/// client's; no field whose name the proxy sets; and, under chunked coding, no length.
#[verifier::spinoff_prover]
pub proof fn law_request_head_holds_nothing_else(
    req: RequestFields,
    m: Seq<char>,
    target: Seq<u8>,
    frags: Seq<header_util::Fragment>,
    inject: Seq<Seq<u8>>,
    ip: IpAddr,
    chunked: bool,
    keep_alive: bool,
    upgrade: bool,
)
    requires
        req.method == Some(m),
    ensures
        ({
            let kept = http::upstream_fields(req.headers, inject, chunked, upgrade);
            let head = http::upstream_head(
                req,
                target,
                frags,
                inject,
                ip,
                chunked,
                keep_alive,
                upgrade,
            );
            let connection = if upgrade {
                seq![]
            } else if keep_alive {
                "Connection: keep-alive\r\n".spec_bytes()
            } else {
                "Connection: close\r\n".spec_bytes()
            };
            let coding = if chunked {
                "Transfer-Encoding: chunked\r\n".spec_bytes()
            } else {
                seq![]
            };
            &&& head == encode_utf8(m) + seq![32u8] + target + " HTTP/1.1\r\n".spec_bytes()
                + kept.fold_left(
                Seq::<u8>::empty(),
                |a: Seq<u8>, f: Field| a + f.name + seq![58u8, 32] + f.value + seq![13u8, 10],
            ) + connection + coding + http::rendered_all(frags, ip) + seq![13u8, 10]
            &&& forall|k: int|
                0 <= k < kept.len() ==> {
                    let f = #[trigger] kept[k];
                    &&& req.headers.contains(f)
                    &&& f.name.len() > 0
                    &&& about_connection(f.name) ==> upgrade && (text::eq_ci(
                        f.name,
                        "connection".spec_bytes(),
                    ) || text::eq_ci(f.name, "upgrade".spec_bytes()))
                    &&& !text::eq_ci(f.name, "transfer-encoding".spec_bytes())
                    &&& chunked ==> !text::eq_ci(f.name, "content-length".spec_bytes())
                    &&& forall|j: int|
                        0 <= j < inject.len() ==> !text::eq_ci(f.name, #[trigger] inject[j])
                }
        }),
{
    lemma_texts();
    let kept = http::upstream_fields(req.headers, inject, chunked, upgrade);
    lemma_lines_fold(kept);
    let head = http::upstream_head(req, target, frags, inject, ip, chunked, keep_alive, upgrade);
    assert forall|k: int| 0 <= k < kept.len() implies ({
        let f = #[trigger] kept[k];
        &&& req.headers.contains(f)
        &&& f.name.len() > 0
        &&& about_connection(f.name) ==> upgrade && (text::eq_ci(f.name, "connection".spec_bytes())
            || text::eq_ci(f.name, "upgrade".spec_bytes()))
        &&& !text::eq_ci(f.name, "transfer-encoding".spec_bytes())
        &&& chunked ==> !text::eq_ci(f.name, "content-length".spec_bytes())
        &&& forall|j: int| 0 <= j < inject.len() ==> !text::eq_ci(f.name, #[trigger] inject[j])
    }) by {
        http::law_upstream_fields_are_clean(req.headers, inject, chunked, upgrade, k);
        lemma_kept_is_named(req.headers, inject, chunked, upgrade, k);
    }
    assert(head =~= encode_utf8(m) + seq![32u8] + target + " HTTP/1.1\r\n".spec_bytes()
        + http::lines(kept) + (if upgrade {
        seq![]
    } else {
        http::connection_line(keep_alive)
    }) + (if chunked {
        "Transfer-Encoding: chunked\r\n".spec_bytes()
    } else {
        seq![]
    }) + http::rendered_all(frags, ip) + seq![13u8, 10]);
}

proof fn lemma_kept_is_named(
    hs: Seq<Field>,
    inject: Seq<Seq<u8>>,
    chunked: bool,
    upgrade: bool,
    k: int,
)
    requires
        0 <= k < http::upstream_fields(hs, inject, chunked, upgrade).len(),
    ensures
        http::upstream_fields(hs, inject, chunked, upgrade)[k].name.len() > 0,
    decreases hs.len(),
{
    let kept = http::upstream_fields(hs.drop_last(), inject, chunked, upgrade);
    if k < kept.len() {
        lemma_kept_is_named(hs.drop_last(), inject, chunked, upgrade, k);
    }
}

proof fn lemma_lines_fold(fs: Seq<Field>)
    ensures
        http::lines(fs) == fs.fold_left(
            Seq::<u8>::empty(),
            |a: Seq<u8>, f: Field| a + f.name + seq![58u8, 32] + f.value + seq![13u8, 10],
        ),
    decreases fs.len(),
{
    lemma_texts();
    if fs.len() > 0 {
        lemma_lines_fold(fs.drop_last());
        let a = http::lines(fs.drop_last());
        let f = fs.last();
        assert(a + http::line(f) =~= a + f.name + seq![58u8, 32] + f.value + seq![13u8, 10]);
    }
}

/// The first length that a client gives goes to the backend as the client wrote it, unless the body
/// is chunked.
pub proof fn law_length_reaches_the_backend(
    hs: Seq<Field>,
    inject: Seq<Seq<u8>>,
    upgrade: bool,
    i: int,
)
    requires
        0 <= i < hs.len(),
        text::eq_ci(hs[i].name, "content-length".spec_bytes()),
        forall|k: int|
            0 <= k < i ==> !text::eq_ci((#[trigger] hs[k]).name, "content-length".spec_bytes()),
        forall|k: int| 0 <= k < inject.len() ==> !text::eq_ci(hs[i].name, #[trigger] inject[k]),
    ensures
        http::upstream_fields(hs, inject, false, upgrade).contains(hs[i]),
    decreases hs.len(),
{
    let t = hs.drop_last();
    let all = http::upstream_fields(hs, inject, false, upgrade);
    let kept = http::upstream_fields(t, inject, false, upgrade);
    if i == hs.len() - 1 {
        lemma_length_names(hs[i].name);
        assert(!http::has_field(t, "content-length")) by {
            assert forall|k: int| 0 <= k < t.len() implies !http::named(
                #[trigger] t[k],
                "content-length",
            ) by {
                assert(t[k] == hs[k]);
            }
        }
        assert(all[all.len() - 1] == hs[i]);
    } else {
        assert forall|k: int| 0 <= k < i implies !text::eq_ci(
            (#[trigger] t[k]).name,
            "content-length".spec_bytes(),
        ) by {
            assert(t[k] == hs[k]);
        }
        law_length_reaches_the_backend(t, inject, upgrade, i);
        let k = choose|k: int| 0 <= k < kept.len() && kept[k] == t[i];
        assert(all[k] == hs[i]);
    }
}

proof fn lemma_length_names(name: Seq<u8>)
    requires
        text::eq_ci(name, "content-length".spec_bytes()),
    ensures
        name.len() == 14,
        !about_connection(name),
        !text::eq_ci(name, "transfer-encoding".spec_bytes()),
{
    reveal_strlit("content-length");
    reveal_strlit("connection");
    reveal_strlit("keep-alive");
    reveal_strlit("proxy-authenticate");
    reveal_strlit("proxy-authorization");
    reveal_strlit("te");
    reveal_strlit("trailer");
    reveal_strlit("upgrade");
    reveal_strlit("transfer-encoding");
    assert("content-length".is_ascii());
    assert("connection".is_ascii());
    assert("keep-alive".is_ascii());
    assert("proxy-authenticate".is_ascii());
    assert("proxy-authorization".is_ascii());
    assert("te".is_ascii());
    assert("trailer".is_ascii());
    assert("upgrade".is_ascii());
    assert("transfer-encoding".is_ascii());
}

/// Fields keep the order in which the client sent them.
pub proof fn law_request_fields_keep_their_order(
    hs: Seq<Field>,
    inject: Seq<Seq<u8>>,
    chunked: bool,
    upgrade: bool,
) -> (from: Seq<int>)
    ensures
        from.len() == http::upstream_fields(hs, inject, chunked, upgrade).len(),
        forall|k: int|
            0 <= k < from.len() ==> 0 <= #[trigger] from[k] < hs.len() && hs[from[k]]
                == http::upstream_fields(hs, inject, chunked, upgrade)[k],
        forall|j: int, k: int| 0 <= j < k < from.len() ==> #[trigger] from[j] < #[trigger] from[k],
    decreases hs.len(),
{
    if hs.len() == 0 {
        seq![]
    } else {
        let before = law_request_fields_keep_their_order(
            hs.drop_last(),
            inject,
            chunked,
            upgrade,
        );
        if http::takes_upstream(hs.drop_last(), hs.last(), inject, chunked, upgrade) {
            before.push(hs.len() - 1)
        } else {
            before
        }
    }
}

// ---------------------------------------------------------------------------
// The status line and the fields of a response
// ---------------------------------------------------------------------------

/// The client is told the backend's own status: the three digits behind `HTTP/1.1 `, read as a
/// number, are its code, and the backend's reason follows.
#[verifier::spinoff_prover]
pub proof fn law_client_gets_the_backends_status(resp: ResponseFields, c: u16, keep_alive: bool)
    requires
        resp.code == Some(c),
        c <= 999,
    ensures
        ({
            let head = http::response_head(resp, keep_alive);
            let reason = match resp.reason {
                Some(r) => encode_utf8(r),
                None => seq![],
            };
            &&& head.len() > 13
            &&& head.take(9) == seq![72u8, 84, 84, 80, 47, 49, 46, 49, 32]
            &&& forall|i: int| 9 <= i < 12 ==> 48 <= #[trigger] head[i] <= 57
            &&& (head[9] - 48) * 100 + (head[10] - 48) * 10 + (head[11] - 48) == c
            &&& (seq![32u8] + reason + seq![13u8, 10]).is_prefix_of(head.skip(12))
        }),
{
    lemma_texts();
    let head = http::response_head(resp, keep_alive);
    let reason = match resp.reason {
        Some(r) => encode_utf8(r),
        None => seq![],
    };
    assert(head.take(9) =~= seq![72u8, 84, 84, 80, 47, 49, 46, 49, 32]);
    assert(head[9] == (48 + c / 100 % 10) as u8);
    assert(head[10] == (48 + c / 10 % 10) as u8);
    assert(head[11] == (48 + c % 10) as u8);
    assert((seq![32u8] + reason + seq![13u8, 10]).is_prefix_of(head.skip(12)));
}

/// Two statuses are never told in the same way.
pub proof fn law_statuses_are_told_apart(
    a: ResponseFields,
    b: ResponseFields,
    keep_a: bool,
    keep_b: bool,
)
    requires
        a.code matches Some(c) && c <= 999,
        b.code matches Some(c) && c <= 999,
        http::response_head(a, keep_a).take(12) == http::response_head(b, keep_b).take(12),
    ensures
        a.code == b.code,
{
    law_client_gets_the_backends_status(a, a.code->0, keep_a);
    law_client_gets_the_backends_status(b, b.code->0, keep_b);
    let x = http::response_head(a, keep_a);
    let y = http::response_head(b, keep_b);
    assert(x.take(12)[9] == y.take(12)[9]);
    assert(x.take(12)[10] == y.take(12)[10]);
    assert(x.take(12)[11] == y.take(12)[11]);
}

/// What a client gets beside the status line: the backend's fields, each on its line, then the one
/// line on the connection, then a blank line. No field of the backend's connection is among them,
/// and, under chunked coding, no length.
#[verifier::spinoff_prover]
pub proof fn law_response_head_holds_nothing_else(resp: ResponseFields, c: u16, keep_alive: bool)
    requires
        resp.code == Some(c),
        c <= 999,
    ensures
        ({
            let chunked = http::chunked_response(resp.headers);
            let kept = http::response_fields(resp.headers, chunked);
            let head = http::response_head(resp, keep_alive);
            let reason = match resp.reason {
                Some(r) => encode_utf8(r),
                None => seq![],
            };
            &&& head.skip(12) == seq![32u8] + reason + seq![13u8, 10] + kept.fold_left(
                Seq::<u8>::empty(),
                |a: Seq<u8>, f: Field| a + f.name + seq![58u8, 32] + f.value + seq![13u8, 10],
            ) + (if keep_alive {
                "Connection: keep-alive\r\n".spec_bytes()
            } else {
                "Connection: close\r\n".spec_bytes()
            }) + seq![13u8, 10]
            &&& forall|k: int|
                0 <= k < kept.len() ==> {
                    let f = #[trigger] kept[k];
                    &&& resp.headers.contains(f)
                    &&& f.name.len() > 0
                    &&& !about_connection(f.name)
                    &&& chunked ==> !text::eq_ci(f.name, "content-length".spec_bytes())
                }
        }),
{
    lemma_texts();
    let chunked = http::chunked_response(resp.headers);
    let kept = http::response_fields(resp.headers, chunked);
    lemma_lines_fold(kept);
    let head = http::response_head(resp, keep_alive);
    let reason = match resp.reason {
        Some(r) => encode_utf8(r),
        None => seq![],
    };
    assert forall|k: int| 0 <= k < kept.len() implies ({
        let f = #[trigger] kept[k];
        &&& resp.headers.contains(f)
        &&& f.name.len() > 0
        &&& !about_connection(f.name)
        &&& chunked ==> !text::eq_ci(f.name, "content-length".spec_bytes())
    }) by {
        http::law_response_fields_are_clean(resp.headers, chunked, k);
        lemma_relayed_is_named(resp.headers, chunked, k);
    }
    assert(head.skip(12) =~= seq![32u8] + reason + seq![13u8, 10] + http::lines(kept)
        + http::connection_line(keep_alive) + seq![13u8, 10]);
}

proof fn lemma_relayed_is_named(hs: Seq<Field>, chunked: bool, k: int)
    requires
        0 <= k < http::response_fields(hs, chunked).len(),
    ensures
        http::response_fields(hs, chunked)[k].name.len() > 0,
    decreases hs.len(),
{
    let kept = http::response_fields(hs.drop_last(), chunked);
    if k < kept.len() {
        lemma_relayed_is_named(hs.drop_last(), chunked, k);
    }
}

/// Every field of a response that is about the message reaches the client, a length first given
/// among them, and they keep their order.
#[verifier::spinoff_prover]
pub proof fn law_end_to_end_fields_reach_the_client(hs: Seq<Field>, chunked: bool) -> (from: Seq<
    int,
>)
    ensures
        from.len() == http::response_fields(hs, chunked).len(),
        forall|k: int|
            0 <= k < from.len() ==> 0 <= #[trigger] from[k] < hs.len() && hs[from[k]]
                == http::response_fields(hs, chunked)[k],
        forall|j: int, k: int| 0 <= j < k < from.len() ==> #[trigger] from[j] < #[trigger] from[k],
        forall|i: int|
            #![trigger hs[i]]
            0 <= i < hs.len() && hs[i].name.len() > 0 && !about_connection(hs[i].name) && (
            !text::eq_ci(hs[i].name, "content-length".spec_bytes()) || (!chunked && forall|j: int|
                0 <= j < i ==> !text::eq_ci((#[trigger] hs[j]).name, "content-length".spec_bytes())))
                ==> from.contains(i),
    decreases hs.len(),
{
    if hs.len() == 0 {
        seq![]
    } else {
        let t = hs.drop_last();
        let before = law_end_to_end_fields_reach_the_client(t, chunked);
        let takes = http::takes_downstream(t, hs.last(), chunked);
        let from = if takes {
            before.push(hs.len() - 1)
        } else {
            before
        };
        assert forall|i: int|
            #![trigger hs[i]]
            0 <= i < hs.len() && hs[i].name.len() > 0 && !about_connection(hs[i].name) && (
            !text::eq_ci(hs[i].name, "content-length".spec_bytes()) || (!chunked && forall|j: int|
                0 <= j < i ==> !text::eq_ci((#[trigger] hs[j]).name, "content-length".spec_bytes()))) implies from.contains(
            i,
        ) by {
            if i < t.len() {
                assert(t[i] == hs[i]);
                assert(forall|j: int| 0 <= j < i ==> #[trigger] t[j] == hs[j]);
                assert(before.contains(i));
                let k = choose|k: int| 0 <= k < before.len() && before[k] == i;
                assert(from[k] == i);
            } else {
                assert(http::has_field(t, "content-length") ==> exists|j: int|
                    0 <= j < i && text::eq_ci(
                        (#[trigger] hs[j]).name,
                        "content-length".spec_bytes(),
                    )) by {
                    if http::has_field(t, "content-length") {
                        let j = choose|j: int|
                            0 <= j < t.len() && http::named(#[trigger] t[j], "content-length");
                        assert(hs[j] == t[j]);
                    }
                }
                assert(takes);
                assert(from[from.len() - 1] == i);
            }
        }
        from
    }
}

} // verus!
