//! Heads of requests and responses: their framing, and what goes on to the other side.

use rproxy::header_util::HeaderFragment;
use rproxy::http::{
    build_response_head, build_upstream_head, parse_request, parse_response, response_fits,
    upstream_fits, validate_request_framing, Header, Parsed, RequestHead, ResponseHead,
};
use rproxy::net::IpAddr;

fn request(raw: &[u8]) -> RequestHead<'_> {
    match parse_request(raw) {
        Parsed::Complete(head, _) => head,
        _ => panic!("the head should be complete"),
    }
}

fn response(raw: &[u8]) -> ResponseHead<'_> {
    match parse_response(raw) {
        Parsed::Complete(head, _) => head,
        _ => panic!("the head should be complete"),
    }
}

#[test]
fn test_build_response_head_framing() {
    let raw =
        b"HTTP/1.1 200 OK\r\nContent-Length: 5\r\nTransfer-Encoding: chunked\r\nX-A: 1\r\n\r\n";
    let resp = response(raw);
    let mut out = vec![0u8; 256];
    let n = build_response_head(&mut out, &resp, true);
    let s = std::str::from_utf8(&out[..n]).unwrap();
    assert!(
        !s.to_ascii_lowercase().contains("content-length"),
        "CL must be dropped under chunked: {s}"
    );
    assert!(s
        .to_ascii_lowercase()
        .contains("transfer-encoding: chunked"));
    assert!(s.contains("X-A: 1"));

    let raw2 = b"HTTP/1.1 200 OK\r\nContent-Length: 5\r\nContent-Length: 5\r\n\r\n";
    let resp2 = response(raw2);
    let mut out2 = vec![0u8; 256];
    let n2 = build_response_head(&mut out2, &resp2, false);
    let s2 = std::str::from_utf8(&out2[..n2]).unwrap();
    assert_eq!(
        s2.to_ascii_lowercase().matches("content-length").count(),
        1,
        "dup CL must collapse: {s2}"
    );
}

#[test]
fn test_build_upstream_head_normal() {
    let raw = b"GET /foo HTTP/1.1\r\nHost: example.com\r\nConnection: close\r\n\r\n";
    let req = request(raw);

    let mut x = Vec::new();
    let ip = IpAddr::v4(127, 0, 0, 1);
    let n = build_upstream_head(&mut x, &req, "/foo", &[], &[], &ip, false, false, false);
    let head = String::from_utf8_lossy(&x[..n]);
    assert!(
        head.starts_with("GET /foo HTTP/1.1\r\n"),
        "bad request line: {head}"
    );
    assert!(head.contains("Host: example.com"), "missing Host: {head}");
    assert!(
        head.contains("Connection: close"),
        "missing Connection: close: {head}"
    );
    assert_eq!(
        head.matches("Connection:").count(),
        1,
        "Connection dup: {head}"
    );
}

#[test]
fn test_build_upstream_head_chunked() {
    let raw = b"POST /bar HTTP/1.1\r\nHost: example.com\r\nContent-Length: 5\r\n\r\n";
    let req = request(raw);

    let mut x = Vec::new();
    let ip = IpAddr::v4(127, 0, 0, 1);
    let n = build_upstream_head(&mut x, &req, "/bar", &[], &[], &ip, true, false, false);
    let head = String::from_utf8_lossy(&x[..n]);
    assert!(
        head.contains("Transfer-Encoding: chunked"),
        "missing TE: {head}"
    );
    assert!(
        !head.to_ascii_lowercase().contains("content-length"),
        "CL leaked: {head}"
    );
}

#[test]
fn test_build_upstream_head_want_upgrade() {
    let raw = b"GET /chat HTTP/1.1\r\nHost: example.com\r\nConnection: Upgrade\r\nUpgrade: websocket\r\n\r\n";
    let req = request(raw);

    let mut x = Vec::new();
    let ip = IpAddr::v4(127, 0, 0, 1);
    let n = build_upstream_head(&mut x, &req, "/chat", &[], &[], &ip, false, false, true);
    let head = String::from_utf8_lossy(&x[..n]);
    assert!(
        head.contains("Connection: Upgrade"),
        "missing Connection Upgrade: {head}"
    );
    assert!(
        head.contains("Upgrade: websocket"),
        "missing Upgrade: {head}"
    );
    assert!(
        !head.contains("Connection: close"),
        "unexpected close: {head}"
    );
}

#[test]
fn test_build_upstream_head_strips_hop_by_hop() {
    let raw = b"GET /x HTTP/1.1\r\nHost: example.com\r\nTE: trailers\r\nTrailer: X-Foo\r\n\
Transfer-Encoding: chunked\r\nKeep-Alive: timeout=5\r\nProxy-Authenticate: Basic\r\n\
Proxy-Authorization: Basic xxx\r\nX-Custom: keep-me\r\n\r\n";
    let req = request(raw);

    let mut x = Vec::new();
    let ip = IpAddr::v4(127, 0, 0, 1);
    let n = build_upstream_head(&mut x, &req, "/x", &[], &[], &ip, false, false, false);
    let head = String::from_utf8_lossy(&x[..n]).to_ascii_lowercase();
    for hop in [
        "te:",
        "trailer:",
        "transfer-encoding:",
        "keep-alive:",
        "proxy-authenticate:",
        "proxy-authorization:",
    ] {
        assert!(
            !head.contains(hop),
            "hop-by-hop header leaked ({hop}): {head}"
        );
    }
    assert!(
        head.contains("x-custom: keep-me"),
        "ordinary header dropped: {head}"
    );
}

#[test]
fn test_build_upstream_head_dup_content_length_collapses() {
    let raw = b"POST /x HTTP/1.1\r\nHost: example.com\r\nContent-Length: 5\r\nContent-Length: 5\r\n\r\n";
    let req = request(raw);

    let mut x = Vec::new();
    let ip = IpAddr::v4(127, 0, 0, 1);
    let n = build_upstream_head(&mut x, &req, "/x", &[], &[], &ip, false, false, false);
    let head = String::from_utf8_lossy(&x[..n]).to_ascii_lowercase();
    assert_eq!(
        head.matches("content-length").count(),
        1,
        "dup CL must collapse: {head}"
    );
}

#[test]
fn test_build_upstream_head_keepalive_true() {
    let raw = b"GET /x HTTP/1.1\r\nHost: example.com\r\n\r\n";
    let req = request(raw);

    let mut x = Vec::new();
    let ip = IpAddr::v4(127, 0, 0, 1);
    let n = build_upstream_head(&mut x, &req, "/x", &[], &[], &ip, false, true, false);
    let head = String::from_utf8_lossy(&x[..n]);
    assert!(
        head.contains("Connection: keep-alive"),
        "missing keep-alive: {head}"
    );
}

#[test]
fn test_build_upstream_head_client_ip_injection() {
    let raw = b"GET /x HTTP/1.1\r\nHost: example.com\r\n\r\n";
    let req = request(raw);

    let frags = vec![
        HeaderFragment::Text(b"X-Forwarded-For: ".to_vec()),
        HeaderFragment::ClientIp,
        HeaderFragment::Text(b"\r\n".to_vec()),
    ];
    let mut x = Vec::new();
    let ip = IpAddr::v4(203, 0, 113, 7);
    let n = build_upstream_head(&mut x, &req, "/x", &frags, &[], &ip, false, false, false);
    let head = String::from_utf8_lossy(&x[..n]);
    assert!(
        head.contains("X-Forwarded-For: 203.0.113.7\r\n"),
        "bad client-ip injection: {head}"
    );
}

#[test]
fn test_build_upstream_head_inject_names_drops_client_supplied() {
    let raw = b"GET /x HTTP/1.1\r\nHost: example.com\r\nX-Forwarded-For: 6.6.6.6\r\n\r\n";
    let req = request(raw);

    let frags = vec![
        HeaderFragment::Text(b"X-Forwarded-For: ".to_vec()),
        HeaderFragment::ClientIp,
        HeaderFragment::Text(b"\r\n".to_vec()),
    ];
    let inject_names = vec![b"X-Forwarded-For".to_vec()];
    let mut x = Vec::new();
    let ip = IpAddr::v4(203, 0, 113, 7);
    let n = build_upstream_head(
        &mut x,
        &req,
        "/x",
        &frags,
        &inject_names,
        &ip,
        false,
        false,
        false,
    );
    let head = String::from_utf8_lossy(&x[..n]);
    assert_eq!(
        head.matches("X-Forwarded-For:").count(),
        1,
        "client-spoofed XFF not deduped: {head}"
    );
    assert!(
        !head.contains("6.6.6.6"),
        "attacker-controlled XFF leaked through: {head}"
    );
    assert!(
        head.contains("203.0.113.7"),
        "real client ip missing: {head}"
    );
}

#[test]
fn test_build_response_head_strips_hop_by_hop() {
    let raw = b"HTTP/1.1 200 OK\r\nConnection: close\r\nKeep-Alive: timeout=5\r\n\
Proxy-Authenticate: Basic\r\nProxy-Authorization: Basic xxx\r\nUpgrade: h2c\r\n\
Trailer: X-Foo\r\nTE: trailers\r\nX-Custom: keep-me\r\n\r\n";
    let resp = response(raw);
    let mut out = vec![0u8; 256];
    let n = build_response_head(&mut out, &resp, true);
    let s = String::from_utf8_lossy(&out[..n]).to_ascii_lowercase();
    for hop in [
        "keep-alive:",
        "proxy-authenticate:",
        "proxy-authorization:",
        "upgrade:",
        "trailer:",
        "te:",
    ] {
        assert!(!s.contains(hop), "hop-by-hop header leaked ({hop}): {s}");
    }
    assert!(
        s.contains("x-custom: keep-me"),
        "ordinary header dropped: {s}"
    );
    assert_eq!(
        s.matches("connection:").count(),
        1,
        "Connection dup or missing: {s}"
    );
}

#[test]
fn test_build_response_head_connection_value_follows_client_keepalive() {
    let raw = b"HTTP/1.1 200 OK\r\nContent-Length: 2\r\n\r\n";
    let r1 = response(raw);
    let mut out1 = vec![0u8; 256];
    let n1 = build_response_head(&mut out1, &r1, true);
    assert!(String::from_utf8_lossy(&out1[..n1]).contains("Connection: keep-alive"));

    let r2 = response(raw);
    let mut out2 = vec![0u8; 256];
    let n2 = build_response_head(&mut out2, &r2, false);
    assert!(String::from_utf8_lossy(&out2[..n2]).contains("Connection: close"));
}

fn framing(raw: &str, reject_encoded_slash: bool) -> (usize, String, bool, bool, bool) {
    let head = request(raw.as_bytes());
    let f = validate_request_framing(
        &head.headers,
        head.version,
        head.path,
        reject_encoded_slash,
    );
    (
        f.clen,
        f.host_str.to_string(),
        f.client_keep_alive,
        f.is_chunked,
        f.bad_request,
    )
}

fn is_bad(line: &str, headers: &str) -> bool {
    framing(&format!("{line}\r\n{headers}\r\n"), false).4
}

#[test]
fn well_formed_requests_are_framed() {
    assert_eq!(
        framing(
            "POST /x HTTP/1.1\r\nHost: a.b:1\r\nContent-Length: 12\r\n\r\n",
            true
        ),
        (12, "a.b:1".to_string(), true, false, false)
    );
    assert_eq!(
        framing(
            "POST * HTTP/1.0\r\nTransfer-Encoding: Chunked\r\n\r\n",
            true
        ),
        (0, String::new(), false, true, false)
    );
    assert!(
        framing(
            "GET / HTTP/1.0\r\nConnection: Keep-Alive\r\n\r\n",
            false
        )
        .2
    );
    assert!(
        !framing(
            "GET / HTTP/1.1\r\nHost: a\r\nConnection: close\r\n\r\n",
            false
        )
        .2
    );
}

#[test]
fn ill_formed_requests_are_noticed() {
    let get = "GET / HTTP/1.1";
    let host = "Host: a\r\n";
    assert!(!is_bad(get, host));
    assert!(is_bad(get, ""));
    assert!(!is_bad("GET / HTTP/1.0", ""));
    assert!(is_bad(get, "Host: a\r\nHost: a\r\n"));
    for bad in ["+1", "0x1", "", "1 2", "-1", "99999999999999999999999"] {
        assert!(is_bad(get, &format!("{host}Content-Length: {bad}\r\n")));
    }
    let two = "Content-Length: 1\r\nContent-Length: 1\r\n";
    assert!(!is_bad(get, &format!("{host}{two}")));
    assert!(is_bad(
        get,
        &format!("{host}Content-Length: 1\r\nContent-Length: 2\r\n")
    ));
    let chunked = "Transfer-Encoding: chunked\r\n";
    assert!(!is_bad(get, &format!("{host}{chunked}")));
    assert!(is_bad(get, &format!("{host}{chunked}{chunked}")));
    assert!(is_bad(get, &format!("{host}{two}{chunked}")));
    assert!(is_bad(
        get,
        &format!("{host}Transfer-Encoding: gzip, chunked\r\n")
    ));
    assert!(is_bad("GET http://a/ HTTP/1.1", host));
    assert!(is_bad("GET a:80 HTTP/1.1", host));
    assert!(is_bad("GET /a#b HTTP/1.1", host));
    let encoded = "GET /a%2fb HTTP/1.1\r\nHost: a\r\n\r\n";
    assert!(!framing(encoded, false).4);
    assert!(framing(encoded, true).4);
}

#[test]
fn heads_that_have_not_ended_or_are_broken() {
    assert!(matches!(
        parse_request(b"GET / HTTP/1.1\r\nHost: a\r\n"),
        Parsed::Partial
    ));
    assert!(matches!(
        parse_request(b"GET / HTTP/1.1\r\nHo st: a\r\n\r\n"),
        Parsed::Invalid
    ));
    assert!(matches!(parse_response(b"HTTP/1.1 20"), Parsed::Partial));
    assert!(matches!(parse_response(b"HTTX"), Parsed::Invalid));
    let many: String = (0..65).map(|i| format!("X-{i}: 1\r\n")).collect();
    let raw = format!("GET / HTTP/1.1\r\n{many}\r\n");
    assert!(matches!(parse_request(raw.as_bytes()), Parsed::Invalid));
    let h: Header<'_> = Header {
        name: "A",
        value: b"b",
    };
    assert!(rproxy::http::has_header(&[h], "a"));
    assert_eq!(rproxy::http::read_length(b" 7 "), Some(7));
}

#[test]
fn ordinary_heads_fit() {
    let req = request(b"GET / HTTP/1.1\r\nHost: a\r\n\r\n");
    let frags = [
        HeaderFragment::Text(b"X-Real-IP: ".to_vec()),
        HeaderFragment::ClientIp,
    ];
    assert!(upstream_fits(&req, "/", &frags));
    assert!(response_fits(&response(b"HTTP/1.1 200 OK\r\nA: b\r\n\r\n")));
}
