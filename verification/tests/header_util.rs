//! Matching and header helpers.

use rproxy::header_util::{
    buf_put, compile_header_names, compile_headers, contains_ci, eval_field_conditions, find_bytes,
    find_ci, host_without_port, is_plain_literal, te_is_chunked, HeaderFragment, Matcher,
};
use rproxy::pattern::Pattern;
use std::collections::HashMap;

#[test]
fn test_is_plain_literal() {
    assert!(is_plain_literal("localhost"));
    assert!(is_plain_literal("/api"));
    assert!(is_plain_literal("api-v2_x"));
    assert!(is_plain_literal("example_com"));
    assert!(!is_plain_literal("example.com"));
    assert!(!is_plain_literal(".*"));
    assert!(!is_plain_literal("^/api"));
    assert!(!is_plain_literal("/v[0-9]+/"));
    assert!(!is_plain_literal("a|b"));
    assert!(!is_plain_literal(""));
}

#[test]
fn test_host_without_port() {
    assert_eq!(host_without_port("example.com"), "example.com");
    assert_eq!(host_without_port("example.com:8080"), "example.com");
    assert_eq!(host_without_port("localhost:443"), "localhost");
    assert_eq!(host_without_port("[::1]:80"), "[::1]");
    assert_eq!(host_without_port("[::1]"), "[::1]");
    assert_eq!(host_without_port("host:notaport"), "host:notaport");
}

#[test]
fn test_matcher_exact_prefix_regex() {
    let d = Matcher::exact_or_re(&Pattern::new("localhost").unwrap());
    assert!(d.is_match("localhost"));
    assert!(!d.is_match("localhostx"));
    assert!(!d.is_match("xlocalhost"));
    assert!(!d.is_match("local"));
    let r = Matcher::prefix_or_re(&Pattern::new("/api").unwrap());
    assert!(r.is_match("/api"));
    assert!(r.is_match("/api/users"));
    assert!(!r.is_match("/v1/api"));
    let re_anchored = Matcher::exact_or_re(&Pattern::new(r"^exact\.host$").unwrap());
    assert!(re_anchored.is_match("exact.host"));
    assert!(!re_anchored.is_match("exactXhost"));
    assert!(!re_anchored.is_match("exact.host.evil"));
    let re_any = Matcher::prefix_or_re(&Pattern::new(".*").unwrap());
    assert!(re_any.is_match("anything"));
    assert_eq!(
        Matcher::exact_or_re(&Pattern::new("localhost").unwrap()).pat_len(),
        9
    );
}

#[test]
fn test_contains_ci() {
    assert!(contains_ci(b"keep-alive, close", b"close"));
    assert!(contains_ci(b"CLOSE", b"close"));
    assert!(contains_ci(b"Upgrade", b"upgrade"));
    assert!(!contains_ci(b"keep-alive", b"close"));
    assert!(!contains_ci(b"clos", b"close"));
    assert!(contains_ci(b"anything", b""));
}

#[test]
fn test_te_is_chunked() {
    assert!(te_is_chunked("chunked"));
    assert!(te_is_chunked("gzip, chunked"));
    assert!(te_is_chunked("CHUNKED"));
    assert!(!te_is_chunked("chunked, gzip"));
    assert!(!te_is_chunked("chunkedX"));
    assert!(!te_is_chunked("identity"));
}

#[test]
fn test_eval_field_conditions() {
    let fields: Vec<(String, String)> = [
        ("exist_key", "val1"),
        ("int_key", "123"),
        ("empty_key", ""),
        ("enum_key", "C"),
    ]
    .iter()
    .map(|(k, v)| (k.to_string(), v.to_string()))
    .collect();
    let get = fields.as_slice();

    assert!(eval_field_conditions("exist_key", get));
    assert!(!eval_field_conditions("missing_key", get));

    assert!(eval_field_conditions("exist_key=val1", get));
    assert!(!eval_field_conditions("exist_key=val2", get));

    assert!(eval_field_conditions("!missing_key", get));
    assert!(!eval_field_conditions("!exist_key", get));

    assert!(eval_field_conditions("int_key=int", get));
    assert!(!eval_field_conditions("exist_key=int", get));

    assert!(eval_field_conditions("exist_key=str", get));
    assert!(!eval_field_conditions("empty_key=str", get));

    assert!(eval_field_conditions("enum_key=enum(A,B,C)", get));
    assert!(!eval_field_conditions("enum_key=enum(A,B)", get));

    assert!(eval_field_conditions("exist_key=val2|val1", get));

    assert!(eval_field_conditions("exist_key int_key=int !missing", get));
    assert!(!eval_field_conditions("exist_key int_key=str missing", get));
}

#[test]
fn test_compile_headers_none() {
    let empty: Option<HashMap<String, String>> = None;
    let frags = compile_headers(&empty);
    assert!(frags.is_empty());
}

#[test]
fn test_compile_headers_simple() {
    let mut hm = HashMap::new();
    hm.insert("X-Custom".to_string(), "value".to_string());
    let frags = compile_headers(&Some(hm));
    assert_eq!(frags.len(), 1);
    match &frags[0] {
        HeaderFragment::Text(t) => {
            assert_eq!(std::str::from_utf8(t).unwrap(), "X-Custom: value\r\n");
        }
        _ => panic!("expected Text"),
    }
}

#[test]
fn test_compile_headers_client_ip_exact() {
    let mut hm = HashMap::new();
    hm.insert("X-Forwarded-For".to_string(), "$client_ip".to_string());
    let frags = compile_headers(&Some(hm));
    assert_eq!(frags.len(), 3);
    assert!(matches!(frags[1], HeaderFragment::ClientIp));
    if let HeaderFragment::Text(t) = &frags[0] {
        assert_eq!(std::str::from_utf8(t).unwrap(), "X-Forwarded-For: ");
    } else {
        panic!("expected Text");
    }
}

#[test]
fn test_compile_headers_client_ip_middle() {
    let mut hm = HashMap::new();
    hm.insert("X-Custom".to_string(), "ip=$client_ip;done".to_string());
    let frags = compile_headers(&Some(hm));
    assert_eq!(frags.len(), 3);
    assert!(matches!(frags[1], HeaderFragment::ClientIp));
}

#[test]
fn test_compile_header_names() {
    let empty: Option<HashMap<String, String>> = None;
    assert!(compile_header_names(&empty).is_empty());

    let mut hm = HashMap::new();
    hm.insert("X-Custom".to_string(), "val".to_string());
    let names = compile_header_names(&Some(hm));
    assert_eq!(names.len(), 1);
    assert_eq!(std::str::from_utf8(&names[0]).unwrap(), "X-Custom");
}

#[test]
fn test_buf_put_basic() {
    let mut x = vec![0u8; 4];
    let mut pos = 0;
    buf_put(&mut x, &mut pos, b"ab");
    assert_eq!(pos, 2);
    assert_eq!(&x[..2], b"ab");
    assert_eq!(x[2], 0);
    assert_eq!(x[3], 0);
}

#[test]
fn test_buf_put_grow() {
    let mut x = vec![0u8; 4];
    let mut pos = 0;
    buf_put(&mut x, &mut pos, b"1234567890");
    assert_eq!(pos, 10);
    assert!(x.len() >= 10);
    assert_eq!(&x[..10], b"1234567890");
}

#[test]
fn buf_put_keeps_what_stands_around() {
    let mut x = b"abcdef".to_vec();
    let mut pos = 2;
    buf_put(&mut x, &mut pos, b"XY");
    assert_eq!(pos, 4);
    assert_eq!(x, b"abXYef");
    buf_put(&mut x, &mut pos, b"1234");
    assert_eq!(pos, 8);
    assert_eq!(x, b"abXY1234");
}

#[test]
fn buf_put_fills_a_gap_with_zeros() {
    let mut x = b"ab".to_vec();
    let mut pos = 5;
    buf_put(&mut x, &mut pos, b"cd");
    assert_eq!(pos, 7);
    assert_eq!(x, b"ab\0\0\0cd\0");
    let mut y = Vec::new();
    let mut pos = 3;
    buf_put(&mut y, &mut pos, b"");
    assert_eq!(pos, 3);
    assert_eq!(y, b"\0\0\0\0");
}

#[test]
fn test_find_ci() {
    assert_eq!(find_ci(b"Content-Type", b"content-type"), Some(0));
    assert_eq!(find_ci(b"Content-Type", b"type"), Some(8));
    assert_eq!(find_ci(b"Content-Type", b"notfound"), None);
    assert_eq!(find_ci(b"anything", b""), Some(0));
    assert_eq!(find_ci(b"abc", b"abcd"), None);
}

#[test]
fn byte_search_is_exact_about_case() {
    assert_eq!(find_bytes(b"abcabc", b"bc"), Some(1));
    assert_eq!(find_bytes(b"abcabc", b"BC"), None);
    assert_eq!(find_bytes(b"abc", b""), Some(0));
    assert_eq!(find_bytes(b"", b"a"), None);
}

#[test]
fn conditions_on_missing_fields() {
    let none: Vec<(String, String)> = Vec::new();
    assert!(eval_field_conditions("", &none));
    assert!(eval_field_conditions("a=", &none));
    assert!(!eval_field_conditions("a=int", &none));
    assert!(!eval_field_conditions("a=str", &none));
    let first: Vec<(String, String)> = vec![
        ("a".to_string(), "1".to_string()),
        ("a".to_string(), "x".to_string()),
    ];
    assert!(eval_field_conditions("a=int", &first));
    assert!(!eval_field_conditions("a=x", &first));
    assert!(eval_field_conditions("a=-5|1", &first));
}

#[test]
fn patterns_are_compiled_or_refused() {
    assert!(Pattern::new("a[").is_none());
    let p = Pattern::new(r"^v\d+$").unwrap();
    assert_eq!(p.as_str(), r"^v\d+$");
    assert!(p.is_match("v12"));
    assert!(!p.is_match("v"));
    let q = p.duplicate();
    assert_eq!(q.as_str(), p.as_str());
    assert!(q.is_match("v7"));
}
