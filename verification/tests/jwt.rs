//! Bearer tokens.

use base64::Engine;
use hmac::Mac;
use rproxy::http::Header;
use rproxy::jwt::{check_token, jwt_authorized, jwt_claim_u64, token_lifetime, JwtCache, NANOS};

#[test]
fn parses_claims_with_spaces_and_colons() {
    let payload = br#"{"sub":"user","exp": 1700000000, "nbf":1700000000}"#;
    assert_eq!(jwt_claim_u64(payload, b"exp"), Some(1700000000));
    assert_eq!(jwt_claim_u64(payload, b"nbf"), Some(1700000000));
}

#[test]
fn missing_or_bad_claim_is_none() {
    assert_eq!(jwt_claim_u64(br#"{"sub":"user"}"#, b"exp"), None);
    assert_eq!(jwt_claim_u64(br#"{"exp":"tomorrow"}"#, b"exp"), None);
    assert_eq!(jwt_claim_u64(b"", b"exp"), None);
}

#[test]
fn claims_out_of_range_and_long_keys() {
    assert_eq!(jwt_claim_u64(br#"{"exp":18446744073709551615}"#, b"exp"), Some(u64::MAX));
    assert_eq!(jwt_claim_u64(br#"{"exp":18446744073709551616}"#, b"exp"), None);
    assert_eq!(jwt_claim_u64(br#"{"exp":"x","exp":7}"#, b"exp"), Some(7));
    let long = [b'k'; 31];
    let mut payload = vec![b'"'];
    payload.extend_from_slice(&long);
    payload.extend_from_slice(b"\":5");
    assert_eq!(jwt_claim_u64(&payload, &long), None);
    assert_eq!(jwt_claim_u64(&payload[1..], &long[..30]), None);
}

fn sign(payload: &str, secret: &str, padded: bool) -> String {
    let plain = base64::engine::general_purpose::URL_SAFE_NO_PAD;
    let with_padding = base64::engine::general_purpose::URL_SAFE;
    let encode = |b: &[u8]| {
        if padded {
            with_padding.encode(b)
        } else {
            plain.encode(b)
        }
    };
    let head = encode(br#"{"alg":"HS256","typ":"JWT"}"#);
    let body = encode(payload.as_bytes());
    let input = format!("{}.{}", head, body);
    let mut mac =
        <hmac::Hmac<sha2::Sha256> as hmac::digest::KeyInit>::new_from_slice(secret.as_bytes())
            .unwrap();
    mac.update(input.as_bytes());
    let tag = mac.finalize().into_bytes();
    format!("{}.{}", input, encode(&tag))
}

fn authorization(value: &str) -> Vec<Header<'_>> {
    vec![Header {
        name: "Authorization",
        value: value.as_bytes(),
    }]
}

#[test]
fn signature_decides() {
    let token = sign(r#"{"exp":2000}"#, "s3cret", false);
    assert_eq!(check_token(&token, "s3cret", 1000), Some(300));
    assert_eq!(check_token(&token, "other", 1000), None);
    assert_eq!(check_token(&sign(r#"{"exp":2000}"#, "s3cret", true), "s3cret", 1000), Some(300));
    let mut forged = token.clone();
    forged.replace_range(0..1, "f");
    assert_eq!(check_token(&forged, "s3cret", 1000), None);
    assert_eq!(check_token("a.b", "s3cret", 1000), None);
    assert_eq!(check_token("a.b.c.d", "s3cret", 1000), None);
    assert_eq!(check_token("a.b.!", "s3cret", 1000), None);
}

#[test]
fn times_of_a_token() {
    assert_eq!(token_lifetime(Some(br#"{"exp":1010}"#), 1000), Some(10));
    assert_eq!(token_lifetime(Some(br#"{"exp":1000}"#), 1000), None);
    assert_eq!(token_lifetime(Some(br#"{"exp":9999}"#), 1000), Some(300));
    assert_eq!(token_lifetime(Some(br#"{"nbf":1000}"#), 1000), Some(300));
    assert_eq!(token_lifetime(Some(br#"{"nbf":1001}"#), 1000), None);
    assert_eq!(token_lifetime(Some(b"{}"), 1000), Some(300));
    assert_eq!(token_lifetime(None, 1000), Some(300));
}

#[test]
fn verdicts_are_remembered_for_their_secret_only() {
    let token = sign(r#"{"exp":1010}"#, "one", false);
    let value = format!("Bearer {}", token);
    let hs = authorization(&value);
    let mut cache = JwtCache::new();
    assert!(!jwt_authorized(&hs, "two", 1000, 0, &mut cache));
    assert!(jwt_authorized(&hs, "one", 1000, 0, &mut cache));
    assert!(jwt_authorized(&hs, "one", 5000, 9 * NANOS, &mut cache));
    assert!(!jwt_authorized(&hs, "two", 1000, 9 * NANOS, &mut cache));
    assert!(!jwt_authorized(&hs, "one", 5000, 10 * NANOS, &mut cache));
}

#[test]
fn only_bearer_tokens_count() {
    let token = sign("{}", "k", false);
    let mut cache = JwtCache::new();
    let basic = format!("Basic {}", token);
    assert!(!jwt_authorized(&authorization(&basic), "k", 0, 0, &mut cache));
    assert!(!jwt_authorized(&[], "k", 0, 0, &mut cache));
    let bearer = format!("Bearer {}", token);
    let hs = vec![
        Header { name: "Authorization", value: b"Bearer junk" },
        Header { name: "X-Other", value: b"1" },
        Header { name: "authorization", value: bearer.as_bytes() },
    ];
    assert!(jwt_authorized(&hs, "k", 0, 0, &mut cache));
}

#[test]
fn lookup_forgets_what_has_run_out() {
    let mut cache = JwtCache::new();
    cache.remember("t", b"mark", 100, 1);
    assert!(cache.lookup("t", b"mark", 100 + NANOS - 1));
    assert!(!cache.lookup("t", b"mork", 100));
    assert!(!cache.lookup("t", b"mark", 100 + NANOS));
    assert!(!cache.lookup("t", b"mark", 100));
}
