//! The response cache.

use rproxy::cache::{
    cache_key, cache_lookup, cache_plan, client_encoding, hit_keepalive, hit_outcome, hit_response,
    not_modified_response, plan_key, CacheEntry, CacheHitOutcome, CachePlan, Lookup, SizedCache,
};
use rproxy::config::RouteCache;
use rproxy::header_util::find_ci;
use rproxy::http::Header;

fn entry(data: &[u8], expires_at: u128) -> CacheEntry {
    CacheEntry {
        data: data.to_vec(),
        expires_at,
        etag: Some("\"v1\"".to_string()),
        last_modified: Some("Mon, 01 Jan 2024 00:00:00 GMT".to_string()),
    }
}

fn header<'a>(name: &'a str, value: &'a str) -> Header<'a> {
    Header {
        name,
        value: value.as_bytes(),
    }
}

fn hit_data(l: Lookup) -> Option<Vec<u8>> {
    match l {
        Lookup::Hit(d) => Some(d),
        _ => None,
    }
}

#[test]
fn cache_header_rewrite_does_not_corrupt_body() {
    let fake_response: &[u8] = b"HTTP/1.1 200 OK\r\n\
            Content-Length: 13\r\n\
            Connection: keep-alive\r\n\
            Content-Type: text/plain\r\n\
            \r\n\
            response-body: Connection: keep-alive";

    let header_end = fake_response
        .windows(4)
        .position(|w| w == b"\r\n\r\n")
        .unwrap();
    let ka = b"Connection: keep-alive\r\n";
    assert!(
        find_ci(&fake_response[..header_end], ka).is_some(),
        "Connection header should be found in the header section"
    );
    assert!(
        find_ci(fake_response, ka).is_some(),
        "Connection string exists somewhere in the full blob"
    );
    assert!(find_ci(&fake_response[..header_end], ka)
        .map(|pos| pos < header_end)
        .unwrap_or(false));
    let served = hit_response(fake_response.to_vec(), false);
    assert!(served.ends_with(b"\r\n\r\nresponse-body: Connection: keep-alive"));
}

#[test]
fn cache_hit_rewrites_connection_close_when_header_is_last() {
    let blob =
        b"HTTP/1.1 200 OK\r\nContent-Length: 13\r\nConnection: keep-alive\r\n\r\nresponse-body";
    let served = hit_response(blob.to_vec(), false);
    let outcome = hit_outcome(true, false);
    assert!(matches!(outcome, CacheHitOutcome::Close));
    let written = String::from_utf8_lossy(&served);
    assert!(
        written.contains("Connection: close"),
        "expected the close-rewrite to fire, got: {written}"
    );
    assert!(
        !written.contains("keep-alive"),
        "keep-alive must not reach a client that asked to close, got: {written}"
    );
    assert!(
        written.ends_with("response-body"),
        "body must survive the rewrite intact, got: {written}"
    );
    assert_eq!(
        served,
        b"HTTP/1.1 200 OK\r\nContent-Length: 13\r\nConnection: close\r\n\r\nresponse-body"
    );
}

#[test]
fn hits_for_clients_that_go_on_are_served_as_stored() {
    let blob = b"HTTP/1.1 200 OK\r\nConnection: keep-alive\r\n\r\nx".to_vec();
    assert_eq!(hit_response(blob.clone(), true), blob);
    let plain = b"no head at all".to_vec();
    assert_eq!(hit_response(plain.clone(), false), plain);
    assert_eq!(
        not_modified_response(true),
        "HTTP/1.1 304 Not Modified\r\nConnection: keep-alive\r\n\r\n"
    );
    assert_eq!(
        not_modified_response(false),
        "HTTP/1.1 304 Not Modified\r\nConnection: close\r\n\r\n"
    );
    assert!(matches!(hit_outcome(true, true), CacheHitOutcome::Continue));
    assert!(matches!(hit_outcome(false, true), CacheHitOutcome::Close));
    assert!(hit_keepalive(true, 0, false));
    assert!(!hit_keepalive(true, 1, false));
    assert!(!hit_keepalive(true, 0, true));
}

#[test]
fn least_recently_used_goes_first() {
    let mut c = SizedCache::new(10);
    c.put(1, entry(b"aaaa", 100));
    c.put(2, entry(b"bbbb", 100));
    assert!(c.get(&1).is_some());
    c.put(3, entry(b"cccc", 100));
    assert!(c.get(&2).is_none());
    assert_eq!(c.get(&1).unwrap().data, b"aaaa");
    assert_eq!(c.get(&3).unwrap().data, b"cccc");
    c.put(1, entry(b"AA", 100));
    assert_eq!(c.get(&1).unwrap().data, b"AA");
    c.put(4, entry(b"dddd", 100));
    assert!(c.get(&3).is_some());
    c.remove(&3);
    assert!(c.get(&3).is_none());
}

#[test]
fn entry_beyond_the_budget_empties_the_cache() {
    let mut c = SizedCache::new(10);
    c.put(1, entry(b"aaaa", 100));
    assert!(c.has_room(11));
    assert!(!c.has_room(usize::MAX));
    c.put(2, entry(b"0123456789x", 100));
    assert!(c.get(&2).is_none());
    assert!(c.get(&1).is_none());
    c.put(3, entry(b"0123456789", 100));
    assert!(c.get(&3).is_some());
}

#[test]
fn lookup_serves_until_the_time_is_over() {
    let mut c = SizedCache::new(100);
    c.put(7, entry(b"data", 50));
    assert_eq!(
        hit_data(cache_lookup(&mut c, 7, false, &[], 49)).unwrap(),
        b"data"
    );
    assert!(matches!(cache_lookup(&mut c, 8, false, &[], 49), Lookup::Miss));
    assert!(matches!(cache_lookup(&mut c, 7, false, &[], 50), Lookup::Miss));
    assert!(c.get(&7).is_none());
}

#[test]
fn clients_may_keep_a_good_copy() {
    let mut c = SizedCache::new(100);
    c.put(7, entry(b"data", 50));
    let same_tag = [header("If-None-Match", "\"v1\"")];
    let other_tag = [header("If-None-Match", "\"v2\"")];
    let same_date = [header("if-modified-since", "Mon, 01 Jan 2024 00:00:00 GMT")];
    assert!(matches!(
        cache_lookup(&mut c, 7, true, &same_tag, 1),
        Lookup::NotModified
    ));
    assert!(matches!(
        cache_lookup(&mut c, 7, true, &same_date, 1),
        Lookup::NotModified
    ));
    assert!(hit_data(cache_lookup(&mut c, 7, true, &other_tag, 1)).is_some());
    assert!(hit_data(cache_lookup(&mut c, 7, false, &same_tag, 1)).is_some());
    let overruled = [
        header("If-None-Match", "\"v1\""),
        header("If-None-Match", "\"v2\""),
    ];
    assert!(hit_data(cache_lookup(&mut c, 7, true, &overruled, 1)).is_some());
}

#[test]
fn keys_tell_host_target_and_encoding_apart() {
    let k = cache_key("a", "/x", "gzip");
    assert_eq!(k, cache_key("a", "/x", "gzip"));
    assert_ne!(k, cache_key("a", "/x", "br"));
    assert_ne!(k, cache_key("a", "/y", "gzip"));
    assert_ne!(k, cache_key("b", "/x", "gzip"));
    assert_ne!(cache_key("ab", "c", ""), cache_key("a", "bc", ""));
}

#[test]
fn stored_without_a_lookup_has_the_key_zero() {
    let hs = [header("Accept-Encoding", "br")];
    let mut plan = CachePlan {
        store: None,
        lookup: true,
    };
    assert_eq!(plan_key(&plan, "a", "/x", &hs), cache_key("a", "/x", "br"));
    plan.lookup = false;
    assert_eq!(plan_key(&plan, "a", "/x", &hs), 0);
}

#[test]
fn encodings_of_a_client() {
    assert_eq!(client_encoding(&[]), "");
    assert_eq!(client_encoding(&[header("Accept-Encoding", "gzip, br")]), "br");
    assert_eq!(client_encoding(&[header("accept-encoding", "gzip")]), "gzip");
    assert_eq!(client_encoding(&[header("accept-encoding", "deflate")]), "");
    let two = [
        header("accept-encoding", "br"),
        header("accept-encoding", "deflate"),
    ];
    assert_eq!(client_encoding(&two), "br");
}

#[test]
fn what_the_cache_has_to_do_with_a_request() {
    let settings = RouteCache {
        ttl: 60,
        max_size: 1000,
        respect_headers: true,
    };
    let all = CachePlan {
        store: Some(settings),
        lookup: true,
    };
    let none = CachePlan {
        store: None,
        lookup: false,
    };
    assert_eq!(cache_plan(Some("GET"), &[], Some(settings)), all);
    assert_eq!(cache_plan(Some("POST"), &[], Some(settings)), none);
    assert_eq!(cache_plan(None, &[], Some(settings)), none);
    assert_eq!(cache_plan(Some("GET"), &[], None), none);
    let auth = [header("Authorization", "Bearer x")];
    assert_eq!(cache_plan(Some("GET"), &auth, Some(settings)), none);
    let upgrade = [header("Upgrade", "websocket")];
    assert_eq!(cache_plan(Some("GET"), &upgrade, Some(settings)), none);
    let fresh = [header("Cache-Control", "No-Cache")];
    assert_eq!(
        cache_plan(Some("GET"), &fresh, Some(settings)),
        CachePlan {
            store: Some(settings),
            lookup: false,
        }
    );
}
