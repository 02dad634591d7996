//! Targets: when they need canonicalising, and what their canonical form is.

use rproxy::path::{
    hex_val, is_unreserved, needs_path_normalize, normalize_path_into, path_has_separator_evasion,
};

fn norm(target: &str) -> String {
    let mut out = Vec::new();
    normalize_path_into(target, &mut out);
    String::from_utf8(out).expect("normalized target must stay valid UTF-8")
}

#[test]
fn test_needs_path_normalize_gate() {
    assert!(!needs_path_normalize(b"/"));
    assert!(!needs_path_normalize(b"/api/users/42"));
    assert!(!needs_path_normalize(b"/a.b/c-d_e~f"));
    assert!(!needs_path_normalize(b"*"));
    assert!(!needs_path_normalize(b"/api?r=//evil&a=%2e%2e"));
    assert!(!needs_path_normalize(b"/api#/../x"));
    assert!(needs_path_normalize(b"/a/../b"));
    assert!(needs_path_normalize(b"//admin"));
    assert!(needs_path_normalize(b"/%61dmin"));
    assert!(needs_path_normalize(b"/a/./b"));
    assert!(needs_path_normalize(b"/a/."));
    assert!(needs_path_normalize(b"/a//"));
}

#[test]
fn test_path_has_separator_evasion() {
    assert!(path_has_separator_evasion(b"/a%2Fb"));
    assert!(path_has_separator_evasion(b"/a%2fb"));
    assert!(path_has_separator_evasion(b"/a%5Cb"));
    assert!(path_has_separator_evasion(b"/a%5cb"));
    assert!(path_has_separator_evasion(b"/a%2f../admin"));
    assert!(path_has_separator_evasion(b"/pub\\..\\admin"));
    assert!(!path_has_separator_evasion(
        b"/oauth?redirect_uri=https%3A%2F%2Fx.test%2Fcb"
    ));
    assert!(!path_has_separator_evasion(b"/a?x=%5C"));
    assert!(!path_has_separator_evasion(b"/a?x=a\\b"));
    assert!(!path_has_separator_evasion(b"/a#%2F"));
    assert!(!path_has_separator_evasion(b"/a%20b"));
    assert!(!path_has_separator_evasion(b"/%61dmin"));
    assert!(!path_has_separator_evasion(b"/a%2"));
    assert!(!path_has_separator_evasion(b"/a%"));
    assert!(!path_has_separator_evasion(b"/plain/path"));
    assert!(!path_has_separator_evasion(b"/a%252Fb"));
}

#[test]
fn test_normalize_dot_segments() {
    assert_eq!(norm("/"), "/");
    assert_eq!(norm("/api/users"), "/api/users");
    assert_eq!(norm("/x/../admin"), "/admin");
    assert_eq!(norm("/./admin"), "/admin");
    assert_eq!(norm("//admin"), "/admin");
    assert_eq!(norm("///a////b"), "/a/b");
    assert_eq!(norm("/a/b/../../c"), "/c");
    assert_eq!(norm("/.."), "/");
    assert_eq!(norm("/../.."), "/");
    assert_eq!(norm("/../../../etc/passwd"), "/etc/passwd");
    assert_eq!(norm("//.."), "/");
    assert_eq!(norm("/."), "/");
    assert_eq!(norm("/a/b/"), "/a/b/");
    assert_eq!(norm("/a/b/."), "/a/b/");
    assert_eq!(norm("/a/b/.."), "/a/");
    assert_eq!(norm("/a/b//"), "/a/b/");
    assert_eq!(norm("/.well-known/x"), "/.well-known/x");
    assert_eq!(norm("/a/...b/c"), "/a/...b/c");
}

#[test]
fn test_normalize_percent_escapes() {
    assert_eq!(norm("/%61dmin"), "/admin");
    assert_eq!(norm("/a/%2e%2e/admin"), "/admin");
    assert_eq!(norm("/a/%2E./admin"), "/admin");
    assert_eq!(norm("/%7Euser"), "/~user");
    assert_eq!(norm("/a%2Db"), "/a-b");
    assert_eq!(norm("/a%2Fb"), "/a%2Fb");
    assert_eq!(norm("/a%2f../b"), "/a%2f../b");
    assert_eq!(norm("/a%5C..%5Cb"), "/a%5C..%5Cb");
    assert_eq!(norm("/a%20b"), "/a%20b");
}

#[test]
fn test_normalize_malformed_escapes_never_panic() {
    assert_eq!(norm("/foo%"), "/foo%");
    assert_eq!(norm("/foo%2"), "/foo%2");
    assert_eq!(norm("/%"), "/%");
    assert_eq!(norm("/%%"), "/%%");
    assert_eq!(norm("/%zz"), "/%zz");
    assert_eq!(norm("/%2%2"), "/%2%2");
    assert_eq!(norm("/a/%"), "/a/%");
    assert_eq!(norm("/%2e%"), "/.%");
    assert_eq!(norm("/%2e%2e%"), "/..%");
}

#[test]
fn test_normalize_preserves_query_and_never_empties() {
    assert_eq!(norm("/a/../b?x=1&y=//z"), "/b?x=1&y=//z");
    assert_eq!(norm("/a/..?q=%2e%2e"), "/?q=%2e%2e");
    assert_eq!(norm("//?"), "/?");
    assert_eq!(norm("/a/../b#/../c"), "/b#/../c");
    for t in ["/", "/..", "/../..", "//", "/.", "//.", "/%2e", "/a/.."] {
        let n = norm(t);
        assert!(n.starts_with('/'), "{t:?} -> {n:?} lost its root");
        assert!(!n.is_empty());
    }
}

#[test]
fn canonical_form_is_stable() {
    for t in ["/", "/a/b", "/a/b/", "/admin?x=//", "/%20", "/a%2Fb"] {
        assert_eq!(norm(&norm(t)), norm(t));
        assert!(norm(t).len() <= t.len());
    }
    assert_eq!(norm("/%%361"), "/%61");
    assert_eq!(norm("/%61"), "/a");
}

#[test]
fn whole_escapes_normalize_once() {
    assert_eq!(norm("/a%2fb/../c%41"), "/cA");
    assert_eq!(norm("/%41%2F%7e/%2e./x%25%34%31"), "/x%2541");
    for t in ["/a%2fb/../c%41", "/%41%2F%7e/%2e./x%25%34%31", "/x%2541?y=%", "/%2e%2E/%5c#%", ""] {
        assert_eq!(norm(&norm(t)), norm(t));
    }
}

#[test]
fn unsuspicious_targets_are_canonical() {
    for t in ["/", "/api/users/42", "/a.b/c-d_e~f", "/x?y=%2e%2e//"] {
        assert!(!needs_path_normalize(t.as_bytes()));
        assert_eq!(norm(t), t);
    }
}

#[test]
fn hex_digits_and_unreserved_bytes() {
    assert_eq!(hex_val(b'0'), Some(0));
    assert_eq!(hex_val(b'9'), Some(9));
    assert_eq!(hex_val(b'a'), Some(10));
    assert_eq!(hex_val(b'F'), Some(15));
    assert_eq!(hex_val(b'g'), None);
    for b in b"azAZ09-._~" {
        assert!(is_unreserved(*b));
    }
    for b in b"/?#% \\" {
        assert!(!is_unreserved(*b));
    }
}
