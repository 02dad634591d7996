//! Addresses, texts and environment references.

use rproxy::config::parse_acl;
use rproxy::environment::expand_env;
use rproxy::net::{any_contains, IpAddr, IpNet};
use rproxy::text::{read_i32, read_i64, rsplit_once, split_once, split_words, trim_str};

fn shown(ip: IpAddr) -> String {
    String::from_utf8(ip.to_text()).unwrap()
}

#[test]
fn addresses_are_written_as_usual() {
    assert_eq!(shown(IpAddr::v4(127, 0, 0, 1)), "127.0.0.1");
    assert_eq!(shown(IpAddr::v4(255, 10, 0, 9)), "255.10.0.9");
    assert_eq!(shown(IpAddr::V6(1)), "::1");
    assert_eq!(
        shown(IpAddr::V6(0x2001_0db8_0000_0000_0000_0000_0000_0001)),
        "2001:db8::1"
    );
    assert_eq!(shown(IpAddr::V6(0xffff_0102_0304)), "::ffff:1.2.3.4");
}

#[test]
fn networks_hold_addresses_with_their_prefix() {
    let net = IpNet::V4 {
        addr: 0x0a01_0000,
        prefix: 16,
    };
    assert!(net.contains(&IpAddr::v4(10, 1, 255, 255)));
    assert!(!net.contains(&IpAddr::v4(10, 2, 0, 0)));
    assert!(!net.contains(&IpAddr::V6(0x0a01_0000)));
    let one = IpNet::V4 {
        addr: 1,
        prefix: 32,
    };
    assert!(one.contains(&IpAddr::v4(0, 0, 0, 1)));
    assert!(!one.contains(&IpAddr::v4(0, 0, 0, 0)));
    let all = IpNet::V6 { addr: 0, prefix: 0 };
    assert!(all.contains(&IpAddr::V6(u128::MAX)));
    assert!(!all.contains(&IpAddr::v4(1, 1, 1, 1)));
    let half = IpNet::V6 {
        addr: 0x2001_0db8 << 96,
        prefix: 32,
    };
    assert!(half.contains(&IpAddr::V6((0x2001_0db8 << 96) + 5)));
    assert!(!half.contains(&IpAddr::V6(0x2001_0db9 << 96)));
    assert!(any_contains(&[one, net], &IpAddr::v4(10, 1, 0, 0)));
    assert!(!any_contains(&[], &IpAddr::v4(10, 1, 0, 0)));
}

#[test]
fn references_are_replaced() {
    let env = [
        ("HOST".to_string(), "h".to_string()),
        ("A_1".to_string(), "$HOST".to_string()),
    ];
    assert_eq!(expand_env("x ${HOST} y $HOST.z", &env), "x h y h.z");
    assert_eq!(expand_env("$A_1", &env), "$HOST");
    assert_eq!(expand_env("${NONE}|$NONE|", &env), "||");
    assert_eq!(expand_env("$1 $ ${} $H ${HOST", &env), "$1 $ ${} $H ${HOST");
    assert_eq!(expand_env("$client_ip ${client_ip}", &env), "$client_ip ${client_ip}");
}

#[test]
fn texts_are_cut() {
    assert_eq!(split_once("a=b=c", '='), Some(("a", "b=c")));
    assert_eq!(rsplit_once("a=b=c", '='), Some(("a=b", "c")));
    assert_eq!(split_once("abc", '='), None);
    assert_eq!(trim_str(" \t\u{a0}x y\n"), "x y");
    assert_eq!(split_words("  a  b\tc "), vec!["a", "b", "c"]);
    assert_eq!(read_i64(b"-9223372036854775808"), Some(i64::MIN));
    assert_eq!(read_i64(b"9223372036854775808"), None);
    assert_eq!(read_i32(b"+7"), Some(7));
    assert_eq!(read_i32(b"7x"), None);
}

#[test]
fn address_lists_are_read_or_refused() {
    let nets = parse_acl("allow_ip", &vec!["10.0.0.0/8".to_string(), "::1/128".to_string()]);
    assert!(any_contains(&nets.unwrap(), &IpAddr::V6(1)));
    assert_eq!(
        parse_acl("deny_ip", &vec!["10.0.0.1".to_string()]).err().unwrap(),
        "Invalid network in deny_ip: \"10.0.0.1\" (invalid IP address syntax)"
    );
    assert_eq!(
        parse_acl("deny_ip", &vec!["a\"b".to_string()]).err().unwrap(),
        "Invalid network in deny_ip: \"a\\\"b\" (invalid IP address syntax)"
    );
}
