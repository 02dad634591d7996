//! What is wrong with a configuration, and when nothing is.

use vstd::prelude::*;
use vstd::string::*;
use vstd::utf8::*;

use crate::config;
use crate::config::{YamlBackend, YamlConfig, YamlDomain, YamlRoute, YamlValidateRule};
use crate::net;
use crate::pattern;
use crate::text;

verus! {

/// The address of a backend as it is written.
pub open spec fn address(yb: YamlBackend) -> Option<Seq<char>> {
    match yb {
        YamlBackend::Simple(s) => Some(s@),
        YamlBackend::Detailed { host: Some(s), .. } => Some(s@),
        YamlBackend::Detailed { host: None, .. } => None,
    }
}

/// Whether a backend asks not to check certificates.
pub open spec fn unchecked(yb: YamlBackend) -> bool {
    yb matches YamlBackend::Detailed { tls_skip_verify: Some(b), .. } && b
}

/// Whether a text begins with one of the two schemes.
pub open spec fn has_scheme(s: Seq<char>) -> bool {
    "http://"@.is_prefix_of(s) || "https://"@.is_prefix_of(s)
}

proof fn lemma_schemes(rest: Seq<char>)
    requires
        !has_scheme(rest),
    ensures
        config::without_scheme(rest) == rest,
        config::without_scheme("http://"@ + rest) == rest,
        config::without_scheme("https://"@ + rest) == rest,
        !config::wants_tls(rest),
        !config::wants_tls("http://"@ + rest),
        config::wants_tls("https://"@ + rest),
{
    reveal_strlit("http://");
    reveal_strlit("https://");
    let h = "http://"@ + rest;
    let s = "https://"@ + rest;
    assert(h.skip(7) =~= rest);
    assert(s.skip(8) =~= rest);
    assert("http://"@.is_prefix_of(h));
    assert("https://"@.is_prefix_of(s));
    if "https://"@.is_prefix_of(h) {
        assert(h[4] == "https://"@[4]);
    }
    reveal_with_fuel(config::strip_all, 2);
}

/// What is wrong with a backend, judged by its address without its scheme: it has no colon, what
/// stands behind its first colon is no port, or it asks not to check certificates and has no
/// `https://`. Without an address that is what is wrong, and otherwise nothing is.
pub proof fn law_faults_of_a_backend(yb: YamlBackend, rest: Seq<char>, tls: bool)
    requires
        !has_scheme(rest),
        address(yb) is Some ==> address(yb)->0 == rest || address(yb)->0 == "http://"@ + rest
            || address(yb)->0 == "https://"@ + rest,
        tls <==> address(yb) == Some("https://"@ + rest),
    ensures
        ({
            let fault = config::backend_error(yb);
            let colon = rest.contains(':');
            let port = text::parse_unsigned(
                encode_utf8(rest.skip(text::find(rest, ':') + 1)),
                10,
                65535,
            );
            &&& address(yb) is None ==> fault == Some("Backend missing 'host' field"@)
            &&& address(yb) is Some && !colon ==> fault == Some(
                "Invalid backend format: "@ + address(yb)->0,
            )
            &&& address(yb) is Some && colon && port is None ==> fault == Some(
                "Invalid port in backend: "@ + address(yb)->0,
            )
            &&& address(yb) is Some && colon && port is Some && unchecked(yb) && !tls ==> fault
                is Some
            &&& address(yb) is Some && colon && port is Some && (!unchecked(yb) || tls) ==> fault
                is None
        }),
{
    lemma_schemes(rest);
    text::lemma_find(rest, ':');
    reveal_strlit("https://");
    reveal_strlit("http://");
    if tls && address(yb) == Some(rest) {
        assert(rest == "https://"@ + rest);
        assert(rest.len() == 8 + rest.len());
    }
    if tls && address(yb) == Some("http://"@ + rest) {
        assert(("http://"@ + rest).len() == ("https://"@ + rest).len());
    }
    if rest.contains(':') {
        let i = choose|i: int| 0 <= i < rest.len() && rest[i] == ':';
        assert(text::find(rest, ':') < rest.len());
    } else if text::find(rest, ':') < rest.len() {
        assert(rest.contains(rest[text::find(rest, ':')]));
    }
}

/// The fault of a list of backends is that of the first that has one.
pub proof fn law_first_faulty_backend(ybs: Seq<YamlBackend>)
    ensures
        match config::backends_error(ybs) {
            Some(e) => exists|i: int|
                0 <= i < ybs.len() && config::backend_error(#[trigger] ybs[i]) == Some(e) && forall|
                    j: int,
                |
                    0 <= j < i ==> config::backend_error(#[trigger] ybs[j]) is None,
            None => forall|i: int|
                0 <= i < ybs.len() ==> config::backend_error(#[trigger] ybs[i]) is None,
        },
    decreases ybs.len(),
{
    if ybs.len() > 0 {
        let t = ybs.drop_first();
        law_first_faulty_backend(t);
        if config::backend_error(ybs[0]) is None {
            match config::backends_error(t) {
                Some(e) => {
                    let i = choose|i: int|
                        0 <= i < t.len() && config::backend_error(#[trigger] t[i]) == Some(e)
                            && forall|j: int|
                            0 <= j < i ==> config::backend_error(#[trigger] t[j]) is None;
                    assert(config::backend_error(ybs[i + 1]) == Some(e));
                    assert forall|j: int| 0 <= j < i + 1 implies config::backend_error(
                        #[trigger] ybs[j],
                    ) is None by {
                        if j > 0 {
                            assert(ybs[j] == t[j - 1]);
                        }
                    }
                },
                None => {
                    assert forall|i: int| 0 <= i < ybs.len() implies config::backend_error(
                        #[trigger] ybs[i],
                    ) is None by {
                        if i > 0 {
                            assert(ybs[i] == t[i - 1]);
                        }
                    }
                },
            }
        } else {
            assert(config::backend_error(ybs[0]) == config::backends_error(ybs));
        }
    }
}

/// Whether some backends are all without fault.
pub open spec fn sound_backends(l: Option<Vec<YamlBackend>>) -> bool {
    l matches Some(v) ==> forall|i: int|
        0 <= i < v@.len() ==> config::backend_error(#[trigger] v@[i]) is None
}

/// Whether some networks can all be read.
pub open spec fn sound_nets(l: Option<Vec<String>>) -> bool {
    l matches Some(v) ==> forall|i: int|
        0 <= i < v@.len() ==> net::parsed_net((#[trigger] v@[i])@) is Some
}

proof fn lemma_sound_backends(l: Option<Vec<YamlBackend>>)
    ensures
        sound_backends(l) <==> config::backends_error(config::given(l)) is None,
{
    law_first_faulty_backend(config::given(l));
}

proof fn lemma_nets(kind: Seq<char>, ips: Seq<Seq<char>>)
    ensures
        config::acl_error(kind, ips) is None <==> forall|i: int|
            0 <= i < ips.len() ==> net::parsed_net(#[trigger] ips[i]) is Some,
    decreases ips.len(),
{
    if ips.len() > 0 {
        let t = ips.drop_first();
        lemma_nets(kind, t);
        if config::acl_error(kind, ips) is None {
            assert forall|i: int| 0 <= i < ips.len() implies net::parsed_net(#[trigger] ips[i])
                is Some by {
                if i > 0 {
                    assert(ips[i] == t[i - 1]);
                }
            }
        }
        if forall|i: int| 0 <= i < ips.len() ==> net::parsed_net(#[trigger] ips[i]) is Some {
            assert(net::parsed_net(ips[0]) is Some);
            assert forall|i: int| 0 <= i < t.len() implies net::parsed_net(#[trigger] t[i])
                is Some by {
                assert(t[i] == ips[i + 1]);
            }
        }
    }
}

proof fn lemma_sound_nets(kind: Seq<char>, l: Option<Vec<String>>)
    ensures
        sound_nets(l) <==> config::nets_error(kind, l) is None,
{
    if let Some(v) = l {
        let ts = text::texts(v@);
        lemma_nets(kind, ts);
        assert(ts.len() == v@.len());
        assert forall|i: int| 0 <= i < v@.len() implies #[trigger] ts[i] == v@[i]@ by {}
        if sound_nets(l) {
            assert forall|i: int| 0 <= i < ts.len() implies net::parsed_net(#[trigger] ts[i])
                is Some by {
                assert(net::parsed_net(v@[i]@) is Some);
            }
        }
        if config::nets_error(kind, l) is None {
            assert forall|i: int| 0 <= i < v@.len() implies net::parsed_net((#[trigger] v@[i])@)
                is Some by {
                assert(net::parsed_net(ts[i]) is Some);
            }
        }
    }
}

/// A network that cannot be read is named with the list that it stands in; the first one counts.
pub proof fn law_first_faulty_net(kind: Seq<char>, ip: Seq<char>, rest: Seq<Seq<char>>)
    ensures
        net::parsed_net(ip) is None ==> config::acl_error(kind, seq![ip] + rest) == Some(
            "Invalid network in "@ + kind + ": "@ + text::debug_text(ip)
                + " (invalid IP address syntax)"@,
        ),
        net::parsed_net(ip) is Some ==> config::acl_error(kind, seq![ip] + rest)
            == config::acl_error(kind, rest),
        config::acl_error(kind, seq![]) is None,
{
    reveal_strlit(" (");
    reveal_strlit("invalid IP address syntax");
    reveal_strlit(")");
    reveal_strlit(" (invalid IP address syntax)");
    assert((seq![ip] + rest).drop_first() =~= rest);
    assert(" ("@ + "invalid IP address syntax"@ + ")"@ =~= " (invalid IP address syntax)"@);
    let a = "Invalid network in "@ + kind + ": "@ + text::debug_text(ip);
    assert(a + " ("@ + "invalid IP address syntax"@ + ")"@ =~= a + (" ("@
        + "invalid IP address syntax"@ + ")"@));
}

/// A rule is faulty where a backend of it is, or its pattern cannot be read.
pub proof fn law_faults_of_a_rule(v: YamlValidateRule)
    ensures
        config::rule_error(v) is None <==> (v.on_fail matches Some(f) ==> sound_backends(f.backends))
            && (v.regex matches Some(re) ==> pattern::regex_valid(re@)),
        v.on_fail is None ==> (v.regex matches Some(re) ==> !pattern::regex_valid(re@)
            ==> config::rule_error(v) == Some("Bad validate regex: "@ + re@)),
{
    match v.on_fail {
        Some(f) => {
            lemma_sound_backends(f.backends);
        },
        None => {},
    }
}

proof fn lemma_rules(vs: Seq<YamlValidateRule>)
    ensures
        config::rules_error(vs) is None <==> forall|i: int|
            0 <= i < vs.len() ==> config::rule_error(#[trigger] vs[i]) is None,
    decreases vs.len(),
{
    if vs.len() > 0 {
        let t = vs.drop_first();
        lemma_rules(t);
        if config::rules_error(vs) is None {
            assert forall|i: int| 0 <= i < vs.len() implies config::rule_error(#[trigger] vs[i])
                is None by {
                if i > 0 {
                    assert(vs[i] == t[i - 1]);
                }
            }
        }
        if forall|i: int| 0 <= i < vs.len() ==> config::rule_error(#[trigger] vs[i]) is None {
            assert(config::rule_error(vs[0]) is None);
            assert forall|i: int| 0 <= i < t.len() implies config::rule_error(#[trigger] t[i])
                is None by {
                assert(t[i] == vs[i + 1]);
            }
        }
    }
}

/// A balance that is no known one is named; one that is set and known, or not set, is no fault. So it
/// is with patterns.
pub proof fn law_faulty_words(b: Option<String>, re: Seq<char>)
    ensures
        b is None ==> config::balance_error(b) is None,
        b matches Some(s) ==> (config::balance_of(s@) is Some ==> config::balance_error(b) is None),
        b matches Some(s) ==> (config::balance_of(s@) is None ==> config::balance_error(b) == Some(
            "Unknown balance algorithm: "@ + s@,
        )),
        pattern::regex_valid(re) ==> config::regex_error(re) is None,
        !pattern::regex_valid(re) ==> config::regex_error(re) == Some("Bad regex: "@ + re),
{
}

/// A route is accepted exactly if its balance is known, its backends and rules are sound, its pattern
/// can be read and its networks can.
pub proof fn law_accepted_route(yr: YamlRoute)
    ensures
        config::route_error(yr) is None <==> {
            &&& yr.balance matches Some(s) ==> config::balance_of(s@) is Some
            &&& sound_backends(yr.backends)
            &&& yr.validate matches Some(vs) ==> forall|i: int|
                0 <= i < vs@.len() ==> config::rule_error(#[trigger] vs@[i]) is None
            &&& pattern::regex_valid(yr.match_@)
            &&& sound_nets(yr.allow_ip)
            &&& sound_nets(yr.deny_ip)
        },
{
    lemma_sound_backends(yr.backends);
    lemma_rules(config::rules_of(yr));
    lemma_sound_nets("allow_ip"@, yr.allow_ip);
    lemma_sound_nets("deny_ip"@, yr.deny_ip);
}

proof fn lemma_routes(yrs: Seq<YamlRoute>)
    ensures
        config::routes_error(yrs) is None <==> forall|i: int|
            0 <= i < yrs.len() ==> config::route_error(#[trigger] yrs[i]) is None,
    decreases yrs.len(),
{
    if yrs.len() > 0 {
        let t = yrs.drop_first();
        lemma_routes(t);
        if config::routes_error(yrs) is None {
            assert forall|i: int| 0 <= i < yrs.len() implies config::route_error(#[trigger] yrs[i])
                is None by {
                if i > 0 {
                    assert(yrs[i] == t[i - 1]);
                }
            }
        }
        if forall|i: int| 0 <= i < yrs.len() ==> config::route_error(#[trigger] yrs[i]) is None {
            assert(config::route_error(yrs[0]) is None);
            assert forall|i: int| 0 <= i < t.len() implies config::route_error(#[trigger] t[i])
                is None by {
                assert(t[i] == yrs[i + 1]);
            }
        }
    }
}

/// A domain is accepted exactly if its balance is known, its networks and its pattern can be read,
/// and its backends and all its routes are sound.
pub proof fn law_accepted_domain(yd: YamlDomain)
    ensures
        config::domain_error(yd) is None <==> {
            &&& yd.balance matches Some(s) ==> config::balance_of(s@) is Some
            &&& sound_nets(yd.allow_ip)
            &&& sound_nets(yd.deny_ip)
            &&& pattern::regex_valid(yd.match_@)
            &&& sound_backends(yd.default)
            &&& forall|i: int|
                0 <= i < yd.routes@.len() ==> config::route_error(#[trigger] yd.routes@[i]) is None
        },
{
    lemma_sound_backends(yd.default);
    lemma_routes(yd.routes@);
    lemma_sound_nets("allow_ip"@, yd.allow_ip);
    lemma_sound_nets("deny_ip"@, yd.deny_ip);
}

proof fn lemma_domains(yds: Seq<YamlDomain>)
    ensures
        config::domains_error(yds) is None <==> forall|i: int|
            0 <= i < yds.len() ==> config::domain_error(#[trigger] yds[i]) is None,
    decreases yds.len(),
{
    if yds.len() > 0 {
        let t = yds.drop_first();
        lemma_domains(t);
        if config::domains_error(yds) is None {
            assert forall|i: int| 0 <= i < yds.len() implies config::domain_error(#[trigger] yds[i])
                is None by {
                if i > 0 {
                    assert(yds[i] == t[i - 1]);
                }
            }
        }
        if forall|i: int| 0 <= i < yds.len() ==> config::domain_error(#[trigger] yds[i]) is None {
            assert(config::domain_error(yds[0]) is None);
            assert forall|i: int| 0 <= i < t.len() implies config::domain_error(#[trigger] t[i])
                is None by {
                assert(t[i] == yds[i + 1]);
            }
        }
    }
}

/// A configuration is accepted exactly if its balance is known, its networks can be read, and its
/// backends and all its domains are sound.
pub proof fn law_accepted_configuration(yc: YamlConfig)
    ensures
        config::config_error(yc) is None <==> {
            &&& yc.balance matches Some(s) ==> config::balance_of(s@) is Some
            &&& sound_nets(yc.allow_ip)
            &&& sound_nets(yc.deny_ip)
            &&& sound_backends(yc.default)
            &&& yc.domains matches Some(ds) ==> forall|i: int|
                0 <= i < ds@.len() ==> config::domain_error(#[trigger] ds@[i]) is None
        },
{
    lemma_sound_backends(yc.default);
    lemma_domains(config::domains_of(yc));
    lemma_sound_nets("allow_ip"@, yc.allow_ip);
    lemma_sound_nets("deny_ip"@, yc.deny_ip);
}

/// Of several faults the first counts: those of the whole configuration before those of its default
/// backends, and these before those of its domains.
pub proof fn law_first_fault_counts(yc: YamlConfig)
    ensures
        config::balance_error(yc.balance) is Some ==> config::config_error(yc)
            == config::balance_error(yc.balance),
        config::balance_error(yc.balance) is None && config::nets_error("allow_ip"@, yc.allow_ip)
            is Some ==> config::config_error(yc) == config::nets_error("allow_ip"@, yc.allow_ip),
        config::balance_error(yc.balance) is None && config::nets_error("allow_ip"@, yc.allow_ip)
            is None && config::nets_error("deny_ip"@, yc.deny_ip) is Some ==> config::config_error(yc)
            == config::nets_error("deny_ip"@, yc.deny_ip),
        config::level_error(yc) is None && config::backends_error(config::given(yc.default)) is Some
            ==> config::config_error(yc) == config::backends_error(config::given(yc.default)),
        config::level_error(yc) is None && sound_backends(yc.default) ==> config::config_error(yc)
            == config::domains_error(config::domains_of(yc)),
{
    lemma_sound_backends(yc.default);
}

/// A worker that is to end is given the time that is set, and without one five seconds more than the
/// longest that a backend may take, but no less than thirty.
pub proof fn law_time_to_drain(setting: Option<u64>, longest: u64)
    ensures
        setting matches Some(n) ==> config::drain_of(setting, longest) == n,
        setting is None && longest <= 25 ==> config::drain_of(setting, longest) == 30,
        setting is None && 25 < longest <= u64::MAX - 5 ==> config::drain_of(setting, longest)
            == longest + 5,
{
}

} // verus!
