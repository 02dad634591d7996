//! What the first process decides: its arguments, the addresses it listens on, the names of its
//! certificates, and which process to start again.

use vstd::prelude::*;
use vstd::string::*;
use vstd::utf8::*;

use crate::config;
use crate::config::{copy_strings, Config};
use crate::header_util;
use crate::text;
use crate::text::{read_unsigned, rsplit_once, split_once, split_str, str_eq, strip_prefix};

verus! {

/// Number of backends that the shared memory has room for.
pub const MAX_BACKENDS: usize = 1024;

// ---------------------------------------------------------------------------
// Settings to warn of
// ---------------------------------------------------------------------------

/// What is odd about a number of workers.
#[derive(Clone, Copy, PartialEq, Eq, Structural, Debug)]
pub enum WorkersNote {
    /// Nothing.
    Fine,
    /// It is no number, so that the machine decides.
    NotANumber,
    /// It is zero, so that one worker is started.
    Zero,
}

/// What is odd about a `workers` setting.
pub open spec fn note_on(setting: Option<String>) -> WorkersNote {
    match setting {
        Some(s) => if s@ == "auto"@ {
            WorkersNote::Fine
        } else {
            match text::parse_unsigned(encode_utf8(s@), 10, usize::MAX as nat) {
                Some(n) => if n == 0 {
                    WorkersNote::Zero
                } else {
                    WorkersNote::Fine
                },
                None => WorkersNote::NotANumber,
            }
        },
        None => WorkersNote::Fine,
    }
}

/// What is odd about a `workers` setting.
pub fn workers_note(setting: &Option<String>) -> (r: WorkersNote)
    ensures
        r == note_on(*setting),
{
    match setting {
        Some(s) => if str_eq(s.as_str(), "auto") {
            WorkersNote::Fine
        } else {
            match read_unsigned(s.as_str().as_bytes(), 10, usize::MAX as u64) {
                Some(n) => if n == 0 {
                    WorkersNote::Zero
                } else {
                    WorkersNote::Fine
                },
                None => WorkersNote::NotANumber,
            }
        },
        None => WorkersNote::Fine,
    }
}

// ---------------------------------------------------------------------------
// Arguments
// ---------------------------------------------------------------------------

/// What the arguments say.
pub enum Args {
    /// Start, or only test, with the configuration in a file.
    Run { config_path: String, test_config: bool },
    /// `-c` without a path.
    MissingPath,
    /// Anything else.
    Usage,
}

/// What the arguments say, as text.
pub enum ArgsModel {
    Run { config_path: Seq<char>, test_config: bool },
    MissingPath,
    Usage,
}

impl View for Args {
    type V = ArgsModel;

    open spec fn view(&self) -> ArgsModel {
        match *self {
            Args::Run { config_path, test_config } => ArgsModel::Run {
                config_path: config_path@,
                test_config,
            },
            Args::MissingPath => ArgsModel::MissingPath,
            Args::Usage => ArgsModel::Usage,
        }
    }
}

/// What the arguments from `i` on say, given what those before said.
pub open spec fn args_from(
    args: Seq<Seq<char>>,
    i: int,
    config_path: Seq<char>,
    test_config: bool,
) -> ArgsModel
    decreases args.len() - i,
{
    if i < 0 || i >= args.len() {
        ArgsModel::Run { config_path, test_config }
    } else if args[i] == "-t"@ {
        args_from(args, i + 1, config_path, true)
    } else if args[i] == "-c"@ {
        if i + 1 < args.len() {
            args_from(args, i + 2, args[i + 1], test_config)
        } else {
            ArgsModel::MissingPath
        }
    } else {
        ArgsModel::Usage
    }
}

/// Reads the arguments, of which the first is the name of the program.
pub fn parse_args(args: &[String]) -> (r: Args)
    ensures
        r@ == args_from(text::texts(args@), 1, "rproxy.yml"@, false),
{
    let mut config_path = "rproxy.yml".to_owned();
    let mut test_config: bool = false;
    let n: usize = args.len();
    let ghost ts = text::texts(args@);
    let mut i: usize = 1;
    while i < n
        invariant
            n == args@.len(),
            ts == text::texts(args@),
            1 <= i,
            args_from(ts, 1, "rproxy.yml"@, false) == args_from(
                ts,
                i as int,
                config_path@,
                test_config,
            ),
        decreases n - i,
    {
        assert(ts[i as int] == args@[i as int]@);
        if str_eq(args[i].as_str(), "-t") {
            test_config = true;
        } else if str_eq(args[i].as_str(), "-c") {
            if i + 1 >= n {
                return Args::MissingPath;
            }
            assert(ts[i + 1] == args@[i + 1]@);
            config_path = args[i + 1].clone();
            i += 1;
        } else {
            return Args::Usage;
        }
        i += 1;
    }
    Args::Run { config_path, test_config }
}

// ---------------------------------------------------------------------------
// Logging
// ---------------------------------------------------------------------------

/// The larger of a level and one that may be set.
pub open spec fn level_max(level: u8, other: Option<u8>) -> u8 {
    match other {
        Some(l) if l > level => l,
        _ => level,
    }
}

/// The highest level of some routes.
pub open spec fn routes_level(level: u8, rs: Seq<config::Route>) -> u8
    decreases rs.len(),
{
    if rs.len() == 0 {
        level
    } else {
        level_max(routes_level(level, rs.drop_last()), rs.last().log_level)
    }
}

/// The highest level of some domains and their routes.
pub open spec fn domains_level(level: u8, ds: Seq<config::Domain>) -> u8
    decreases ds.len(),
{
    if ds.len() == 0 {
        level
    } else {
        routes_level(
            level_max(domains_level(level, ds.drop_last()), ds.last().log_level),
            ds.last().routes@,
        )
    }
}

fn higher(level: u8, other: Option<u8>) -> (r: u8)
    ensures
        r == level_max(level, other),
{
    match other {
        Some(l) => if l > level {
            l
        } else {
            level
        },
        None => level,
    }
}

/// The highest level at which anything is logged.
pub fn max_log_level(cfg: &Config) -> (r: u8)
    ensures
        r == domains_level(cfg.log_level, cfg.domains@),
{
    let mut level: u8 = cfg.log_level;
    assert(cfg.domains@.take(0) =~= Seq::<config::Domain>::empty());
    for i in 0..cfg.domains.len()
        invariant
            level == domains_level(cfg.log_level, cfg.domains@.take(i as int)),
    {
        let d = &cfg.domains[i];
        level = higher(level, d.log_level);
        let ghost base = level;
        assert(d.routes@.take(0) =~= Seq::<config::Route>::empty());
        for j in 0..d.routes.len()
            invariant
                level == routes_level(base, d.routes@.take(j as int)),
        {
            level = higher(level, d.routes[j].log_level);
            assert(d.routes@.take(j + 1).drop_last() =~= d.routes@.take(j as int));
        }
        assert(d.routes@.take(d.routes@.len() as int) =~= d.routes@);
        assert(cfg.domains@.take(i + 1).drop_last() =~= cfg.domains@.take(i as int));
    }
    assert(cfg.domains@.take(cfg.domains@.len() as int) =~= cfg.domains@);
    level
}

/// The name of a level.
pub open spec fn filter_name(level: u8) -> &'static str {
    if level == 0 {
        "off"
    } else if level == 1 {
        "error"
    } else if level == 2 {
        "warn"
    } else if level == 3 {
        "info"
    } else if level == 4 {
        "debug"
    } else {
        "trace"
    }
}

/// The name of a level.
pub fn env_filter(level: u8) -> (r: &'static str)
    ensures
        r@ == filter_name(level)@,
{
    if level == 0 {
        "off"
    } else if level == 1 {
        "error"
    } else if level == 2 {
        "warn"
    } else if level == 3 {
        "info"
    } else if level == 4 {
        "debug"
    } else {
        "trace"
    }
}

// ---------------------------------------------------------------------------
// Addresses
// ---------------------------------------------------------------------------

/// What follows the last colon of an address; all of it where there is none.
pub open spec fn port_of(addr: Seq<char>) -> Seq<char> {
    let k = text::rfind(addr, ':');
    if k >= 0 {
        addr.skip(k + 1)
    } else {
        addr
    }
}

fn port_part<'a>(addr: &'a str) -> (r: &'a str)
    ensures
        r@ == port_of(addr@),
{
    proof {
        text::lemma_rfind(addr@, ':');
    }
    match rsplit_once(addr, ':') {
        Some((_, p)) => p,
        None => addr,
    }
}

/// The first address to listen on whose port is that of the metrics page.
pub open spec fn clash_from(metrics: Seq<char>, listen: Seq<Seq<char>>, i: int) -> Option<int>
    decreases listen.len() - i,
{
    if i < 0 || i >= listen.len() {
        None
    } else if port_of(listen[i]) == port_of(metrics) {
        Some(i)
    } else {
        clash_from(metrics, listen, i + 1)
    }
}

/// The place of the first address to listen on whose port is that of the metrics page.
pub fn metrics_port_clash(metrics_listen: &Option<String>, listen: &Vec<String>) -> (r: Option<
    usize,
>)
    ensures
        match r {
            Some(i) => config::opt_text(*metrics_listen) matches Some(m) && clash_from(
                m,
                text::texts(listen@),
                0,
            ) == Some(i as int) && i < listen@.len(),
            None => config::opt_text(*metrics_listen) matches Some(m) ==> clash_from(
                m,
                text::texts(listen@),
                0,
            ) is None,
        },
{
    let m = match metrics_listen {
        Some(m) => m,
        None => return None,
    };
    let port = port_part(m.as_str());
    for i in 0..listen.len()
        invariant
            port@ == port_of(m@),
            config::opt_text(*metrics_listen) == Some(m@),
            clash_from(m@, text::texts(listen@), 0) == clash_from(
                m@,
                text::texts(listen@),
                i as int,
            ),
    {
        if str_eq(port, port_part(listen[i].as_str())) {
            return Some(i);
        }
    }
    None
}

/// Host and port of an address to listen on: both sides of its only colon, or the first part as a
/// port of all interfaces.
pub open spec fn listen_parts(addr: Seq<char>) -> (Seq<char>, Seq<char>) {
    let parts = text::split(addr, ':');
    if parts.len() == 2 {
        (parts[0], parts[1])
    } else {
        ("0.0.0.0"@, parts[0])
    }
}

/// Host and port of an address to listen on.
pub fn split_listen<'a>(addr: &'a str) -> (r: (&'a str, &'a str))
    ensures
        (r.0@, r.1@) == listen_parts(addr@),
{
    let parts = split_str(addr, ':');
    proof {
        text::lemma_find(addr@, ':');
        assert(text::views(parts@).len() == parts@.len());
        assert(text::split(addr@, ':').len() > 0);
        assert(text::views(parts@)[0] == parts@[0]@);
    }
    if parts.len() == 2 {
        assert(text::views(parts@)[1] == parts@[1]@);
        (parts[0], parts[1])
    } else {
        ("0.0.0.0", parts[0])
    }
}

/// The socket address of a host and a port. A bare IPv6 host gets brackets.
pub open spec fn socket_text(host: Seq<char>, port: Seq<char>) -> Seq<char> {
    if host.contains(':') && !"["@.is_prefix_of(host) {
        "["@ + host + "]:"@ + port
    } else {
        host + ":"@ + port
    }
}

/// The socket address of a host and a port.
pub fn socket_address(host: &str, port: &str) -> (r: String)
    ensures
        r@ == socket_text(host@, port@),
{
    proof {
        text::lemma_find(host@, ':');
        reveal_strlit("");
    }
    let bare = split_once(host, ':').is_some() && strip_prefix(host, "[").is_none();
    assert(bare == (host@.contains(':') && !"["@.is_prefix_of(host@))) by {
        if text::find(host@, ':') < host@.len() {
            assert(host@[text::find(host@, ':')] == ':');
        }
    }
    let mut s = "".to_owned();
    if bare {
        s.append("[");
    }
    s.append(host);
    if bare {
        s.append("]:");
    } else {
        s.append(":");
    }
    s.append(port);
    assert(s@ =~= socket_text(host@, port@));
    s
}

/// The texts of some lists, each once, in the order in which they come first.
pub open spec fn unique(ts: Seq<Seq<char>>) -> Seq<Seq<char>>
    decreases ts.len(),
{
    if ts.len() == 0 {
        ts
    } else if unique(ts.drop_last()).contains(ts.last()) {
        unique(ts.drop_last())
    } else {
        unique(ts.drop_last()).push(ts.last())
    }
}

fn add_unique(out: &mut Vec<String>, v: &Vec<String>, Ghost(before): Ghost<Seq<Seq<char>>>)
    requires
        text::texts(old(out)@) == unique(before),
    ensures
        text::texts(final(out)@) == unique(before + text::texts(v@)),
{
    assert(before + text::texts(v@).take(0) =~= before);
    for i in 0..v.len()
        invariant
            text::texts(out@) == unique(before + text::texts(v@).take(i as int)),
    {
        let ghost so_far = before + text::texts(v@).take(i as int);
        let ghost now = before + text::texts(v@).take(i + 1);
        assert(now.drop_last() =~= so_far);
        assert(now.last() == v@[i as int]@);
        let mut found: bool = false;
        for j in 0..out.len()
            invariant
                found == exists|k: int| 0 <= k < j && (#[trigger] out@[k])@ == v@[i as int]@,
                i < v@.len(),
        {
            if str_eq(out[j].as_str(), v[i].as_str()) {
                found = true;
            }
        }
        proof {
            let ts = text::texts(out@);
            if found {
                let k = choose|k: int|
                    0 <= k < out@.len() && (#[trigger] out@[k])@ == v@[i as int]@;
                assert(ts[k] == v@[i as int]@);
            }
            if ts.contains(v@[i as int]@) {
                let k = choose|k: int| 0 <= k < ts.len() && ts[k] == v@[i as int]@;
                assert(out@[k]@ == v@[i as int]@);
            }
        }
        let ghost ts0 = text::texts(out@);
        if !found {
            out.push(v[i].clone());
            assert(text::texts(out@) =~= ts0.push(v@[i as int]@));
        }
    }
    assert(text::texts(v@).take(v@.len() as int) =~= text::texts(v@));
}

/// All addresses of a configuration without TLS, in order.
pub open spec fn plain_addresses(cfg: config::ConfigModel) -> Seq<Seq<char>> {
    cfg.listen + joined(cfg.domains, |d: config::DomainModel| d.listen)
}

/// All addresses of a configuration with TLS, in order.
pub open spec fn tls_addresses(cfg: config::ConfigModel) -> Seq<Seq<char>> {
    cfg.tls_listen + joined(cfg.domains, |d: config::DomainModel| d.tls_listen)
}

/// Lists of domains, one after the other.
pub open spec fn joined(
    ds: Seq<config::DomainModel>,
    f: spec_fn(config::DomainModel) -> Seq<Seq<char>>,
) -> Seq<Seq<char>>
    decreases ds.len(),
{
    if ds.len() == 0 {
        seq![]
    } else {
        joined(ds.drop_last(), f) + f(ds.last())
    }
}

/// The addresses to listen on without and with TLS, each once.
pub fn listen_addresses(cfg: &Config) -> (r: (Vec<String>, Vec<String>))
    ensures
        text::texts(r.0@) == unique(plain_addresses(cfg@)),
        text::texts(r.1@) == unique(tls_addresses(cfg@)),
{
    let mut plain: Vec<String> = Vec::new();
    let mut tls: Vec<String> = Vec::new();
    let ghost none = Seq::<Seq<char>>::empty();
    assert(text::texts(plain@) =~= none);
    assert(text::texts(tls@) =~= none);
    add_unique(&mut plain, &cfg.listen, Ghost(none));
    add_unique(&mut tls, &cfg.tls_listen, Ghost(none));
    let ghost fp = |d: config::DomainModel| d.listen;
    let ghost ft = |d: config::DomainModel| d.tls_listen;
    let ghost ds = cfg@.domains;
    assert(none + cfg@.listen =~= cfg@.listen + joined(ds.take(0), fp));
    assert(none + cfg@.tls_listen =~= cfg@.tls_listen + joined(ds.take(0), ft));
    for i in 0..cfg.domains.len()
        invariant
            ds == cfg@.domains,
            fp == (|d: config::DomainModel| d.listen),
            ft == (|d: config::DomainModel| d.tls_listen),
            text::texts(plain@) == unique(cfg@.listen + joined(ds.take(i as int), fp)),
            text::texts(tls@) == unique(cfg@.tls_listen + joined(ds.take(i as int), ft)),
    {
        let d = &cfg.domains[i];
        let ghost bp = cfg@.listen + joined(ds.take(i as int), fp);
        let ghost bt = cfg@.tls_listen + joined(ds.take(i as int), ft);
        add_unique(&mut plain, &d.listen, Ghost(bp));
        add_unique(&mut tls, &d.tls_listen, Ghost(bt));
        assert(ds.take(i + 1).drop_last() =~= ds.take(i as int));
        assert(ds.take(i + 1).last() == d@);
        assert(bp + text::texts(d.listen@) =~= cfg@.listen + joined(ds.take(i + 1), fp));
        assert(bt + text::texts(d.tls_listen@) =~= cfg@.tls_listen + joined(ds.take(i + 1), ft));
    }
    assert(ds.take(ds.len() as int) =~= ds);
    (plain, tls)
}

/// Every address is listened on, and none twice.
pub proof fn law_each_address_once(ts: Seq<Seq<char>>)
    ensures
        unique(ts).no_duplicates(),
        forall|t: Seq<char>| #[trigger] unique(ts).contains(t) <==> ts.contains(t),
    decreases ts.len(),
{
    if ts.len() > 0 {
        let head = ts.drop_last();
        law_each_address_once(head);
        let u = unique(ts);
        assert forall|t: Seq<char>| #[trigger] u.contains(t) implies ts.contains(t) by {
            if t == ts.last() {
                assert(ts[ts.len() - 1] == t);
            } else {
                if u != unique(head) {
                    let i = choose|i: int| 0 <= i < u.len() && u[i] == t;
                    assert(unique(head)[i] == t);
                }
                assert(unique(head).contains(t));
                let j = choose|j: int| 0 <= j < head.len() && head[j] == t;
                assert(ts[j] == t);
            }
        }
        assert forall|t: Seq<char>| ts.contains(t) implies #[trigger] u.contains(t) by {
            let j = choose|j: int| 0 <= j < ts.len() && ts[j] == t;
            if j < head.len() {
                assert(head[j] == t);
                assert(unique(head).contains(t));
                let i = choose|i: int| 0 <= i < unique(head).len() && unique(head)[i] == t;
                assert(u[i] == t);
            } else if !unique(head).contains(t) {
                assert(u[u.len() - 1] == t);
            }
        }
    }
}

/// Whether a configuration serves nothing at all.
pub fn serves_nothing(cfg: &Config) -> (r: bool)
    ensures
        r == (cfg.domains@.len() == 0 && cfg.def is None),
{
    cfg.domains.len() == 0 && cfg.def.is_none()
}

/// The limit that a rate comes to over all workers, each of which counts for itself.
pub fn effective_limit(limit: u32, workers: usize) -> (r: u64)
    ensures
        r == if limit * workers <= u64::MAX {
            limit * workers
        } else {
            u64::MAX as int
        },
{
    assert(limit * workers <= u32::MAX * usize::MAX) by (nonlinear_arith)
        requires
            0 <= limit <= u32::MAX,
            0 <= workers <= usize::MAX,
    ;
    let product: u128 = limit as u128 * workers as u128;
    if product <= u64::MAX as u128 {
        product as u64
    } else {
        u64::MAX
    }
}

// ---------------------------------------------------------------------------
// Certificates
// ---------------------------------------------------------------------------

/// Without the carets at the beginning.
pub open spec fn strip_carets(s: Seq<char>) -> Seq<char>
    decreases s.len(),
{
    if s.len() > 0 && s[0] == '^' {
        strip_carets(s.skip(1))
    } else {
        s
    }
}

/// Without the dollar signs at the end.
pub open spec fn strip_dollars(s: Seq<char>) -> Seq<char>
    decreases s.len(),
{
    if s.len() > 0 && s.last() == '$' {
        strip_dollars(s.drop_last())
    } else {
        s
    }
}

/// Without the backslashes.
pub open spec fn without_backslashes(s: Seq<char>) -> Seq<char>
    decreases s.len(),
{
    if s.len() == 0 {
        s
    } else if s.last() == '\\' {
        without_backslashes(s.drop_last())
    } else {
        without_backslashes(s.drop_last()).push(s.last())
    }
}

/// Whether a character may stand in a host name: an ASCII letter or digit, a dot, a hyphen or an
/// underscore.
pub open spec fn is_name_char(c: char) -> bool {
    ||| 'a' <= c <= 'z'
    ||| 'A' <= c <= 'Z'
    ||| '0' <= c <= '9'
    ||| c == '.'
    ||| c == '-'
    ||| c == '_'
}

/// Whether a text is a host name.
pub open spec fn is_host_name(s: Seq<char>) -> bool {
    s.len() > 0 && forall|i: int| 0 <= i < s.len() ==> is_name_char(#[trigger] s[i])
}

/// The host name that a pattern stands for: the pattern without anchors and escapes, where that is a
/// host name.
pub open spec fn sni_of(pat: Seq<char>) -> Option<Seq<char>> {
    let s = without_backslashes(strip_dollars(strip_carets(pat)));
    if is_host_name(s) {
        Some(s)
    } else {
        None
    }
}

fn strip_anchors<'a>(pat: &'a str) -> (r: &'a str)
    ensures
        r@ == strip_dollars(strip_carets(pat@)),
{
    proof {
        reveal_strlit("^");
        reveal_strlit("$");
        assert("^"@ =~= seq!['^']);
        assert("$"@ =~= seq!['$']);
    }
    let mut s: &'a str = pat;
    loop
        invariant
            "^"@ == seq!['^'],
            strip_carets(s@) == strip_carets(pat@),
        ensures
            s@ == strip_carets(pat@),
        decreases s@.len(),
    {
        match strip_prefix(s, "^") {
            Some(t) => {
                assert(s@[0] == "^"@[0]);
                s = t;
            },
            None => {
                assert(!(s@.len() > 0 && s@[0] == '^')) by {
                    if s@.len() > 0 && s@[0] == '^' {
                        assert("^"@.is_prefix_of(s@)) by {
                            assert(s@.subrange(0, 1) =~= "^"@);
                        }
                    }
                }
                break;
            },
        }
    }
    loop
        invariant
            "$"@ == seq!['$'],
            strip_dollars(s@) == strip_dollars(strip_carets(pat@)),
        ensures
            s@ == strip_dollars(strip_carets(pat@)),
        decreases s@.len(),
    {
        match text::strip_suffix(s, "$") {
            Some(t) => {
                assert(s@.last() == "$"@[0]) by {
                    assert(s@.subrange(s@.len() - 1, s@.len() as int)[0] == s@.last());
                }
                assert(t@ =~= s@.drop_last());
                s = t;
            },
            None => {
                assert(!(s@.len() > 0 && s@.last() == '$')) by {
                    if s@.len() > 0 && s@.last() == '$' {
                        assert(s@.subrange(s@.len() - 1, s@.len() as int) =~= "$"@);
                        assert("$"@.is_suffix_of(s@));
                    }
                }
                break;
            },
        }
    }
    s
}

fn remove_backslashes(s: &str) -> (r: String)
    ensures
        r@ == without_backslashes(s@),
{
    let parts = split_str(s, '\\');
    proof {
        reveal_strlit("");
        lemma_joined_parts(s@);
    }
    let ghost ps = text::split(s@, '\\');
    let mut r = "".to_owned();
    assert(r@ =~= concat(ps.take(0)));
    for i in 0..parts.len()
        invariant
            ps == text::split(s@, '\\'),
            text::views(parts@) == ps,
            r@ == concat(ps.take(i as int)),
    {
        assert(text::views(parts@)[i as int] == parts@[i as int]@);
        assert(ps.take(i + 1).drop_last() =~= ps.take(i as int));
        r.append(parts[i]);
    }
    assert(ps.take(ps.len() as int) =~= ps);
    r
}

/// Some texts, one after the other.
spec fn concat(ps: Seq<Seq<char>>) -> Seq<char>
    decreases ps.len(),
{
    if ps.len() == 0 {
        seq![]
    } else {
        concat(ps.drop_last()) + ps.last()
    }
}

proof fn lemma_concat_first(ps: Seq<Seq<char>>)
    requires
        ps.len() > 0,
    ensures
        concat(ps) == ps[0] + concat(ps.drop_first()),
    decreases ps.len(),
{
    if ps.len() == 1 {
        assert(ps.drop_last() =~= Seq::<Seq<char>>::empty());
        assert(ps.drop_first() =~= Seq::<Seq<char>>::empty());
        assert(concat(ps) =~= ps[0] + concat(ps.drop_first()));
    } else {
        lemma_concat_first(ps.drop_last());
        assert(ps.drop_last().drop_first() =~= ps.drop_first().drop_last());
        assert(concat(ps) =~= ps[0] + concat(ps.drop_first()));
    }
}

proof fn lemma_without_concat(a: Seq<char>, b: Seq<char>)
    ensures
        without_backslashes(a + b) == without_backslashes(a) + without_backslashes(b),
    decreases b.len(),
{
    if b.len() == 0 {
        assert(a + b =~= a);
        assert(without_backslashes(a) + without_backslashes(b) =~= without_backslashes(a));
    } else {
        lemma_without_concat(a, b.drop_last());
        assert((a + b).drop_last() =~= a + b.drop_last());
        assert((a + b).last() == b.last());
        assert(without_backslashes(a + b) =~= without_backslashes(a) + without_backslashes(b));
    }
}

proof fn lemma_without_none(a: Seq<char>)
    requires
        forall|i: int| 0 <= i < a.len() ==> #[trigger] a[i] != '\\',
    ensures
        without_backslashes(a) == a,
    decreases a.len(),
{
    if a.len() > 0 {
        lemma_without_none(a.drop_last());
        assert(a.drop_last().push(a.last()) =~= a);
    }
}

/// What stands between the backslashes is the text without them.
proof fn lemma_joined_parts(s: Seq<char>)
    ensures
        concat(text::split(s, '\\')) == without_backslashes(s),
    decreases s.len(),
{
    text::lemma_find(s, '\\');
    let k = text::find(s, '\\');
    let ps = text::split(s, '\\');
    if k >= s.len() {
        lemma_without_none(s);
        lemma_concat_first(ps);
        assert(ps.drop_first() =~= Seq::<Seq<char>>::empty());
        assert(concat(ps) =~= s);
    } else {
        let rest = s.skip(k + 1);
        lemma_joined_parts(rest);
        lemma_concat_first(ps);
        assert(ps.drop_first() =~= text::split(rest, '\\'));
        assert(s =~= s.take(k) + seq!['\\'] + rest);
        lemma_without_concat(s.take(k) + seq!['\\'], rest);
        lemma_without_concat(s.take(k), seq!['\\']);
        lemma_without_none(s.take(k));
        assert(seq!['\\'].drop_last() =~= Seq::<char>::empty());
        assert(without_backslashes(Seq::<char>::empty()) =~= Seq::<char>::empty());
        assert(without_backslashes(seq!['\\']) =~= Seq::<char>::empty());
        assert(concat(ps) =~= without_backslashes(s));
    }
}

fn name_char(c: char) -> (r: bool)
    ensures
        r == is_name_char(c),
{
    ('a' <= c && c <= 'z') || ('A' <= c && c <= 'Z') || ('0' <= c && c <= '9') || c == '.' || c
        == '-' || c == '_'
}

/// The host name that a pattern stands for, `None` where it is more than a host name.
pub fn derive_sni_from_match(pat: &str) -> (r: Option<String>)
    ensures
        config::opt_text(r) == sni_of(pat@),
{
    let s = remove_backslashes(strip_anchors(pat));
    let mut any: bool = false;
    for c in it: s.as_str().chars()
        invariant
            it.seq() == s@,
            s@ == without_backslashes(strip_dollars(strip_carets(pat@))),
            any == (it.index() > 0),
            forall|i: int| 0 <= i < it.index() ==> is_name_char(#[trigger] s@[i]),
    {
        if !name_char(c) {
            assert(!is_name_char(s@[it.index() as int]));
            return None;
        }
        any = true;
    }
    if any {
        Some(s)
    } else {
        None
    }
}

/// The names under which the certificate of a domain is offered: those that are given, or else the
/// one that its pattern stands for.
pub open spec fn sni_list(given: Option<Seq<Seq<char>>>, pat: Seq<char>) -> Seq<Seq<char>> {
    match given {
        Some(names) if names.len() > 0 => names,
        _ => match sni_of(pat) {
            Some(s) => seq![s],
            None => seq![],
        },
    }
}

/// The names under which the certificate of a domain is offered.
pub fn sni_names(given: &Option<Vec<String>>, pat: &str) -> (r: Vec<String>)
    ensures
        text::texts(r@) == sni_list(config::opt_texts(*given), pat@),
{
    if let Some(names) = given {
        if names.len() > 0 {
            return copy_strings(names);
        }
    }
    let mut r: Vec<String> = Vec::new();
    if let Some(s) = derive_sni_from_match(pat) {
        r.push(s);
    }
    assert(text::texts(r@) =~= sni_list(config::opt_texts(*given), pat@));
    r
}

// ---------------------------------------------------------------------------
// Supervision
// ---------------------------------------------------------------------------

/// A process that ended.
#[derive(Clone, Copy, PartialEq, Eq, Structural, Debug)]
pub enum Ended {
    HealthChecker,
    /// The worker at a place of the list of workers.
    Worker(usize),
    Unknown,
}

/// The place of the first worker from `i` on with a process id.
pub open spec fn worker_with(workers: Seq<(usize, i32)>, pid: i32, i: int) -> Option<int>
    decreases workers.len() - i,
{
    if i < 0 || i >= workers.len() {
        None
    } else if workers[i].1 == pid {
        Some(i)
    } else {
        worker_with(workers, pid, i + 1)
    }
}

/// Which process ended: the health checker, or one of the workers, each with its number and its
/// process id.
pub fn who_ended(pid: i32, health_checker: Option<i32>, workers: &[(usize, i32)]) -> (r: Ended)
    ensures
        r == if health_checker == Some(pid) {
            Ended::HealthChecker
        } else {
            match worker_with(workers@, pid, 0) {
                Some(i) => Ended::Worker(i as usize),
                None => Ended::Unknown,
            }
        },
        r matches Ended::Worker(i) ==> i < workers@.len() && workers@[i as int].1 == pid,
{
    if let Some(h) = health_checker {
        if h == pid {
            return Ended::HealthChecker;
        }
    }
    for i in 0..workers.len()
        invariant
            health_checker != Some(pid),
            worker_with(workers@, pid, 0) == worker_with(workers@, pid, i as int),
    {
        if workers[i].1 == pid {
            return Ended::Worker(i);
        }
    }
    Ended::Unknown
}

} // verus!
