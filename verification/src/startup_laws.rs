//! What the program is told when it starts: its environment, its arguments and its addresses.

use vstd::prelude::*;
use vstd::utf8::*;

use crate::config;
use crate::environment;
use crate::header_util;
use crate::startup;
use crate::startup::ArgsModel;
use crate::text;

verus! {

/// The characters of the name of a variable.
pub open spec fn in_name(c: char) -> bool {
    'a' <= c <= 'z' || 'A' <= c <= 'Z' || '0' <= c <= '9' || c == '_'
}

/// The name of a variable: letters, digits and underscores, of which the first is no digit.
pub open spec fn is_name(s: Seq<char>) -> bool {
    &&& s.len() > 0
    &&& !('0' <= s[0] <= '9')
    &&& forall|i: int| 0 <= i < s.len() ==> in_name(#[trigger] s[i])
}

proof fn lemma_name_len(name: Seq<char>, tail: Seq<char>)
    requires
        forall|i: int| 0 <= i < name.len() ==> in_name(#[trigger] name[i]),
        tail.len() == 0 || !in_name(tail[0]),
    ensures
        environment::name_len(name + tail) == name.len(),
    decreases name.len(),
{
    if name.len() == 0 {
        assert(name + tail =~= tail);
    } else {
        assert((name + tail).drop_first() =~= name.drop_first() + tail);
        assert(in_name(name[0]));
        assert forall|i: int| 0 <= i < name.drop_first().len() implies in_name(
            #[trigger] name.drop_first()[i],
        ) by {
            assert(in_name(name[i + 1]));
        }
        lemma_name_len(name.drop_first(), tail);
    }
}

proof fn lemma_brace_reference(name: Seq<char>, rest: Seq<char>)
    requires
        is_name(name),
    ensures
        environment::reference(seq!['$', '{'] + name + seq!['}'] + rest) == Some(
            (name, name.len() as int + 3),
        ),
{
    let s = seq!['$', '{'] + name + seq!['}'] + rest;
    let tail = seq!['}'] + rest;
    lemma_name_len(name, tail);
    assert(s.skip(2) =~= name + tail);
    assert((name + tail)[name.len() as int] == '}');
    assert((name + tail).take(name.len() as int) =~= name);
    assert((name + tail)[0] == name[0]);
    assert(in_name(name[0]));
}

proof fn lemma_bare_reference(name: Seq<char>, rest: Seq<char>)
    requires
        is_name(name),
        name.len() >= 2,
        rest.len() == 0 || !in_name(rest[0]),
    ensures
        environment::reference(seq!['$'] + name + rest) == Some((name, name.len() as int + 1)),
{
    let s = seq!['$'] + name + rest;
    lemma_name_len(name, rest);
    assert(s.skip(1) =~= name + rest);
    assert(s[1] == name[0]);
    assert(in_name(name[0]));
    assert((name + rest).take(name.len() as int) =~= name);
}

/// A reference in braces, and a bare one of at least two characters that no further one follows,
/// give way to the value of the variable that they name, and to nothing where it is not set.
/// References to `client_ip` stay, and so does every other character.
pub proof fn law_references_are_replaced(
    name: Seq<char>,
    c: char,
    rest: Seq<char>,
    env: Seq<(Seq<char>, Seq<char>)>,
)
    requires
        is_name(name),
    ensures
        ({
            let value = match header_util::lookup(env, name) {
                Some(v) => v,
                None => seq![],
            };
            let braced = seq!['$', '{'] + name + seq!['}'];
            let bare = seq!['$'] + name;
            let ends = name.len() >= 2 && (rest.len() == 0 || !in_name(rest[0]));
            &&& name != "client_ip"@ ==> environment::expanded(braced + rest, env) == value
                + environment::expanded(rest, env)
            &&& name != "client_ip"@ && ends ==> environment::expanded(bare + rest, env) == value
                + environment::expanded(rest, env)
            &&& name == "client_ip"@ ==> environment::expanded(braced + rest, env) == braced
                + environment::expanded(rest, env)
            &&& name == "client_ip"@ && ends ==> environment::expanded(bare + rest, env) == bare
                + environment::expanded(rest, env)
            &&& c != '$' ==> environment::expanded(seq![c] + rest, env) == seq![c]
                + environment::expanded(rest, env)
            &&& rest.len() == 0 || (rest[0] != '{' && (!in_name(rest[0]) || '0' <= rest[0] <= '9'))
                ==> environment::expanded(seq!['$'] + rest, env) == seq!['$']
                + environment::expanded(rest, env)
        }),
{
    let braced = seq!['$', '{'] + name + seq!['}'];
    let bare = seq!['$'] + name;
    lemma_brace_reference(name, rest);
    assert((braced + rest).skip(name.len() as int + 3) =~= rest);
    assert((braced + rest).take(name.len() as int + 3) =~= braced);
    if name.len() >= 2 && (rest.len() == 0 || !in_name(rest[0])) {
        lemma_bare_reference(name, rest);
        assert((bare + rest).skip(name.len() as int + 1) =~= rest);
        assert((bare + rest).take(name.len() as int + 1) =~= bare);
    }
    if c != '$' {
        assert((seq![c] + rest).skip(1) =~= rest);
    }
    if rest.len() == 0 || (rest[0] != '{' && (!in_name(rest[0]) || '0' <= rest[0] <= '9')) {
        assert((seq!['$'] + rest).skip(1) =~= rest);
    }
}

/// A variable has the value that it was first given.
pub proof fn law_first_value_counts(
    k: Seq<char>,
    v: Seq<char>,
    rest: Seq<(Seq<char>, Seq<char>)>,
    other: Seq<char>,
)
    requires
        other != k,
    ensures
        header_util::lookup(seq![(k, v)] + rest, k) == Some(v),
        header_util::lookup(seq![(k, v)] + rest, other) == header_util::lookup(rest, other),
        header_util::lookup(seq![], k) is None,
{
    assert((seq![(k, v)] + rest).drop_first() =~= rest);
}

/// What the arguments from the second on say.
pub open spec fn told(args: Seq<Seq<char>>) -> ArgsModel {
    startup::args_from(args, 1, "rproxy.yml"@, false)
}

proof fn lemma_more_arguments(
    args: Seq<Seq<char>>,
    more: Seq<Seq<char>>,
    i: int,
    c: Seq<char>,
    t: bool,
)
    requires
        0 <= i <= args.len(),
    ensures
        startup::args_from(args, i, c, t) matches ArgsModel::Run { config_path, test_config }
            ==> startup::args_from(args + more, i, c, t) == startup::args_from(
            args + more,
            args.len() as int,
            config_path,
            test_config,
        ),
        startup::args_from(args, i, c, t) is Usage ==> startup::args_from(args + more, i, c, t) is Usage,
    decreases args.len() - i,
{
    if i < args.len() {
        assert((args + more)[i] == args[i]);
        if args[i] == "-t"@ {
            lemma_more_arguments(args, more, i + 1, c, true);
        } else if args[i] == "-c"@ && i + 1 < args.len() {
            assert((args + more)[i + 1] == args[i + 1]);
            lemma_more_arguments(args, more, i + 2, args[i + 1], t);
        }
    }
}

/// What one more argument changes. `-t` asks for a test, `-c` with a path gives the configuration
/// file, the last one counts, and both leave the rest as it is. `-c` alone is incomplete, anything
/// else is answered with the usage, and without arguments `rproxy.yml` is run.
pub proof fn law_arguments(args: Seq<Seq<char>>, x: Seq<char>)
    requires
        args.len() > 0,
    ensures
        args.len() == 1 ==> told(args) == (ArgsModel::Run {
            config_path: "rproxy.yml"@,
            test_config: false,
        }),
        told(args) matches ArgsModel::Run { config_path, test_config } ==> {
            &&& told(args + seq!["-t"@]) == (ArgsModel::Run { config_path, test_config: true })
            &&& told(args + seq!["-c"@, x]) == (ArgsModel::Run { config_path: x, test_config })
            &&& told(args + seq!["-c"@]) is MissingPath
            &&& x != "-t"@ && x != "-c"@ ==> told(args + seq![x]) is Usage
        },
        told(args) is Usage ==> told(args + seq![x]) is Usage,
{
    reveal_strlit("-t");
    reveal_strlit("-c");
    assert("-t"@[1] == 't' && "-c"@[1] == 'c');
    let d = "rproxy.yml"@;
    lemma_more_arguments(args, seq!["-t"@], 1, d, false);
    lemma_more_arguments(args, seq!["-c"@, x], 1, d, false);
    lemma_more_arguments(args, seq!["-c"@], 1, d, false);
    lemma_more_arguments(args, seq![x], 1, d, false);
    reveal_with_fuel(startup::args_from, 2);
    let n = args.len() as int;
    assert((args + seq!["-t"@])[n] == "-t"@);
    assert((args + seq!["-c"@, x])[n] == "-c"@ && (args + seq!["-c"@, x])[n + 1] == x);
    assert((args + seq!["-c"@])[n] == "-c"@);
    assert((args + seq![x])[n] == x);
}

/// What is logged at all goes by the highest level that any route, any domain or the file sets.
pub proof fn law_highest_level(level: u8, ds: Seq<config::Domain>)
    ensures
        level <= startup::domains_level(level, ds),
        forall|i: int|
            0 <= i < ds.len() ==> ((#[trigger] ds[i]).log_level matches Some(l) ==> l
                <= startup::domains_level(level, ds)),
        forall|i: int, j: int|
            0 <= i < ds.len() && 0 <= j < ds[i].routes@.len() ==> (#[trigger] ds[i].routes@[j].log_level matches Some(l) ==> l <= startup::domains_level(level, ds)),
        startup::domains_level(level, ds) == level || (exists|i: int|
            0 <= i < ds.len() && #[trigger] ds[i].log_level == Some(startup::domains_level(level, ds)))
            || (exists|i: int, j: int|
            0 <= i < ds.len() && 0 <= j < ds[i].routes@.len() && #[trigger] ds[i].routes@[j].log_level
                == Some(startup::domains_level(level, ds))),
    decreases ds.len(),
{
    if ds.len() > 0 {
        let d = ds.last();
        let n = ds.len() - 1;
        let init = ds.drop_last();
        law_highest_level(level, init);
        let below = startup::domains_level(level, init);
        let base = startup::level_max(below, d.log_level);
        lemma_routes_level(base, d.routes@);
        let top = startup::domains_level(level, ds);
        assert(ds[n] == d);
        assert forall|i: int| 0 <= i < ds.len() implies ((#[trigger] ds[i]).log_level matches Some(l)
            ==> l <= top) by {
            if i < n {
                assert(init[i] == ds[i]);
            }
        }
        assert forall|i: int, j: int|
            0 <= i < ds.len() && 0 <= j < ds[i].routes@.len() implies (#[trigger] ds[i].routes@[j].log_level matches Some(l) ==> l <= top) by {
            if i < n {
                assert(init[i].routes@[j].log_level == ds[i].routes@[j].log_level);
            }
        }
        if top != base {
            let j = choose|j: int|
                0 <= j < d.routes@.len() && #[trigger] d.routes@[j].log_level == Some(top);
            assert(ds[n].routes@[j].log_level == Some(top));
        } else if base != below {
            assert(ds[n].log_level == Some(top));
        } else if below != level {
            if exists|i: int| 0 <= i < init.len() && #[trigger] init[i].log_level == Some(below) {
                let i = choose|i: int|
                    0 <= i < init.len() && #[trigger] init[i].log_level == Some(below);
                assert(ds[i].log_level == Some(top));
            } else {
                let (i, j) = choose|i: int, j: int|
                    0 <= i < init.len() && 0 <= j < init[i].routes@.len()
                        && #[trigger] init[i].routes@[j].log_level == Some(below);
                assert(ds[i].routes@[j].log_level == Some(top));
            }
        }
    }
}

proof fn lemma_routes_level(level: u8, rs: Seq<config::Route>)
    ensures
        level <= startup::routes_level(level, rs),
        forall|j: int|
            0 <= j < rs.len() ==> (#[trigger] rs[j].log_level matches Some(l) ==> l
                <= startup::routes_level(level, rs)),
        startup::routes_level(level, rs) == level || exists|j: int|
            0 <= j < rs.len() && #[trigger] rs[j].log_level == Some(startup::routes_level(level, rs)),
    decreases rs.len(),
{
    if rs.len() > 0 {
        let init = rs.drop_last();
        let n = rs.len() - 1;
        lemma_routes_level(level, init);
        let below = startup::routes_level(level, init);
        let top = startup::routes_level(level, rs);
        assert forall|j: int| 0 <= j < rs.len() implies (#[trigger] rs[j].log_level matches Some(l)
            ==> l <= top) by {
            if j < n {
                assert(init[j].log_level == rs[j].log_level);
            }
        }
        if top != below {
            assert(rs[n].log_level == Some(top));
        } else if below != level {
            let j = choose|j: int| 0 <= j < init.len() && #[trigger] init[j].log_level == Some(below);
            assert(rs[j].log_level == Some(top));
        }
    }
}

/// The levels are named from `off` to `trace`.
pub proof fn law_level_names(level: u8)
    ensures
        startup::filter_name(0)@ == "off"@,
        startup::filter_name(1)@ == "error"@,
        startup::filter_name(2)@ == "warn"@,
        startup::filter_name(3)@ == "info"@,
        startup::filter_name(4)@ == "debug"@,
        level >= 5 ==> startup::filter_name(level)@ == "trace"@,
{
}

/// The port of an address is what stands behind its last colon, and all of it where there is none.
pub proof fn law_port_of_an_address(h: Seq<char>, p: Seq<char>)
    requires
        !p.contains(':'),
    ensures
        startup::port_of(h + seq![':'] + p) == p,
        startup::port_of(p) == p,
{
    let a = h + seq![':'] + p;
    text::lemma_rfind(a, ':');
    text::lemma_rfind(p, ':');
    let k = text::rfind(a, ':');
    assert(a[h.len() as int] == ':');
    if k > h.len() {
        assert(a[k] == p[k - h.len() - 1]);
        assert(p.contains(':'));
    }
    assert(k == h.len());
    assert(a.skip(k + 1) =~= p);
    let j = text::rfind(p, ':');
    if j >= 0 {
        assert(p[j] == ':');
        assert(p.contains(':'));
    }
}

/// The address that is named as clashing is the first with the port of the metrics page; where none
/// is named, none has it.
pub proof fn law_first_clash(metrics: Seq<char>, listen: Seq<Seq<char>>, from: int)
    requires
        0 <= from,
    ensures
        match startup::clash_from(metrics, listen, from) {
            Some(i) => from <= i < listen.len() && startup::port_of(listen[i]) == startup::port_of(
                metrics,
            ) && forall|j: int|
                from <= j < i ==> startup::port_of(#[trigger] listen[j]) != startup::port_of(metrics),
            None => forall|j: int|
                from <= j < listen.len() ==> startup::port_of(#[trigger] listen[j])
                    != startup::port_of(metrics),
        },
    decreases listen.len() - from,
{
    if from < listen.len() && startup::port_of(listen[from]) != startup::port_of(metrics) {
        law_first_clash(metrics, listen, from + 1);
    }
}

/// An address to listen on is a host and a port with a colon between; a port alone stands for every
/// address of the machine.
pub proof fn law_parts_of_an_address(h: Seq<char>, p: Seq<char>)
    requires
        !h.contains(':'),
        !p.contains(':'),
    ensures
        startup::listen_parts(h + seq![':'] + p) == (h, p),
        startup::listen_parts(p) == ("0.0.0.0"@, p),
{
    text::lemma_find(h, ':');
    text::lemma_find(p, ':');
    let a = h + seq![':'] + p;
    assert forall|i: int| 0 <= i < h.len() implies a[i] != ':' by {
        assert(a[i] == h[i]);
    }
    text::lemma_find_is(a, ':', h.len() as int);
    assert(a.take(h.len() as int) =~= h);
    assert(a.skip(h.len() as int + 1) =~= p);
    assert(text::split(p, ':') =~= seq![p]);
    assert(text::split(a, ':') =~= seq![h, p]);
}

/// A host with colons in it is put in brackets, unless it stands in them; host and port have a colon
/// between.
pub proof fn law_socket_text(h: Seq<char>, p: Seq<char>)
    ensures
        !h.contains(':') || (h.len() > 0 && h[0] == '[') ==> startup::socket_text(h, p) == h + seq![
            ':',
        ] + p,
        h.contains(':') && h[0] != '[' ==> startup::socket_text(h, p) == seq!['['] + h + seq![']', ':']
            + p,
{
    reveal_strlit("[");
    reveal_strlit("]:");
    reveal_strlit(":");
    assert("["@ =~= seq!['[']);
    assert("]:"@ =~= seq![']', ':']);
    assert(":"@ =~= seq![':']);
    if h.len() > 0 && h[0] == '[' {
        assert("["@.is_prefix_of(h));
    }
    if "["@.is_prefix_of(h) {
        assert(h[0] == "["@[0]);
    }
}

proof fn lemma_joined(
    ds: Seq<config::DomainModel>,
    f: spec_fn(config::DomainModel) -> Seq<Seq<char>>,
    a: Seq<char>,
)
    ensures
        startup::joined(ds, f).contains(a) <==> exists|i: int|
            0 <= i < ds.len() && (#[trigger] f(ds[i])).contains(a),
    decreases ds.len(),
{
    if ds.len() > 0 {
        let init = ds.drop_last();
        let n = ds.len() - 1;
        lemma_joined(init, f, a);
        let l = startup::joined(init, f);
        let m = f(ds.last());
        if (l + m).contains(a) {
            let k = choose|k: int| 0 <= k < (l + m).len() && (l + m)[k] == a;
            if k < l.len() {
                assert(l[k] == a);
                let i = choose|i: int| 0 <= i < init.len() && (#[trigger] f(init[i])).contains(a);
                assert(f(ds[i]).contains(a));
            } else {
                assert(m[k - l.len()] == a);
                assert(f(ds[n]).contains(a));
            }
        }
        if exists|i: int| 0 <= i < ds.len() && (#[trigger] f(ds[i])).contains(a) {
            let i = choose|i: int| 0 <= i < ds.len() && (#[trigger] f(ds[i])).contains(a);
            if i < n {
                assert(f(init[i]).contains(a));
                let k = choose|k: int| 0 <= k < l.len() && l[k] == a;
                assert((l + m)[k] == a);
            } else {
                let k = choose|k: int| 0 <= k < m.len() && m[k] == a;
                assert((l + m)[l.len() + k] == a);
            }
        }
    }
}

/// The addresses are those that the file or one of its domains lists, without TLS or with it.
pub proof fn law_addresses_are_as_listed(cfg: config::ConfigModel, a: Seq<char>)
    ensures
        startup::plain_addresses(cfg).contains(a) <==> cfg.listen.contains(a) || exists|i: int|
            0 <= i < cfg.domains.len() && (#[trigger] cfg.domains[i]).listen.contains(a),
        startup::tls_addresses(cfg).contains(a) <==> cfg.tls_listen.contains(a) || exists|i: int|
            0 <= i < cfg.domains.len() && (#[trigger] cfg.domains[i]).tls_listen.contains(a),
{
    let f = |d: config::DomainModel| d.listen;
    let g = |d: config::DomainModel| d.tls_listen;
    lemma_joined(cfg.domains, f, a);
    lemma_joined(cfg.domains, g, a);
    lemma_either(cfg.listen, startup::joined(cfg.domains, f), a);
    lemma_either(cfg.tls_listen, startup::joined(cfg.domains, g), a);
    assert forall|i: int| 0 <= i < cfg.domains.len() implies {
        &&& f(cfg.domains[i]) == (#[trigger] cfg.domains[i]).listen
        &&& g(cfg.domains[i]) == cfg.domains[i].tls_listen
    } by {}
    if exists|i: int| 0 <= i < cfg.domains.len() && (#[trigger] cfg.domains[i]).listen.contains(a) {
        let i = choose|i: int|
            0 <= i < cfg.domains.len() && (#[trigger] cfg.domains[i]).listen.contains(a);
        assert(f(cfg.domains[i]).contains(a));
    }
    if exists|i: int| 0 <= i < cfg.domains.len() && (#[trigger] cfg.domains[i]).tls_listen.contains(a) {
        let i = choose|i: int|
            0 <= i < cfg.domains.len() && (#[trigger] cfg.domains[i]).tls_listen.contains(a);
        assert(g(cfg.domains[i]).contains(a));
    }
}

proof fn lemma_either(x: Seq<Seq<char>>, y: Seq<Seq<char>>, a: Seq<char>)
    ensures
        (x + y).contains(a) <==> x.contains(a) || y.contains(a),
{
    if (x + y).contains(a) {
        let k = choose|k: int| 0 <= k < (x + y).len() && (x + y)[k] == a;
        if k < x.len() {
            assert(x[k] == a);
        } else {
            assert(y[k - x.len()] == a);
        }
    }
    if x.contains(a) {
        let k = choose|k: int| 0 <= k < x.len() && x[k] == a;
        assert((x + y)[k] == a);
    }
    if y.contains(a) {
        let k = choose|k: int| 0 <= k < y.len() && y[k] == a;
        assert((x + y)[x.len() + k] == a);
    }
}

/// The characters of a host name.
pub open spec fn in_host(c: char) -> bool {
    in_name(c) || c == '.' || c == '-'
}

proof fn lemma_unmarked(s: Seq<char>)
    requires
        !s.contains('\\'),
    ensures
        startup::without_backslashes(s) == s,
    decreases s.len(),
{
    if s.len() > 0 {
        assert(s[s.len() - 1] == s.last());
        assert forall|i: int| 0 <= i < s.drop_last().len() implies s.drop_last()[i] != '\\' by {
            assert(s[i] != '\\');
        }
        lemma_unmarked(s.drop_last());
        assert(s.drop_last().push(s.last()) =~= s);
    }
}

proof fn lemma_backslash(a: Seq<char>, b: Seq<char>)
    ensures
        startup::without_backslashes(a + seq!['\\'] + b) == startup::without_backslashes(a + b),
    decreases b.len(),
{
    let s = a + seq!['\\'] + b;
    if b.len() == 0 {
        assert(s.drop_last() =~= a + b);
    } else {
        lemma_backslash(a, b.drop_last());
        assert(s.drop_last() =~= a + seq!['\\'] + b.drop_last());
        assert((a + b).drop_last() =~= a + b.drop_last());
    }
}

proof fn lemma_carets(s: Seq<char>, c: char)
    requires
        c != '^',
    ensures
        startup::strip_carets(s + seq![c]) == startup::strip_carets(s) + seq![c],
    decreases s.len(),
{
    if s.len() > 0 && s[0] == '^' {
        assert((s + seq![c]).skip(1) =~= s.skip(1) + seq![c]);
        lemma_carets(s.skip(1), c);
    }
}

/// The name that a host pattern stands for. One made of letters, digits, `.`, `-` and `_` stands for
/// itself. Anchors at its ends, and backslashes within, change nothing. A pattern with any other
/// character in it stands for no name.
pub proof fn law_name_of_a_pattern(s: Seq<char>, a: Seq<char>, b: Seq<char>)
    ensures
        s.len() > 0 && (forall|i: int| 0 <= i < s.len() ==> in_host(#[trigger] s[i]))
            ==> startup::sni_of(s) == Some(s),
        !s.contains('^') && !s.contains('$') && !s.contains('\\') && (s.len() == 0 || exists|i: int|
            0 <= i < s.len() && !in_host(#[trigger] s[i])) ==> startup::sni_of(s) is None,
        startup::sni_of(seq!['^'] + s) == startup::sni_of(s),
        startup::sni_of(s + seq!['$']) == startup::sni_of(s),
        a.len() > 0 && a[0] != '^' && b.len() > 0 && b.last() != '$' ==> startup::sni_of(
            a + seq!['\\'] + b,
        ) == startup::sni_of(a + b),
{
    assert((seq!['^'] + s).skip(1) =~= s);
    lemma_carets(s, '$');
    assert((startup::strip_carets(s) + seq!['$']).drop_last() =~= startup::strip_carets(s));
    if a.len() > 0 && a[0] != '^' && b.len() > 0 && b.last() != '$' {
        lemma_backslash(a, b);
        let x = a + seq!['\\'] + b;
        assert(x[0] == a[0] && (a + b)[0] == a[0]);
        assert(x.last() == b.last() && (a + b).last() == b.last());
    }
    if s.len() > 0 && (forall|i: int| 0 <= i < s.len() ==> in_host(#[trigger] s[i])) {
        assert(in_host(s[0]) && in_host(s[s.len() - 1]));
        assert(!s.contains('\\')) by {
            if s.contains('\\') {
                let i = choose|i: int| 0 <= i < s.len() && s[i] == '\\';
                assert(in_host(s[i]));
            }
        }
        lemma_unmarked(s);
        assert forall|i: int| 0 <= i < s.len() implies startup::is_name_char(#[trigger] s[i]) by {
            assert(in_host(s[i]));
        }
    }
    if !s.contains('^') && !s.contains('$') && !s.contains('\\') {
        lemma_unmarked(s);
        if s.len() > 0 {
            assert(s[0] != '^' && s[s.len() - 1] != '$');
        }
        if exists|i: int| 0 <= i < s.len() && !in_host(#[trigger] s[i]) {
            let i = choose|i: int| 0 <= i < s.len() && !in_host(#[trigger] s[i]);
            assert(!startup::is_name_char(s[i]));
        }
    }
}

/// A certificate is offered under the names that are given for it, and without any under the name
/// that the pattern of its domain stands for.
pub proof fn law_names_of_a_certificate(names: Seq<Seq<char>>, pat: Seq<char>)
    ensures
        names.len() > 0 ==> startup::sni_list(Some(names), pat) == names,
        startup::sni_list(None, pat) == startup::sni_list(Some(seq![]), pat),
        match startup::sni_of(pat) {
            Some(n) => startup::sni_list(None, pat) == seq![n],
            None => startup::sni_list(None, pat).len() == 0,
        },
{
}

/// The worker that ended is the first with the process id.
pub proof fn law_worker_that_ended(workers: Seq<(usize, i32)>, pid: i32, from: int)
    requires
        0 <= from,
    ensures
        match startup::worker_with(workers, pid, from) {
            Some(i) => from <= i < workers.len() && workers[i].1 == pid && forall|j: int|
                from <= j < i ==> (#[trigger] workers[j]).1 != pid,
            None => forall|j: int| from <= j < workers.len() ==> (#[trigger] workers[j]).1 != pid,
        },
    decreases workers.len() - from,
{
    if from < workers.len() && workers[from].1 != pid {
        law_worker_that_ended(workers, pid, from + 1);
    }
}

/// A number of workers is remarked on where it is zero or no number; `auto` and no setting at all are
/// fine.
pub proof fn law_remarks_on_workers(s: String)
    ensures
        startup::note_on(None) is Fine,
        s@ == "auto"@ ==> startup::note_on(Some(s)) is Fine,
        s@ != "auto"@ ==> {
            let n = text::parse_unsigned(encode_utf8(s@), 10, usize::MAX as nat);
            &&& startup::note_on(Some(s)) is NotANumber <==> n is None
            &&& startup::note_on(Some(s)) is Zero <==> n == Some(0nat)
            &&& startup::note_on(Some(s)) is Fine <==> (n is Some && n->0 > 0)
        },
{
}

} // verus!
