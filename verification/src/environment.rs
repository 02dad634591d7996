//! Environment references in the text of a configuration file: `${NAME}` and `$NAME`.

use vstd::prelude::*;
use vstd::string::*;

use crate::header_util;
use crate::header_util::get_field;
use crate::text::str_eq;

verus! {

/// The characters that a name may begin with.
pub open spec fn name_start(c: char) -> bool {
    'a' <= c <= 'z' || 'A' <= c <= 'Z' || c == '_'
}

/// The characters that a name is made of.
pub open spec fn name_char(c: char) -> bool {
    name_start(c) || '0' <= c <= '9'
}

/// Number of name characters at the beginning of a text.
pub open spec fn name_len(s: Seq<char>) -> int
    decreases s.len(),
{
    if s.len() == 0 || !name_char(s[0]) {
        0
    } else {
        1 + name_len(s.drop_first())
    }
}

/// The reference at the beginning of a text: its name and its length. A name in braces has at
/// least one character, a bare one at least two.
pub open spec fn reference(s: Seq<char>) -> Option<(Seq<char>, int)> {
    if s.len() < 2 || s[0] != '$' {
        None
    } else if s[1] == '{' {
        let r = s.skip(2);
        let n = name_len(r);
        if 0 < n < r.len() && name_start(r[0]) && r[n] == '}' {
            Some((r.take(n), n + 3))
        } else {
            None
        }
    } else {
        let r = s.skip(1);
        let n = name_len(r);
        if n >= 2 && name_start(r[0]) {
            Some((r.take(n), n + 1))
        } else {
            None
        }
    }
}

/// What a reference stands for: the value of the variable, nothing where there is none. The name
/// `client_ip` belongs to the headers that the proxy sets, so that reference stays as written.
pub open spec fn referenced(
    written: Seq<char>,
    name: Seq<char>,
    env: Seq<(Seq<char>, Seq<char>)>,
) -> Seq<char> {
    if name == "client_ip"@ {
        written
    } else {
        match header_util::lookup(env, name) {
            Some(v) => v,
            None => seq![],
        }
    }
}

/// A text with its references replaced.
pub open spec fn expanded(s: Seq<char>, env: Seq<(Seq<char>, Seq<char>)>) -> Seq<char>
    decreases s.len(),
    via expanded_decreases
{
    if s.len() == 0 {
        seq![]
    } else {
        match reference(s) {
            Some((name, n)) => referenced(s.take(n), name, env) + expanded(s.skip(n), env),
            None => seq![s[0]] + expanded(s.skip(1), env),
        }
    }
}

#[via_fn]
proof fn expanded_decreases(s: Seq<char>, env: Seq<(Seq<char>, Seq<char>)>) {
    if s.len() > 2 {
        lemma_name_len(s.skip(2));
    }
    if s.len() > 1 {
        lemma_name_len(s.skip(1));
    }
}

proof fn lemma_name_len(s: Seq<char>)
    ensures
        0 <= name_len(s) <= s.len(),
    decreases s.len(),
{
    if s.len() > 0 && name_char(s[0]) {
        lemma_name_len(s.drop_first());
    }
}

fn is_name_start(c: char) -> (r: bool)
    ensures
        r == name_start(c),
{
    ('a' <= c && c <= 'z') || ('A' <= c && c <= 'Z') || c == '_'
}

/// Number of name characters from `from` on.
fn name_length(cs: &[char], from: usize) -> (r: usize)
    requires
        from <= cs@.len(),
    ensures
        r == name_len(cs@.skip(from as int)),
        from + r <= cs@.len(),
{
    let n: usize = cs.len();
    let mut i: usize = from;
    while i < n && (is_name_start(cs[i]) || ('0' <= cs[i] && cs[i] <= '9'))
        invariant
            from <= i <= n,
            n == cs@.len(),
            name_len(cs@.skip(from as int)) == (i - from) + name_len(cs@.skip(i as int)),
        decreases n - i,
    {
        assert(cs@.skip(i as int).drop_first() =~= cs@.skip(i + 1));
        i = i + 1;
    }
    i - from
}

/// The reference that begins at `i`: where its name begins and ends, and where it ends itself.
fn reference_at(cs: &[char], i: usize) -> (r: Option<(usize, usize, usize)>)
    requires
        i < cs@.len(),
    ensures
        match r {
            Some((a, b, e)) => {
                &&& i < a <= b <= e <= cs@.len()
                &&& reference(cs@.skip(i as int)) == Some((cs@.subrange(a as int, b as int), e - i))
            },
            None => reference(cs@.skip(i as int)) is None,
        },
{
    let n: usize = cs.len();
    let ghost s = cs@.skip(i as int);
    if n - i < 2 || cs[i] != '$' {
        return None;
    }
    assert(s[1] == cs@[i + 1]);
    if cs[i + 1] == '{' {
        assert(s.skip(2) =~= cs@.skip(i + 2));
        let k: usize = name_length(cs, i + 2);
        let b: usize = i + 2 + k;
        if k > 0 && b < n && is_name_start(cs[i + 2]) && cs[b] == '}' {
            assert(s.skip(2).take(k as int) =~= cs@.subrange(i + 2, b as int));
            Some((i + 2, b, b + 1))
        } else {
            None
        }
    } else {
        assert(s.skip(1) =~= cs@.skip(i + 1));
        let k: usize = name_length(cs, i + 1);
        let b: usize = i + 1 + k;
        if k >= 2 && is_name_start(cs[i + 1]) {
            assert(s.skip(1).take(k as int) =~= cs@.subrange(i + 1, b as int));
            Some((i + 1, b, b))
        } else {
            None
        }
    }
}

/// Replaces the environment references in the text of a configuration file.
pub fn expand_env(content: &str, env: &[(String, String)]) -> (r: String)
    ensures
        r@ == expanded(content@, header_util::pairs(env@)),
{
    let mut cs: Vec<char> = Vec::new();
    for c in it: content.chars()
        invariant
            it.seq() == content@,
            cs@ == content@.take(it.index() as int),
    {
        cs.push(c);
        assert(content@.take(it.index() + 1) =~= content@.take(it.index() as int).push(c));
    }
    assert(cs@ =~= content@);
    let ghost e = header_util::pairs(env@);
    let n: usize = cs.len();
    let mut out: String = String::new();
    let mut from: usize = 0;
    let mut i: usize = 0;
    proof {
        assert(content@.skip(0) =~= content@);
        assert(out@ + content@.subrange(0, 0) + expanded(content@, e) =~= expanded(content@, e));
    }
    while i < n
        invariant
            n == cs@.len(),
            cs@ == content@,
            from <= i <= n,
            e == header_util::pairs(env@),
            out@ + content@.subrange(from as int, i as int) + expanded(content@.skip(i as int), e)
                == expanded(content@, e),
        decreases n - i,
    {
        let ghost s = content@.skip(i as int);
        let ghost done = out@;
        let ghost kept = content@.subrange(from as int, i as int);
        match reference_at(cs.as_slice(), i) {
            Some((a, b, end)) => {
                out.append(content.substring_char(from, i));
                let name = content.substring_char(a, b);
                let ghost before = out@;
                if str_eq(name, "client_ip") {
                    out.append(content.substring_char(i, end));
                } else if let Some(v) = get_field(env, name) {
                    out.append(v);
                }
                proof {
                    assert(s.take(end - i) =~= content@.subrange(i as int, end as int));
                    assert(s.skip(end - i) =~= content@.skip(end as int));
                    assert(out@ =~= done + kept + referenced(s.take(end - i), name@, e));
                    assert(out@ + content@.subrange(end as int, end as int) + expanded(
                        content@.skip(end as int),
                        e,
                    ) =~= done + kept + expanded(s, e));
                }
                i = end;
                from = end;
            },
            None => {
                proof {
                    assert(s.skip(1) =~= content@.skip(i + 1));
                    assert(content@.subrange(from as int, i + 1) =~= kept.push(s[0]));
                    assert(done + content@.subrange(from as int, i + 1) + expanded(
                        content@.skip(i + 1),
                        e,
                    ) =~= done + kept + expanded(s, e));
                }
                i = i + 1;
            },
        }
    }
    let ghost done = out@;
    out.append(content.substring_char(from, n));
    proof {
        assert(content@.skip(n as int) =~= Seq::<char>::empty());
        assert(out@ =~= done + content@.subrange(from as int, n as int) + expanded(
            content@.skip(n as int),
            e,
        ));
    }
    out
}

/// A text without a dollar sign stays as it is.
pub proof fn law_plain_text_is_kept(s: Seq<char>, env: Seq<(Seq<char>, Seq<char>)>)
    requires
        !s.contains('$'),
    ensures
        expanded(s, env) == s,
    decreases s.len(),
{
    if s.len() > 0 {
        assert(s[0] != '$');
        let t = s.skip(1);
        assert(!t.contains('$')) by {
            if t.contains('$') {
                let k = choose|k: int| 0 <= k < t.len() && t[k] == '$';
                assert(s[k + 1] == '$');
            }
        }
        law_plain_text_is_kept(t, env);
        assert(seq![s[0]] + t =~= s);
    }
}

} // verus!
