//! Header and path-matching helpers: pure functions and small value types, without I/O and
//! without shared state.

use std::collections::HashMap;

use vstd::arithmetic::power2::*;
use vstd::prelude::*;
use vstd::string::*;
use vstd::utf8::*;

use crate::pattern;
use crate::pattern::Pattern;
use crate::text;
use crate::text::{
    bytes_eq, bytes_eq_ci, read_i64, rsplit_once, split_once, split_str, split_words, str_eq,
    str_eq_ci, strip_prefix, strip_suffix, trim_str,
};

verus! {

// ---------------------------------------------------------------------------
// Substring search
// ---------------------------------------------------------------------------

/// The first position from `i` on at which `n` stands in `h`.
pub open spec fn search(h: Seq<u8>, n: Seq<u8>, i: int) -> Option<int>
    decreases h.len() + 1 - i,
{
    if i < 0 || i + n.len() > h.len() {
        None
    } else if h.subrange(i, i + n.len()) == n {
        Some(i)
    } else {
        search(h, n, i + 1)
    }
}

/// The first position from `i` on at which `n` stands in `h` up to the case of ASCII letters.
pub open spec fn search_ci(h: Seq<u8>, n: Seq<u8>, i: int) -> Option<int>
    decreases h.len() + 1 - i,
{
    if i < 0 || i + n.len() > h.len() {
        None
    } else if text::eq_ci(h.subrange(i, i + n.len()), n) {
        Some(i)
    } else {
        search_ci(h, n, i + 1)
    }
}

/// What `search` finds is the first occurrence, and it finds one wherever there is one.
pub proof fn lemma_search(h: Seq<u8>, n: Seq<u8>, i: int)
    requires
        0 <= i,
    ensures
        match search(h, n, i) {
            Some(k) => {
                &&& i <= k <= h.len() - n.len()
                &&& h.subrange(k, k + n.len()) == n
                &&& forall|j: int|
                    i <= j < k ==> #[trigger] h.subrange(j, j + n.len()) != n
            },
            None => forall|j: int|
                i <= j <= h.len() - n.len() ==> #[trigger] h.subrange(j, j + n.len()) != n,
        },
    decreases h.len() + 1 - i,
{
    if i + n.len() <= h.len() && h.subrange(i, i + n.len()) != n {
        lemma_search(h, n, i + 1);
    }
}

/// What `search_ci` finds is the first occurrence, and it finds one wherever there is one.
pub proof fn lemma_search_ci(h: Seq<u8>, n: Seq<u8>, i: int)
    requires
        0 <= i,
    ensures
        match search_ci(h, n, i) {
            Some(k) => {
                &&& i <= k <= h.len() - n.len()
                &&& text::eq_ci(h.subrange(k, k + n.len()), n)
                &&& forall|j: int|
                    i <= j < k ==> !text::eq_ci(#[trigger] h.subrange(j, j + n.len()), n)
            },
            None => forall|j: int|
                i <= j <= h.len() - n.len() ==> !text::eq_ci(#[trigger] h.subrange(j, j + n.len()), n),
        },
    decreases h.len() + 1 - i,
{
    if i + n.len() <= h.len() && !text::eq_ci(h.subrange(i, i + n.len()), n) {
        lemma_search_ci(h, n, i + 1);
    }
}

/// The first position at which `needle` stands in `haystack`.
pub fn find_bytes(haystack: &[u8], needle: &[u8]) -> (r: Option<usize>)
    ensures
        match r {
            Some(k) => search(haystack@, needle@, 0) == Some(k as int) && k + needle@.len()
                <= haystack@.len(),
            None => search(haystack@, needle@, 0) is None,
        },
{
    if haystack.len() < needle.len() {
        return None;
    }
    let n: usize = haystack.len();
    let last: usize = n - needle.len();
    let mut i: usize = 0;
    loop
        invariant
            i <= last,
            last == haystack@.len() - needle@.len(),
            n == haystack@.len(),
            search(haystack@, needle@, 0) == search(haystack@, needle@, i as int),
        decreases last - i,
    {
        if bytes_eq(&haystack[i..i + needle.len()], needle) {
            return Some(i);
        }
        if i == last {
            assert(search(haystack@, needle@, last + 1) is None);
            return None;
        }
        i = i + 1;
    }
}

/// Case-insensitive substring search: the byte offset of the first match. The empty needle
/// stands at the beginning.
pub fn find_ci(haystack: &[u8], needle: &[u8]) -> (r: Option<usize>)
    ensures
        match r {
            Some(k) => search_ci(haystack@, needle@, 0) == Some(k as int) && k + needle@.len()
                <= haystack@.len(),
            None => search_ci(haystack@, needle@, 0) is None,
        },
{
    if haystack.len() < needle.len() {
        return None;
    }
    let n: usize = haystack.len();
    let last: usize = n - needle.len();
    let mut i: usize = 0;
    loop
        invariant
            i <= last,
            last == haystack@.len() - needle@.len(),
            n == haystack@.len(),
            search_ci(haystack@, needle@, 0) == search_ci(haystack@, needle@, i as int),
        decreases last - i,
    {
        if bytes_eq_ci(&haystack[i..i + needle.len()], needle) {
            return Some(i);
        }
        if i == last {
            assert(search_ci(haystack@, needle@, last + 1) is None);
            return None;
        }
        i = i + 1;
    }
}

/// Case-insensitive substring test over raw header bytes.
pub fn contains_ci(haystack: &[u8], needle: &[u8]) -> (r: bool)
    ensures
        r == (search_ci(haystack@, needle@, 0) is Some),
{
    find_ci(haystack, needle).is_some()
}

// ---------------------------------------------------------------------------
// Injected headers
// ---------------------------------------------------------------------------

/// One piece of a header value that the proxy re-emits: a static byte chunk, or the placeholder
/// `$client_ip`, rendered per connection.
#[derive(Clone)]
pub enum HeaderFragment {
    Text(Vec<u8>),
    ClientIp,
}

/// What a [`HeaderFragment`] holds.
pub enum Fragment {
    Text(Seq<u8>),
    ClientIp,
}

impl View for HeaderFragment {
    type V = Fragment;

    open spec fn view(&self) -> Fragment {
        match self {
            HeaderFragment::Text(t) => Fragment::Text(t@),
            HeaderFragment::ClientIp => Fragment::ClientIp,
        }
    }
}

/// What a sequence of fragments holds.
pub open spec fn fragments(v: Seq<HeaderFragment>) -> Seq<Fragment> {
    Seq::new(v.len(), |i: int| v[i]@)
}

/// The placeholder for the client address.
pub open spec fn client_ip_token() -> Seq<u8> {
    "$client_ip".spec_bytes()
}

proof fn lemma_client_ip_token()
    ensures
        client_ip_token().len() == 10,
{
    reveal_strlit("$client_ip");
    assert("$client_ip".is_ascii());
}

/// The fragments of one header line: `text` is what stands before `value` in the current chunk;
/// each placeholder ends a chunk, and the line end closes the last one.
pub open spec fn compile_value(text: Seq<u8>, value: Seq<u8>) -> Seq<Fragment>
    decreases value.len(),
    via compile_value_decreases
{
    match search(value, client_ip_token(), 0) {
        Some(k) => seq![Fragment::Text(text + value.take(k)), Fragment::ClientIp] + compile_value(
            seq![],
            value.skip(k + client_ip_token().len()),
        ),
        None => seq![Fragment::Text(text + value + "\r\n".spec_bytes())],
    }
}

#[via_fn]
proof fn compile_value_decreases(text: Seq<u8>, value: Seq<u8>) {
    lemma_client_ip_token();
    lemma_search(value, client_ip_token(), 0);
}

/// The fragments of one header.
pub open spec fn compile_entry(name: Seq<char>, value: Seq<char>) -> Seq<Fragment> {
    compile_value(encode_utf8(name) + ": ".spec_bytes(), encode_utf8(value))
}

/// The fragments of a list of headers, in the order of the list.
pub open spec fn compile_entries(entries: Seq<(String, String)>) -> Seq<Fragment>
    decreases entries.len(),
{
    if entries.len() == 0 {
        seq![]
    } else {
        compile_entries(entries.drop_last()) + compile_entry(
            entries.last().0@,
            entries.last().1@,
        )
    }
}

/// A list holds exactly the entries of a map, each key once.
pub open spec fn lists(entries: Seq<(String, String)>, m: Map<String, String>) -> bool {
    &&& forall|i: int|
        0 <= i < entries.len() ==> m.contains_pair((#[trigger] entries[i]).0, entries[i].1)
    &&& forall|i: int, j: int|
        0 <= i < j < entries.len() ==> (#[trigger] entries[i]).0 != (#[trigger] entries[j]).0
    &&& forall|k: String| #[trigger]
        m.contains_key(k) ==> exists|i: int| 0 <= i < entries.len() && (#[trigger] entries[i]).0 == k
}

/// `std::collections::HashMap::iter`: hands out every entry once, in an order of its own.
#[verifier::external_body]
fn map_entries(m: &HashMap<String, String>) -> (r: Vec<(String, String)>)
    ensures
        lists(r@, m@),
{
    m.iter().map(|(k, v)| (k.clone(), v.clone())).collect()
}

/// Appends the fragments of one header.
fn push_entry(frags: &mut Vec<HeaderFragment>, name: &str, value: &str)
    ensures
        fragments(final(frags)@) == fragments(old(frags)@) + compile_entry(name@, value@),
{
    let mut text: Vec<u8> = Vec::new();
    text.extend_from_slice(name.as_bytes());
    text.extend_from_slice(": ".as_bytes());
    let token = "$client_ip";
    let mut rest: &[u8] = value.as_bytes();
    proof {
        lemma_client_ip_token();
        assert(text@ =~= encode_utf8(name@) + ": ".spec_bytes());
        assert(fragments(old(frags)@) + compile_entry(name@, value@) =~= fragments(frags@)
            + compile_value(text@, rest@));
    }
    loop
        invariant
            fragments(frags@) + compile_value(text@, rest@) == fragments(old(frags)@)
                + compile_entry(name@, value@),
            token.spec_bytes() == client_ip_token(),
            client_ip_token().len() == 10,
        decreases rest@.len(),
    {
        let ghost before = frags@;
        match find_bytes(rest, token.as_bytes()) {
            Some(k) => {
                let ghost text0 = text@;
                let ghost rest0 = rest@;
                text.extend_from_slice(&rest[0..k]);
                let ghost chunk = text@;
                frags.push(HeaderFragment::Text(text));
                frags.push(HeaderFragment::ClientIp);
                text = Vec::new();
                let n: usize = rest.len();
                rest = &rest[k + token.as_bytes().len()..n];
                proof {
                    assert(chunk =~= text0 + rest0.take(k as int));
                    assert(rest@ =~= rest0.skip(k + client_ip_token().len()));
                    assert(text@ =~= Seq::<u8>::empty());
                    assert(fragments(frags@) =~= fragments(before) + seq![
                        Fragment::Text(chunk),
                        Fragment::ClientIp,
                    ]);
                    assert(fragments(before) + compile_value(text0, rest0) =~= fragments(frags@)
                        + compile_value(text@, rest@));
                }
            },
            None => {
                let ghost text0 = text@;
                text.extend_from_slice(rest);
                text.extend_from_slice("\r\n".as_bytes());
                let ghost chunk = text@;
                frags.push(HeaderFragment::Text(text));
                proof {
                    assert(chunk =~= text0 + rest@ + "\r\n".spec_bytes());
                    assert(fragments(frags@) =~= fragments(before) + seq![Fragment::Text(chunk)]);
                }
                return;
            },
        }
    }
}

/// Compiles a list of headers into fragments, keeping its order.
pub fn compile_header_list(entries: &[(String, String)]) -> (r: Vec<HeaderFragment>)
    ensures
        fragments(r@) == compile_entries(entries@),
{
    let mut frags: Vec<HeaderFragment> = Vec::new();
    assert(fragments(frags@) =~= Seq::<Fragment>::empty());
    for i in 0..entries.len()
        invariant
            fragments(frags@) == compile_entries(entries@.take(i as int)),
    {
        push_entry(&mut frags, entries[i].0.as_str(), entries[i].1.as_str());
        proof {
            assert(entries@.take(i + 1).drop_last() =~= entries@.take(i as int));
        }
    }
    assert(entries@.take(entries@.len() as int) =~= entries@);
    frags
}

/// Compiles a `set_headers` map into fragments. The headers come in the order in which the map
/// hands them out.
pub fn compile_headers(hm_opt: &Option<HashMap<String, String>>) -> (r: Vec<HeaderFragment>)
    ensures
        match hm_opt {
            Some(hm) => exists|entries: Seq<(String, String)>|
                #![trigger compile_entries(entries)]
                lists(entries, hm@) && fragments(r@) == compile_entries(entries),
            None => r@.len() == 0,
        },
{
    match hm_opt {
        Some(hm) => {
            let entries = map_entries(hm);
            compile_header_list(entries.as_slice())
        },
        None => Vec::new(),
    }
}

/// The names of a list of headers, as bytes.
pub open spec fn entry_names(entries: Seq<(String, String)>) -> Seq<Seq<u8>> {
    Seq::new(entries.len(), |i: int| encode_utf8(entries[i].0@))
}

/// The byte strings of a sequence of vectors.
pub open spec fn byte_strings(v: Seq<Vec<u8>>) -> Seq<Seq<u8>> {
    Seq::new(v.len(), |i: int| v[i]@)
}

/// The names of the headers that `set_headers` will inject, so that copies sent by the client
/// can be left out.
pub fn compile_header_names(hm_opt: &Option<HashMap<String, String>>) -> (r: Vec<Vec<u8>>)
    ensures
        match hm_opt {
            Some(hm) => exists|entries: Seq<(String, String)>|
                #![trigger entry_names(entries)]
                lists(entries, hm@) && byte_strings(r@) == entry_names(entries),
            None => r@.len() == 0,
        },
{
    let mut names: Vec<Vec<u8>> = Vec::new();
    match hm_opt {
        Some(hm) => {
            let entries = map_entries(hm);
            for i in 0..entries.len()
                invariant
                    byte_strings(names@) =~= entry_names(entries@.take(i as int)),
            {
                names.push(entries[i].0.as_str().as_bytes_vec());
                proof {
                    assert(entries@.take(i + 1).take(i as int) =~= entries@.take(i as int));
                    assert(entry_names(entries@.take(i + 1)) =~= entry_names(
                        entries@.take(i as int),
                    ).push(encode_utf8(entries@[i as int].0@)));
                    assert(byte_strings(names@) =~= byte_strings(names@.drop_last()).push(
                        names@.last()@,
                    ));
                }
            }
            proof {
                assert(entries@.take(entries@.len() as int) =~= entries@);
            }
            names
        },
        None => names,
    }
}

// ---------------------------------------------------------------------------
// Output buffer
// ---------------------------------------------------------------------------

/// The smallest power of two that is not below `n`.
pub open spec fn is_next_power_of_two(n: int, p: int) -> bool {
    exists|e: nat| #[trigger] pow2(e) == p && p >= n && (p == 1 || p < 2 * n)
}

/// The smallest power of two that is not below `n`.
fn next_power_of_two(n: usize) -> (p: usize)
    requires
        n <= usize::MAX / 2 + 1,
    ensures
        is_next_power_of_two(n as int, p as int),
        p >= n,
{
    let mut p: usize = 1;
    let ghost mut e: nat = 0;
    proof {
        lemma2_to64();
    }
    while p < n
        invariant
            p == pow2(e),
            p >= 1,
            p == 1 || p < 2 * n,
            n <= usize::MAX / 2 + 1,
        decreases 2 * n - p,
    {
        proof {
            lemma_pow2_unfold((e + 1) as nat);
            e = (e + 1) as nat;
        }
        p = p * 2;
    }
    assert(pow2(e) == p);
    p
}

/// Writes `bytes` into `x` at `*pos` and moves `*pos` behind them. A buffer that is too short
/// grows to the next power of two, filled with zeros: also before the bytes, where `*pos` stands
/// behind the old end.
pub fn buf_put(x: &mut Vec<u8>, pos: &mut usize, bytes: &[u8])
    requires
        *old(pos) + bytes@.len() <= usize::MAX / 2 + 1,
    ensures
        *final(pos) == *old(pos) + bytes@.len(),
        *final(pos) <= old(x)@.len() ==> final(x)@.len() == old(x)@.len(),
        *final(pos) > old(x)@.len() ==> is_next_power_of_two(
            *final(pos) as int,
            final(x)@.len() as int,
        ),
        *final(pos) <= final(x)@.len(),
        final(x)@.subrange(*old(pos) as int, *final(pos) as int) == bytes@,
        forall|i: int|
            0 <= i < old(x)@.len() && !(*old(pos) <= i < *final(pos)) ==> final(x)@[i]
                == old(x)@[i],
        forall|i: int|
            old(x)@.len() <= i < final(x)@.len() && !(*old(pos) <= i < *final(pos))
                ==> final(x)@[i] == 0,
{
    let end: usize = *pos + bytes.len();
    if end > x.len() {
        let p: usize = next_power_of_two(end);
        x.resize(p, 0);
        assert(x@.len() == p);
        assert forall|j: int| old(x)@.len() <= j < x@.len() implies x@[j] == 0 by {
            assert(cloned::<u8>(0, x@[j]));
        }
    }
    let start: usize = *pos;
    let ghost grown = x@;
    assert(end > old(x)@.len() ==> is_next_power_of_two(end as int, grown.len() as int));
    for i in 0..bytes.len()
        invariant
            end == start + bytes@.len(),
            end <= grown.len(),
            x@.len() == grown.len(),
            forall|j: int| 0 <= j < start ==> x@[j] == grown[j],
            forall|j: int| 0 <= j < i ==> x@[start + j] == bytes@[j],
            forall|j: int| start + i <= j < grown.len() ==> x@[j] == grown[j],
    {
        x[start + i] = bytes[i];
    }
    *pos = end;
    proof {
        assert forall|j: int| 0 <= j < bytes@.len() implies x@.subrange(
            start as int,
            end as int,
        )[j] == bytes@[j] by {
            assert(x@[start + j] == bytes@[j]);
        }
        assert(x@.subrange(start as int, end as int) =~= bytes@);
        assert forall|i: int| 0 <= i < old(x)@.len() && !(start <= i < end) implies x@[i]
            == old(x)@[i] by {
            assert(x@[i] == grown[i]);
        }
        assert forall|i: int| old(x)@.len() <= i < x@.len() && !(start <= i < end) implies x@[i]
            == 0 by {
            assert(x@[i] == grown[i]);
        }
    }
}

// ---------------------------------------------------------------------------
// Tokens
// ---------------------------------------------------------------------------

/// The part of a comma-separated value behind its last comma.
pub open spec fn last_token(value: Seq<char>) -> Seq<char> {
    value.skip(text::rfind(value, ',') + 1)
}

/// Whether the last transfer coding of a `Transfer-Encoding` value is `chunked`.
pub open spec fn chunked_last(value: Seq<char>) -> bool {
    text::eq_ci(encode_utf8(text::trim(last_token(value))), "chunked".spec_bytes())
}

/// RFC 7230: `chunked` is valid only as the final transfer coding, so only the last token of the
/// value counts.
pub fn te_is_chunked(value: &str) -> (r: bool)
    ensures
        r == chunked_last(value@),
{
    let last = match rsplit_once(value, ',') {
        Some((_, b)) => b,
        None => {
            assert(value@.skip(0) =~= value@);
            value
        },
    };
    str_eq_ci(trim_str(last), "chunked")
}

/// The bytes that have a meaning in a regular expression.
pub open spec fn is_regex_meta(b: u8) -> bool {
    b == 0x2e || b == 0x5e || b == 0x24 || b == 0x2a || b == 0x2b || b == 0x3f || b == 0x28 || b
        == 0x29 || b == 0x5b || b == 0x5d || b == 0x7b || b == 0x7d || b == 0x7c || b == 0x5c
}

/// A non-empty pattern without a byte that has a meaning in a regular expression.
pub open spec fn plain_literal(pat: Seq<u8>) -> bool {
    pat.len() > 0 && forall|i: int| 0 <= i < pat.len() ==> !is_regex_meta(#[trigger] pat[i])
}

/// Whether `pat` can be compared as a plain string instead of by the regex engine.
pub fn is_plain_literal(pat: &str) -> (r: bool)
    ensures
        r == plain_literal(pat.spec_bytes()),
{
    let b = pat.as_bytes();
    if b.len() == 0 {
        return false;
    }
    for i in 0..b.len()
        invariant
            b@ == pat.spec_bytes(),
            forall|j: int| 0 <= j < i ==> !is_regex_meta(#[trigger] b@[j]),
    {
        let c: u8 = b[i];
        if c == 0x2e || c == 0x5e || c == 0x24 || c == 0x2a || c == 0x2b || c == 0x3f || c == 0x28
            || c == 0x29 || c == 0x5b || c == 0x5d || c == 0x7b || c == 0x7d || c == 0x7c || c
            == 0x5c {
            return false;
        }
    }
    true
}

/// Whether a text consists of decimal digits.
pub open spec fn all_digits(s: Seq<char>) -> bool {
    forall|i: int| 0 <= i < s.len() ==> '0' <= #[trigger] s[i] <= '9'
}

/// A `Host` value without its port: what stands before the last colon, where a non-empty run of
/// digits follows it.
pub open spec fn without_port(h: Seq<char>) -> Seq<char> {
    let k = text::rfind(h, ':');
    if k >= 0 && h.skip(k + 1).len() > 0 && all_digits(h.skip(k + 1)) {
        h.take(k)
    } else {
        h
    }
}

/// Whether a string consists of decimal digits.
pub fn is_all_digits(s: &str) -> (r: bool)
    ensures
        r == all_digits(s@),
{
    for c in it: s.chars()
        invariant
            it.seq() == s@,
            forall|j: int| 0 <= j < it.index() ==> '0' <= #[trigger] s@[j] <= '9',
    {
        if !('0' <= c && c <= '9') {
            return false;
        }
    }
    true
}

/// Strips a trailing `:port` from a `Host` value, so that domains match whatever the port. The
/// address of a bracketed IPv6 literal stays whole.
pub fn host_without_port<'a>(h: &'a str) -> (r: &'a str)
    ensures
        r@ == without_port(h@),
{
    match rsplit_once(h, ':') {
        Some((host, port)) => if !port.is_empty() && is_all_digits(port) {
            host
        } else {
            h
        },
        None => h,
    }
}

// ---------------------------------------------------------------------------
// Matchers
// ---------------------------------------------------------------------------

/// A compiled `match` pattern of the configuration. A pattern without regex syntax is compared as
/// a plain string: whole for domains and validate values, as a prefix for routes. A pattern with
/// regex syntax goes to the engine, unanchored.
pub enum Matcher {
    Exact(String),
    Prefix(String),
    Re(Pattern),
}

impl Matcher {
    /// The text of the pattern.
    pub open spec fn source(self) -> Seq<char> {
        match self {
            Matcher::Exact(s) => s@,
            Matcher::Prefix(s) => s@,
            Matcher::Re(p) => p@,
        }
    }

    /// Whether a text matches.
    pub open spec fn matches(self, hay: Seq<char>) -> bool {
        match self {
            Matcher::Exact(s) => hay == s@,
            Matcher::Prefix(s) => s@.is_prefix_of(hay),
            Matcher::Re(p) => pattern::regex_matches(p@, hay),
        }
    }

    /// Domains and validate values: a literal means equality.
    pub fn exact_or_re(re: &Pattern) -> (r: Self)
        ensures
            r.source() == re@,
            plain_literal(encode_utf8(re@)) ==> r is Exact,
            !plain_literal(encode_utf8(re@)) ==> r is Re,
    {
        let pat = re.as_str();
        if is_plain_literal(pat) {
            Matcher::Exact(pat.to_owned())
        } else {
            Matcher::Re(re.duplicate())
        }
    }

    /// Routes: a literal means a path prefix.
    pub fn prefix_or_re(re: &Pattern) -> (r: Self)
        ensures
            r.source() == re@,
            plain_literal(encode_utf8(re@)) ==> r is Prefix,
            !plain_literal(encode_utf8(re@)) ==> r is Re,
    {
        let pat = re.as_str();
        if is_plain_literal(pat) {
            Matcher::Prefix(pat.to_owned())
        } else {
            Matcher::Re(re.duplicate())
        }
    }

    /// Whether `hay` matches.
    pub fn is_match(&self, hay: &str) -> (r: bool)
        ensures
            r == self.matches(hay@),
    {
        match self {
            Matcher::Exact(s) => str_eq(hay, s.as_str()),
            Matcher::Prefix(s) => strip_prefix(hay, s.as_str()).is_some(),
            Matcher::Re(re) => re.is_match(hay),
        }
    }

    /// Length of the pattern's text in bytes: the more specific of two matching domains has the
    /// longer one.
    pub fn pat_len(&self) -> (r: usize)
        ensures
            r == encode_utf8(self.source()).len(),
    {
        match self {
            Matcher::Exact(s) => s.as_str().as_bytes().len(),
            Matcher::Prefix(s) => s.as_str().as_bytes().len(),
            Matcher::Re(re) => re.as_str().as_bytes().len(),
        }
    }
}

// ---------------------------------------------------------------------------
// Field conditions
// ---------------------------------------------------------------------------

/// The texts of a list of fields.
pub open spec fn pairs(fields: Seq<(String, String)>) -> Seq<(Seq<char>, Seq<char>)> {
    Seq::new(fields.len(), |i: int| (fields[i].0@, fields[i].1@))
}

/// The value of the first field with the given key.
pub open spec fn lookup(fields: Seq<(Seq<char>, Seq<char>)>, key: Seq<char>) -> Option<Seq<char>>
    decreases fields.len(),
{
    if fields.len() == 0 {
        None
    } else if fields[0].0 == key {
        Some(fields[0].1)
    } else {
        lookup(fields.drop_first(), key)
    }
}

/// Whether a value meets one alternative: `int`, `enum(a,b)`, `str` (not empty), or the value
/// itself.
pub open spec fn alternative_holds(e: Seq<char>, actual: Seq<char>) -> bool {
    if e == "int"@ {
        text::parse_signed(encode_utf8(actual), i64::MAX as nat) is Some
    } else if "enum("@.is_prefix_of(e) && ")"@.is_suffix_of(e.skip("enum("@.len() as int)) {
        let inner = e.skip("enum("@.len() as int);
        text::split(inner.take(inner.len() - ")"@.len()), ',').contains(actual)
    } else {
        e == actual || (e == "str"@ && actual.len() > 0)
    }
}

/// Whether one condition holds: `!key` (no such field), `key=a|b` (one of the alternatives, an
/// absent field counting as empty), `key` (such a field).
pub open spec fn condition_holds(c: Seq<char>, fields: Seq<(Seq<char>, Seq<char>)>) -> bool {
    if c.len() > 0 && c[0] == '!' {
        lookup(fields, c.skip(1)) is None
    } else if text::find(c, '=') < c.len() {
        let k = text::find(c, '=');
        let actual = match lookup(fields, c.take(k)) {
            Some(v) => v,
            None => seq![],
        };
        exists|i: int|
            0 <= i < text::split(c.skip(k + 1), '|').len() && alternative_holds(
                #[trigger] text::split(c.skip(k + 1), '|')[i],
                actual,
            )
    } else {
        lookup(fields, c) is Some
    }
}

/// Whether every condition of a whitespace-separated list holds.
pub open spec fn conditions_hold(conds: Seq<char>, fields: Seq<(Seq<char>, Seq<char>)>) -> bool {
    forall|i: int|
        0 <= i < text::words(conds).len() ==> condition_holds(
            #[trigger] text::words(conds)[i],
            fields,
        )
}

/// The value of the first field with the given key.
pub fn get_field<'a>(fields: &'a [(String, String)], key: &str) -> (r: Option<&'a str>)
    ensures
        match r {
            Some(v) => lookup(pairs(fields@), key@) == Some(v@),
            None => lookup(pairs(fields@), key@) is None,
        },
{
    proof {
        assert(pairs(fields@).skip(0) =~= pairs(fields@));
    }
    for i in 0..fields.len()
        invariant
            lookup(pairs(fields@), key@) == lookup(pairs(fields@).skip(i as int), key@),
    {
        proof {
            assert(pairs(fields@).skip(i as int)[0] == pairs(fields@)[i as int]);
            assert(pairs(fields@).skip(i as int).drop_first() =~= pairs(fields@).skip(i + 1));
        }
        if str_eq(fields[i].0.as_str(), key) {
            return Some(fields[i].1.as_str());
        }
    }
    None
}

#[verifier::loop_isolation(false)]
fn meets_alternative(e: &str, actual: &str) -> (r: bool)
    ensures
        r == alternative_holds(e@, actual@),
{
    if str_eq(e, "int") {
        return read_i64(actual.as_bytes()).is_some();
    }
    match strip_prefix(e, "enum(") {
        Some(rest) => match strip_suffix(rest, ")") {
            Some(inner) => {
                let parts = split_str(inner, ',');
                for i in 0..parts.len()
                    invariant
                        text::views(parts@) == text::split(inner@, ','),
                        forall|j: int| 0 <= j < i ==> text::views(parts@)[j] != actual@,
                {
                    if str_eq(parts[i], actual) {
                        proof {
                            assert(text::views(parts@)[i as int] == actual@);
                            assert(text::split(inner@, ',').contains(actual@));
                        }
                        return true;
                    }
                }
                assert(!text::split(inner@, ',').contains(actual@)) by {
                    if text::split(inner@, ',').contains(actual@) {
                        let j = choose|j: int|
                            0 <= j < text::split(inner@, ',').len() && text::split(inner@, ',')[j]
                                == actual@;
                        assert(text::views(parts@)[j] == actual@);
                    }
                }
                return false;
            },
            None => {},
        },
        None => {},
    }
    str_eq(e, actual) || (str_eq(e, "str") && !actual.is_empty())
}

#[verifier::loop_isolation(false)]
fn meets_condition(c: &str, fields: &[(String, String)]) -> (r: bool)
    ensures
        r == condition_holds(c@, pairs(fields@)),
{
    proof {
        reveal_strlit("!");
        text::lemma_find(c@, '=');
    }
    match strip_prefix(c, "!") {
        Some(key) => {
            assert("!"@ =~= seq!['!']);
            assert(c@[0] == "!"@[0]);
            return get_field(fields, key).is_none();
        },
        None => {
            assert(!(c@.len() > 0 && c@[0] == '!')) by {
                if c@.len() > 0 && c@[0] == '!' {
                    assert("!"@ =~= c@.subrange(0, 1));
                    assert("!"@.is_prefix_of(c@));
                }
            }
        },
    }
    match split_once(c, '=') {
        Some((key, expected)) => {
            let actual = match get_field(fields, key) {
                Some(v) => v,
                None => {
                    let empty = "";
                    proof {
                        reveal_strlit("");
                        assert(empty@ =~= Seq::<char>::empty());
                    }
                    empty
                },
            };
            let parts = split_str(expected, '|');
            for i in 0..parts.len()
                invariant
                    text::views(parts@) == text::split(expected@, '|'),
                    forall|j: int|
                        0 <= j < i ==> !alternative_holds(
                            #[trigger] text::split(expected@, '|')[j],
                            actual@,
                        ),
            {
                assert(text::views(parts@)[i as int] == parts@[i as int]@);
                if meets_alternative(parts[i], actual) {
                    proof {
                        let k = text::find(c@, '=');
                        assert(alternative_holds(text::split(c@.skip(k + 1), '|')[i as int], actual@));
                    }
                    return true;
                }
            }
            false
        },
        None => get_field(fields, c).is_some(),
    }
}

/// Evaluates `key=val|int|enum(a,b)` / `!key` / `key` conditions against a list of fields, the
/// first of several fields with one key counting. Shared by query and POST-body filtering.
pub fn eval_field_conditions(conds: &str, fields: &[(String, String)]) -> (r: bool)
    ensures
        r == conditions_hold(conds@, pairs(fields@)),
{
    let cs = split_words(conds);
    for i in 0..cs.len()
        invariant
            text::views(cs@) == text::words(conds@),
            forall|j: int|
                0 <= j < i ==> condition_holds(#[trigger] text::words(conds@)[j], pairs(fields@)),
    {
        assert(text::views(cs@)[i as int] == cs@[i as int]@);
        if !meets_condition(cs[i], fields) {
            assert(!condition_holds(text::words(conds@)[i as int], pairs(fields@)));
            return false;
        }
    }
    true
}

} // verus!
