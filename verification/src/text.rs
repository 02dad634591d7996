//! Text primitives over `&str` and byte slices.
//!
//! String slices are modelled by their character sequences (`s@`). Header names,
//! header values and numbers are modelled by bytes (`s.spec_bytes()` for a `&str`).

use vstd::prelude::*;
use vstd::string::*;
use vstd::utf8::*;

verus! {

// ---------------------------------------------------------------------------
// Characters
// ---------------------------------------------------------------------------

/// The characters with the Unicode property `White_Space`.
pub open spec fn is_whitespace(c: char) -> bool {
    ||| '\u{9}' <= c <= '\u{d}'
    ||| c == '\u{20}'
    ||| c == '\u{85}'
    ||| c == '\u{a0}'
    ||| c == '\u{1680}'
    ||| '\u{2000}' <= c <= '\u{200a}'
    ||| c == '\u{2028}'
    ||| c == '\u{2029}'
    ||| c == '\u{202f}'
    ||| c == '\u{205f}'
    ||| c == '\u{3000}'
}

/// Whether `c` is a whitespace character.
pub fn char_is_whitespace(c: char) -> (r: bool)
    ensures
        r == is_whitespace(c),
{
    let n: u32 = c as u32;
    (9 <= n && n <= 13) || n == 0x20 || n == 0x85 || n == 0xa0 || n == 0x1680 || (0x2000 <= n && n
        <= 0x200a) || n == 0x2028 || n == 0x2029 || n == 0x202f || n == 0x205f || n == 0x3000
}

/// Index of the first `c` in `s`, or `s.len()` when there is none.
pub open spec fn find<T>(s: Seq<T>, c: T) -> int
    decreases s.len(),
{
    if s.len() == 0 || s[0] == c {
        0
    } else {
        1 + find(s.drop_first(), c)
    }
}

/// What `find` returns is the first position at which `c` stands.
pub proof fn lemma_find<T>(s: Seq<T>, c: T)
    ensures
        0 <= find(s, c) <= s.len(),
        find(s, c) < s.len() ==> s[find(s, c)] == c,
        forall|i: int| 0 <= i < find(s, c) ==> s[i] != c,
        find(s, c) < s.len() <==> s.contains(c),
    decreases s.len(),
{
    if s.len() == 0 || s[0] == c {
    } else {
        let t = s.drop_first();
        lemma_find(t, c);
        assert forall|i: int| 0 <= i < find(s, c) implies s[i] != c by {
            if i > 0 {
                assert(s[i] == t[i - 1]);
            }
        }
        if s.contains(c) {
            let k = choose|k: int| 0 <= k < s.len() && s[k] == c;
            assert(t[k - 1] == c);
            assert(t.contains(c));
        }
        if find(s, c) < s.len() {
            assert(s[find(s, c)] == t[find(t, c)]);
        }
    }
}

/// A position before which `c` does not stand, and at which it does (or which is the end),
/// is what `find` returns.
pub proof fn lemma_find_is<T>(s: Seq<T>, c: T, k: int)
    requires
        0 <= k <= s.len(),
        forall|i: int| 0 <= i < k ==> s[i] != c,
        k < s.len() ==> s[k] == c,
    ensures
        find(s, c) == k,
{
    lemma_find(s, c);
}

/// Index of the first `c` in `s`, counted in characters.
fn find_char(s: &str, c: char) -> (r: Option<usize>)
    ensures
        match r {
            Some(k) => k == find(s@, c) && k < s@.len(),
            None => find(s@, c) == s@.len(),
        },
{
    let n: usize = s.unicode_len();
    let mut i: usize = 0;
    for x in it: s.chars()
        invariant
            i == it.index(),
            it.seq() == s@,
            forall|j: int| 0 <= j < i ==> s@[j] != c,
            s@.len() == n,
    {
        if x == c {
            proof {
                lemma_find_is(s@, c, i as int);
            }
            return Some(i);
        }
        i = i + 1;
    }
    proof {
        lemma_find_is(s@, c, s@.len() as int);
    }
    None
}

/// The parts of `s` between the occurrences of `c`; one part when there is none.
pub open spec fn split<T>(s: Seq<T>, c: T) -> Seq<Seq<T>>
    decreases s.len(),
{
    let k = find(s, c);
    if 0 <= k < s.len() {
        seq![s.take(k)] + split(s.skip(k + 1), c)
    } else {
        seq![s]
    }
}

/// The character sequences of a sequence of string slices.
pub open spec fn views(v: Seq<&str>) -> Seq<Seq<char>> {
    Seq::new(v.len(), |i: int| v[i]@)
}

/// The character sequences of a sequence of strings.
pub open spec fn texts(v: Seq<String>) -> Seq<Seq<char>> {
    Seq::new(v.len(), |i: int| v[i]@)
}

/// Splits `s` at the first `c`, which belongs to neither part.
pub fn split_once<'a>(s: &'a str, c: char) -> (r: Option<(&'a str, &'a str)>)
    ensures
        match r {
            Some((a, b)) => {
                &&& find(s@, c) < s@.len()
                &&& a@ == s@.take(find(s@, c))
                &&& b@ == s@.skip(find(s@, c) + 1)
            },
            None => find(s@, c) == s@.len(),
        },
{
    match find_char(s, c) {
        Some(k) => {
            let n: usize = s.unicode_len();
            Some((s.substring_char(0, k), s.substring_char(k + 1, n)))
        },
        None => None,
    }
}

/// All parts of `s` between the occurrences of `c`.
pub fn split_str<'a>(s: &'a str, c: char) -> (r: Vec<&'a str>)
    ensures
        views(r@) == split(s@, c),
        r@.len() > 0,
{
    let mut out: Vec<&'a str> = Vec::new();
    let mut rest: &'a str = s;
    proof {
        assert(views(out@) + split(rest@, c) =~= split(s@, c));
    }
    loop
        invariant_except_break
            views(out@) + split(rest@, c) == split(s@, c),
        ensures
            views(out@) == split(s@, c),
            out@.len() > 0,
        decreases rest@.len(),
    {
        let ghost before = out@;
        proof {
            lemma_find(rest@, c);
        }
        match split_once(rest, c) {
            Some((a, b)) => {
                proof {
                    assert(split(rest@, c) =~= seq![a@] + split(b@, c));
                }
                out.push(a);
                rest = b;
                proof {
                    assert(views(out@) =~= views(before) + seq![a@]);
                    assert(views(out@) + split(b@, c) =~= split(s@, c));
                }
            },
            None => {
                out.push(rest);
                proof {
                    assert(views(out@) =~= views(before) + seq![rest@]);
                }
                break;
            },
        }
    }
    out
}

/// Index of the last `c` in `s`, or -1 when there is none.
pub open spec fn rfind<T>(s: Seq<T>, c: T) -> int
    decreases s.len(),
{
    if s.len() == 0 {
        -1
    } else if s.last() == c {
        s.len() - 1
    } else {
        rfind(s.drop_last(), c)
    }
}

/// What `rfind` returns is the last position at which `c` stands.
pub proof fn lemma_rfind<T>(s: Seq<T>, c: T)
    ensures
        -1 <= rfind(s, c) < s.len(),
        rfind(s, c) >= 0 ==> s[rfind(s, c)] == c,
        forall|i: int| rfind(s, c) < i < s.len() ==> s[i] != c,
    decreases s.len(),
{
    if s.len() == 0 || s.last() == c {
    } else {
        let t = s.drop_last();
        lemma_rfind(t, c);
        assert forall|i: int| rfind(s, c) < i < s.len() implies s[i] != c by {
            if i < t.len() {
                assert(s[i] == t[i]);
            }
        }
        if rfind(t, c) >= 0 {
            assert(s[rfind(t, c)] == t[rfind(t, c)]);
        }
    }
}

/// Splits `s` at the last `c`, which belongs to neither part.
pub fn rsplit_once<'a>(s: &'a str, c: char) -> (r: Option<(&'a str, &'a str)>)
    ensures
        match r {
            Some((a, b)) => {
                &&& 0 <= rfind(s@, c) < s@.len()
                &&& a@ == s@.take(rfind(s@, c))
                &&& b@ == s@.skip(rfind(s@, c) + 1)
            },
            None => rfind(s@, c) == -1,
        },
{
    let n: usize = s.unicode_len();
    let mut i: usize = 0;
    let mut at: Option<usize> = None;
    for x in it: s.chars()
        invariant
            i == it.index(),
            it.seq() == s@,
            s@.len() == n,
            match at {
                Some(k) => k < i && s@[k as int] == c && forall|j: int| k < j < i ==> s@[j] != c,
                None => forall|j: int| 0 <= j < i ==> s@[j] != c,
            },
    {
        if x == c {
            at = Some(i);
        }
        i = i + 1;
    }
    proof {
        lemma_rfind(s@, c);
    }
    match at {
        Some(k) => Some((s.substring_char(0, k), s.substring_char(k + 1, n))),
        None => None,
    }
}

/// `s` without its leading whitespace.
pub open spec fn trim_start(s: Seq<char>) -> Seq<char>
    decreases s.len(),
{
    if s.len() > 0 && is_whitespace(s[0]) {
        trim_start(s.drop_first())
    } else {
        s
    }
}

/// `s` without its trailing whitespace.
pub open spec fn trim_end(s: Seq<char>) -> Seq<char>
    decreases s.len(),
{
    if s.len() > 0 && is_whitespace(s.last()) {
        trim_end(s.drop_last())
    } else {
        s
    }
}

/// `s` without its leading and trailing whitespace.
pub open spec fn trim(s: Seq<char>) -> Seq<char> {
    trim_end(trim_start(s))
}

proof fn lemma_trim_start_is(s: Seq<char>, k: int)
    requires
        0 <= k <= s.len(),
        forall|i: int| 0 <= i < k ==> is_whitespace(s[i]),
        k < s.len() ==> !is_whitespace(s[k]),
    ensures
        trim_start(s) == s.skip(k),
    decreases k,
{
    if k == 0 {
        assert(s.skip(0) =~= s);
    } else {
        let t = s.drop_first();
        assert(is_whitespace(s[0]));
        assert forall|i: int| 0 <= i < k - 1 implies is_whitespace(t[i]) by {
            assert(t[i] == s[i + 1]);
        }
        lemma_trim_start_is(t, k - 1);
        assert(t.skip(k - 1) =~= s.skip(k));
    }
}

proof fn lemma_trim_end_is(s: Seq<char>, k: int)
    requires
        0 <= k <= s.len(),
        forall|i: int| k <= i < s.len() ==> is_whitespace(s[i]),
        k > 0 ==> !is_whitespace(s[k - 1]),
    ensures
        trim_end(s) == s.take(k),
    decreases s.len() - k,
{
    if k == s.len() {
        assert(s.take(k) =~= s);
    } else {
        assert(is_whitespace(s[s.len() - 1]));
        lemma_trim_end_is(s.drop_last(), k);
        assert(s.drop_last().take(k) =~= s.take(k));
    }
}

/// `s` without its leading and trailing whitespace.
pub fn trim_str<'a>(s: &'a str) -> (r: &'a str)
    ensures
        r@ == trim(s@),
{
    let n: usize = s.unicode_len();
    let mut i: usize = 0;
    let mut start: usize = 0;
    let mut end: usize = 0;
    for x in it: s.chars()
        invariant
            i == it.index(),
            it.seq() == s@,
            s@.len() == n,
            start <= end <= i,
            forall|j: int| 0 <= j < start ==> is_whitespace(s@[j]),
            forall|j: int| end <= j < i ==> is_whitespace(s@[j]),
            end == 0 ==> start == 0,
            end > 0 ==> start < end && !is_whitespace(s@[start as int]) && !is_whitespace(
                s@[end - 1],
            ),
    {
        if !char_is_whitespace(x) {
            if end == 0 {
                start = i;
            }
            end = i + 1;
        }
        i = i + 1;
    }
    proof {
        if end == 0 {
            lemma_trim_start_is(s@, s@.len() as int);
            assert(s@.skip(s@.len() as int) =~= Seq::<char>::empty());
            assert(s@.subrange(0, 0) =~= Seq::<char>::empty());
        } else {
            lemma_trim_start_is(s@, start as int);
            let t = s@.skip(start as int);
            assert forall|j: int| end - start <= j < t.len() implies is_whitespace(t[j]) by {
                assert(t[j] == s@[j + start]);
            }
            lemma_trim_end_is(t, end - start);
            assert(t.take(end - start) =~= s@.subrange(start as int, end as int));
        }
    }
    s.substring_char(start, end)
}

/// Number of characters of `s` before its first whitespace character.
pub open spec fn word_len(s: Seq<char>) -> int
    decreases s.len(),
{
    if s.len() == 0 || is_whitespace(s[0]) {
        0
    } else {
        1 + word_len(s.drop_first())
    }
}

proof fn lemma_word_len_is(s: Seq<char>, k: int)
    requires
        0 <= k <= s.len(),
        forall|i: int| 0 <= i < k ==> !is_whitespace(s[i]),
        k < s.len() ==> is_whitespace(s[k]),
    ensures
        word_len(s) == k,
    decreases k,
{
    if k > 0 {
        let t = s.drop_first();
        assert(!is_whitespace(s[0]));
        assert forall|i: int| 0 <= i < k - 1 implies !is_whitespace(t[i]) by {
            assert(t[i] == s[i + 1]);
        }
        lemma_word_len_is(t, k - 1);
    }
}

proof fn lemma_word_len(s: Seq<char>)
    ensures
        0 <= word_len(s) <= s.len(),
    decreases s.len(),
{
    if s.len() > 0 && !is_whitespace(s[0]) {
        lemma_word_len(s.drop_first());
    }
}

proof fn lemma_trim_start(s: Seq<char>)
    ensures
        trim_start(s).len() <= s.len(),
        trim_start(s).len() > 0 ==> !is_whitespace(trim_start(s)[0]),
    decreases s.len(),
{
    if s.len() > 0 && is_whitespace(s[0]) {
        lemma_trim_start(s.drop_first());
    }
}

/// The maximal runs of non-whitespace characters of `s`, in order.
pub open spec fn words(s: Seq<char>) -> Seq<Seq<char>>
    decreases s.len(),
    via words_decreases
{
    let t = trim_start(s);
    if t.len() == 0 {
        seq![]
    } else {
        seq![t.take(word_len(t))] + words(t.skip(word_len(t)))
    }
}

#[via_fn]
proof fn words_decreases(s: Seq<char>) {
    lemma_trim_start(s);
    let t = trim_start(s);
    if t.len() > 0 {
        lemma_word_len(t);
        lemma_word_len(t.drop_first());
    }
}

/// Number of leading whitespace characters of `s`, counted in characters.
fn leading_whitespace(s: &str) -> (k: usize)
    ensures
        k <= s@.len(),
        trim_start(s@) == s@.skip(k as int),
        k < s@.len() ==> !is_whitespace(s@[k as int]),
{
    let n: usize = s.unicode_len();
    let mut i: usize = 0;
    for x in it: s.chars()
        invariant
            i == it.index(),
            it.seq() == s@,
            s@.len() == n,
            forall|j: int| 0 <= j < i ==> is_whitespace(s@[j]),
    {
        if !char_is_whitespace(x) {
            proof {
                lemma_trim_start_is(s@, i as int);
            }
            return i;
        }
        i = i + 1;
    }
    proof {
        lemma_trim_start_is(s@, i as int);
    }
    i
}

/// Number of characters of `s` before its first whitespace character.
fn word_length(s: &str) -> (k: usize)
    ensures
        k == word_len(s@),
        k <= s@.len(),
{
    let n: usize = s.unicode_len();
    let mut i: usize = 0;
    for x in it: s.chars()
        invariant
            i == it.index(),
            it.seq() == s@,
            s@.len() == n,
            forall|j: int| 0 <= j < i ==> !is_whitespace(s@[j]),
    {
        if char_is_whitespace(x) {
            proof {
                lemma_word_len_is(s@, i as int);
            }
            return i;
        }
        i = i + 1;
    }
    proof {
        lemma_word_len_is(s@, i as int);
    }
    i
}

/// The maximal runs of non-whitespace characters of `s`, in order.
pub fn split_words<'a>(s: &'a str) -> (r: Vec<&'a str>)
    ensures
        views(r@) == words(s@),
{
    let mut out: Vec<&'a str> = Vec::new();
    let mut rest: &'a str = s;
    proof {
        assert(views(out@) + words(rest@) =~= words(s@));
    }
    loop
        invariant
            views(out@) + words(rest@) == words(s@),
        ensures
            views(out@) == words(s@),
        decreases rest@.len(),
    {
        let ghost before = out@;
        let n: usize = rest.unicode_len();
        let k: usize = leading_whitespace(rest);
        if k == n {
            proof {
                assert(words(rest@) =~= Seq::<Seq<char>>::empty());
                assert(views(out@) =~= words(s@));
            }
            break;
        }
        let t = rest.substring_char(k, n);
        proof {
            assert(t@ =~= trim_start(rest@));
            lemma_word_len(t@.drop_first());
        }
        let w: usize = word_length(t);
        let m: usize = t.unicode_len();
        let word = t.substring_char(0, w);
        let tail = t.substring_char(w, m);
        proof {
            assert(word@ =~= t@.take(word_len(t@)));
            assert(tail@ =~= t@.skip(word_len(t@)));
        }
        out.push(word);
        rest = tail;
        proof {
            assert(views(out@) =~= views(before) + seq![word@]);
            assert(views(out@) + words(rest@) =~= words(s@));
        }
    }
    out
}

// ---------------------------------------------------------------------------
// Comparison
// ---------------------------------------------------------------------------

/// Two texts with the same encoding are the same text.
pub proof fn lemma_same_bytes(a: Seq<char>, b: Seq<char>)
    ensures
        encode_utf8(a) == encode_utf8(b) <==> a == b,
{
    encode_utf8_decode_utf8(a);
    encode_utf8_decode_utf8(b);
}

/// Whether two byte slices hold the same bytes.
pub fn bytes_eq(a: &[u8], b: &[u8]) -> (r: bool)
    ensures
        r == (a@ == b@),
{
    if a.len() != b.len() {
        return false;
    }
    for i in 0..a.len()
        invariant
            a@.len() == b@.len(),
            forall|j: int| 0 <= j < i ==> a@[j] == b@[j],
    {
        if a[i] != b[i] {
            return false;
        }
    }
    assert(a@ =~= b@);
    true
}

/// Whether two string slices hold the same text.
pub fn str_eq(a: &str, b: &str) -> (r: bool)
    ensures
        r == (a@ == b@),
{
    proof {
        lemma_same_bytes(a@, b@);
    }
    bytes_eq(a.as_bytes(), b.as_bytes())
}

/// What follows `prefix` in `s`, where `s` starts with it.
pub fn strip_prefix<'a>(s: &'a str, prefix: &str) -> (r: Option<&'a str>)
    ensures
        match r {
            Some(t) => prefix@.is_prefix_of(s@) && t@ == s@.skip(prefix@.len() as int),
            None => !prefix@.is_prefix_of(s@),
        },
{
    let n: usize = s.unicode_len();
    let m: usize = prefix.unicode_len();
    if n < m {
        return None;
    }
    if str_eq(s.substring_char(0, m), prefix) {
        Some(s.substring_char(m, n))
    } else {
        None
    }
}

/// What precedes `suffix` in `s`, where `s` ends with it.
pub fn strip_suffix<'a>(s: &'a str, suffix: &str) -> (r: Option<&'a str>)
    ensures
        match r {
            Some(t) => suffix@.is_suffix_of(s@) && t@ == s@.take(s@.len() - suffix@.len()),
            None => !suffix@.is_suffix_of(s@),
        },
{
    let n: usize = s.unicode_len();
    let m: usize = suffix.unicode_len();
    if n < m {
        return None;
    }
    if str_eq(s.substring_char(n - m, n), suffix) {
        Some(s.substring_char(0, n - m))
    } else {
        None
    }
}

/// An ASCII capital letter as the small letter, any other byte as it is.
pub open spec fn lower(b: u8) -> u8 {
    if 65 <= b <= 90 {
        (b + 32) as u8
    } else {
        b
    }
}

/// Whether two byte strings are equal up to the case of ASCII letters.
pub open spec fn eq_ci(a: Seq<u8>, b: Seq<u8>) -> bool {
    a.len() == b.len() && forall|i: int| 0 <= i < a.len() ==> lower(#[trigger] a[i]) == lower(b[i])
}

/// `lower`, computed.
pub fn to_lower(b: u8) -> (r: u8)
    ensures
        r == lower(b),
{
    if 65 <= b && b <= 90 {
        b + 32
    } else {
        b
    }
}

/// Whether two byte slices are equal up to the case of ASCII letters.
pub fn bytes_eq_ci(a: &[u8], b: &[u8]) -> (r: bool)
    ensures
        r == eq_ci(a@, b@),
{
    if a.len() != b.len() {
        return false;
    }
    for i in 0..a.len()
        invariant
            a@.len() == b@.len(),
            forall|j: int| 0 <= j < i ==> lower(#[trigger] a@[j]) == lower(b@[j]),
    {
        if to_lower(a[i]) != to_lower(b[i]) {
            return false;
        }
    }
    true
}

/// Whether two string slices are equal up to the case of ASCII letters.
pub fn str_eq_ci(a: &str, b: &str) -> (r: bool)
    ensures
        r == eq_ci(a.spec_bytes(), b.spec_bytes()),
{
    bytes_eq_ci(a.as_bytes(), b.as_bytes())
}

/// Appends `bytes` to `out`.
pub fn push_bytes(out: &mut Vec<u8>, bytes: &[u8])
    ensures
        final(out)@ == old(out)@ + bytes@,
{
    out.extend_from_slice(bytes);
    assert(out@ =~= old(out)@ + bytes@);
}

// ---------------------------------------------------------------------------
// Numbers
// ---------------------------------------------------------------------------

/// Value of one digit in the given radix (at most 16).
pub open spec fn digit(b: u8, radix: nat) -> Option<nat> {
    let v = if 48 <= b <= 57 {
        Some((b - 48) as nat)
    } else if 97 <= b <= 102 {
        Some((b - 87) as nat)
    } else if 65 <= b <= 70 {
        Some((b - 55) as nat)
    } else {
        None
    };
    match v {
        Some(d) if d < radix => Some(d),
        _ => None,
    }
}

/// Value of a run of digits, `None` where a byte is no digit. The empty run has value 0.
pub open spec fn digits_value(b: Seq<u8>, radix: nat) -> Option<nat>
    decreases b.len(),
{
    if b.len() == 0 {
        Some(0)
    } else {
        match (digits_value(b.drop_last(), radix), digit(b.last(), radix)) {
            (Some(v), Some(d)) => Some(v * radix + d),
            _ => None,
        }
    }
}

/// A number written as a non-empty run of digits that is not above `max`.
pub open spec fn parse_digits(b: Seq<u8>, radix: nat, max: nat) -> Option<nat> {
    match digits_value(b, radix) {
        Some(v) if b.len() > 0 && v <= max => Some(v),
        _ => None,
    }
}

/// An unsigned number: an optional plus sign, then digits.
pub open spec fn parse_unsigned(b: Seq<u8>, radix: nat, max: nat) -> Option<nat> {
    if b.len() > 0 && b[0] == 43 {
        parse_digits(b.drop_first(), radix, max)
    } else {
        parse_digits(b, radix, max)
    }
}

/// A signed number between `-max - 1` and `max`: an optional sign, then digits.
pub open spec fn parse_signed(b: Seq<u8>, max: nat) -> Option<int> {
    if b.len() > 0 && b[0] == 45 {
        match parse_digits(b.drop_first(), 10, max + 1) {
            Some(v) => Some(-(v as int)),
            None => None,
        }
    } else {
        match parse_unsigned(b, 10, max) {
            Some(v) => Some(v as int),
            None => None,
        }
    }
}

/// A longer run of digits is worth at least as much as its beginning.
proof fn lemma_digits_grow(b: Seq<u8>, radix: nat, k: int)
    requires
        0 <= k <= b.len(),
        radix > 0,
    ensures
        digits_value(b, radix) matches Some(v) ==> (digits_value(b.take(k), radix) matches Some(w)
            && w <= v),
    decreases b.len(),
{
    if k == b.len() {
        assert(b.take(k) =~= b);
    } else {
        lemma_digits_grow(b.drop_last(), radix, k);
        assert(b.drop_last().take(k) =~= b.take(k));
        if let Some(v) = digits_value(b.drop_last(), radix) {
            assert(v <= v * radix) by (nonlinear_arith)
                requires
                    radix > 0,
            ;
        }
    }
}

/// Reads a non-empty run of digits as a number not above `max`.
pub fn read_digits(b: &[u8], radix: u64, max: u64) -> (r: Option<u64>)
    requires
        0 < radix <= 16,
    ensures
        match r {
            Some(v) => parse_digits(b@, radix as nat, max as nat) == Some(v as nat),
            None => parse_digits(b@, radix as nat, max as nat) is None,
        },
{
    if b.len() == 0 {
        return None;
    }
    let mut acc: u64 = 0;
    for i in 0..b.len()
        invariant
            digits_value(b@.take(i as int), radix as nat) == Some(acc as nat),
            acc <= max,
            0 < radix <= 16,
            b@.len() > 0,
    {
        let c: u8 = b[i];
        proof {
            assert(b@.take(i + 1).drop_last() =~= b@.take(i as int));
            assert(b@.take(i + 1).last() == c);
            lemma_digits_grow(b@, radix as nat, i + 1);
        }
        let d: u64 = if 48 <= c && c <= 57 {
            (c - 48) as u64
        } else if 97 <= c && c <= 102 {
            (c - 87) as u64
        } else if 65 <= c && c <= 70 {
            (c - 55) as u64
        } else {
            return None;
        };
        if d >= radix {
            return None;
        }
        proof {
            assert((acc as nat) * (radix as nat) == acc * radix);
        }
        let m: u64 = match acc.checked_mul(radix) {
            Some(m) => m,
            None => {
                return None;
            },
        };
        let v: u64 = match m.checked_add(d) {
            Some(v) => v,
            None => {
                return None;
            },
        };
        if v > max {
            return None;
        }
        acc = v;
    }
    proof {
        assert(b@.take(b@.len() as int) =~= b@);
    }
    Some(acc)
}

/// Reads an unsigned number not above `max`.
pub fn read_unsigned(b: &[u8], radix: u64, max: u64) -> (r: Option<u64>)
    requires
        0 < radix <= 16,
    ensures
        match r {
            Some(v) => parse_unsigned(b@, radix as nat, max as nat) == Some(v as nat),
            None => parse_unsigned(b@, radix as nat, max as nat) is None,
        },
{
    if b.len() > 0 && b[0] == 43 {
        proof {
            assert(b@.subrange(1, b@.len() as int) =~= b@.drop_first());
        }
        read_digits(&b[1..b.len()], radix, max)
    } else {
        read_digits(b, radix, max)
    }
}

/// Reads a signed 64-bit number.
pub fn read_i64(b: &[u8]) -> (r: Option<i64>)
    ensures
        match r {
            Some(v) => parse_signed(b@, i64::MAX as nat) == Some(v as int),
            None => parse_signed(b@, i64::MAX as nat) is None,
        },
{
    if b.len() > 0 && b[0] == 45 {
        proof {
            assert(b@.subrange(1, b@.len() as int) =~= b@.drop_first());
        }
        match read_digits(&b[1..b.len()], 10, 0x8000_0000_0000_0000) {
            Some(v) => if v == 0x8000_0000_0000_0000 {
                Some(i64::MIN)
            } else {
                Some(-(v as i64))
            },
            None => None,
        }
    } else {
        match read_unsigned(b, 10, 0x7fff_ffff_ffff_ffff) {
            Some(v) => Some(v as i64),
            None => None,
        }
    }
}

/// Reads a signed 32-bit number.
pub fn read_i32(b: &[u8]) -> (r: Option<i32>)
    ensures
        match r {
            Some(v) => parse_signed(b@, i32::MAX as nat) == Some(v as int),
            None => parse_signed(b@, i32::MAX as nat) is None,
        },
{
    match read_i64(b) {
        Some(v) => if -0x8000_0000 <= v && v <= 0x7fff_ffff {
            Some(v as i32)
        } else {
            None
        },
        None => None,
    }
}

/// The decimal digits of a number, without leading zeros.
pub open spec fn decimal(n: nat) -> Seq<char>
    decreases n,
{
    if n < 10 {
        seq![(48 + n) as char]
    } else {
        decimal(n / 10) + seq![(48 + n % 10) as char]
    }
}

/// The decimal digits of a number as bytes.
pub open spec fn decimal_bytes(n: nat) -> Seq<u8>
    decreases n,
{
    if n < 10 {
        seq![(48 + n) as u8]
    } else {
        decimal_bytes(n / 10) + seq![(48 + n % 10) as u8]
    }
}

/// Appends the decimal digits of `n` to `out`.
pub fn push_decimal(out: &mut Vec<u8>, n: u64)
    ensures
        final(out)@ == old(out)@ + decimal_bytes(n as nat),
    decreases n,
{
    if n >= 10 {
        push_decimal(out, n / 10);
    }
    out.push((48 + n % 10) as u8);
}

fn digit_str(d: u64) -> (r: &'static str)
    requires
        d < 10,
    ensures
        r@ == seq![(48 + d) as char],
{
    proof {
        reveal_strlit("0");
        reveal_strlit("1");
        reveal_strlit("2");
        reveal_strlit("3");
        reveal_strlit("4");
        reveal_strlit("5");
        reveal_strlit("6");
        reveal_strlit("7");
        reveal_strlit("8");
        reveal_strlit("9");
    }
    let r = if d == 0 {
        "0"
    } else if d == 1 {
        "1"
    } else if d == 2 {
        "2"
    } else if d == 3 {
        "3"
    } else if d == 4 {
        "4"
    } else if d == 5 {
        "5"
    } else if d == 6 {
        "6"
    } else if d == 7 {
        "7"
    } else if d == 8 {
        "8"
    } else {
        "9"
    };
    assert(r@ =~= seq![(48 + d) as char]);
    r
}

/// Appends the decimal digits of `n` to `out`.
pub fn append_decimal(out: &mut String, n: u64)
    ensures
        final(out)@ == old(out)@ + decimal(n as nat),
    decreases n,
{
    if n >= 10 {
        append_decimal(out, n / 10);
    }
    out.append(digit_str(n % 10));
    assert(out@ =~= old(out)@ + decimal(n as nat));
}

/// Whether a count is right: it is the number, or there is none because the number is out of range.
pub open spec fn is_count(r: Option<usize>, n: nat) -> bool {
    match r {
        Some(k) => k == n,
        None => n > usize::MAX,
    }
}

/// The sum of two counts.
pub(crate) fn plus(
    a: Option<usize>,
    b: Option<usize>,
    Ghost(x): Ghost<nat>,
    Ghost(y): Ghost<nat>,
) -> (r: Option<usize>)
    requires
        is_count(a, x),
        is_count(b, y),
    ensures
        is_count(r, x + y),
{
    match (a, b) {
        (Some(m), Some(n)) => m.checked_add(n),
        _ => None,
    }
}

/// `std::str::from_utf8`: the bytes as text, where they are valid UTF-8.
#[verifier::external_body]
pub(crate) fn from_utf8<'a>(v: &'a [u8]) -> (r: Option<&'a str>)
    ensures
        match r {
            Some(s) => s.spec_bytes() == v@,
            None => !valid_utf8(v@),
        },
{
    std::str::from_utf8(v).ok()
}

/// A text as `Debug` of the standard library writes it: in quotes, with escapes.
pub uninterp spec fn debug_text(s: Seq<char>) -> Seq<char>;

/// `Debug` of `str`: the text in quotes, with escapes. Which characters are escaped is not stated.
#[verifier::external_body]
pub(crate) fn quoted(s: &str) -> (r: String)
    ensures
        r@ == debug_text(s@),
{
    format!("{:?}", s)
}

/// A text in upper case, as `str::to_uppercase` of the standard library gives it.
pub uninterp spec fn uppercase(s: Seq<char>) -> Seq<char>;

/// An ASCII small letter as the capital one, any other character as it is.
pub open spec fn upper(c: char) -> char {
    if 'a' <= c <= 'z' {
        (c as u32 - 32) as char
    } else {
        c
    }
}

/// `str::to_uppercase`. Of an ASCII text it changes the small letters alone; what becomes of other
/// characters is not stated.
#[verifier::external_body]
pub(crate) fn to_uppercase(s: &str) -> (r: String)
    ensures
        r@ == uppercase(s@),
        is_ascii_chars(s@) ==> r@ == Seq::new(s@.len(), |i: int| upper(s@[i])),
{
    s.to_uppercase()
}

} // verus!
