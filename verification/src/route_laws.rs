//! What the conditions of a route ask of a request.

use vstd::prelude::*;
use vstd::string::*;
use vstd::utf8::*;

use crate::config;
use crate::fast_proxy;
use crate::fast_proxy::FastValidateRule;
use crate::header_util;
use crate::header_util::Matcher;
use crate::http::Field;
use crate::text;
use crate::text_laws;

verus! {

// ---------------------------------------------------------------------------
// Cookies
// ---------------------------------------------------------------------------

/// Whether one part of a `Cookie` value is a cookie of the given name: the name alone, or with `=`
/// and a value behind it.
pub open spec fn is_cookie(part: Seq<char>, name: Seq<char>) -> bool {
    part == name || name.push('=').is_prefix_of(part)
}

/// The parts of a `Cookie` value, without the blanks around them.
pub open spec fn cookie_parts(cookies: Seq<char>) -> Seq<Seq<char>> {
    text::split(cookies, ';').map_values(|p: Seq<char>| text::trim(p))
}

proof fn lemma_name_value(part: Seq<char>, name: Seq<char>)
    requires
        !name.contains('='),
    ensures
        (fast_proxy::name_value(part).0 == name) == is_cookie(part, name),
        part == name ==> fast_proxy::name_value(part).1 == Seq::<char>::empty(),
        name.push('=').is_prefix_of(part) ==> fast_proxy::name_value(part).1 == part.skip(
            name.len() as int + 1,
        ),
{
    text::lemma_find(part, '=');
    text::lemma_find(name, '=');
    let k = text::find(part, '=');
    if part == name {
        assert(k == part.len());
    }
    if name.push('=').is_prefix_of(part) {
        let n = name.len() as int;
        assert(part.subrange(0, n + 1) =~= name.push('='));
        assert(part[n] == part.subrange(0, n + 1)[n]);
        assert forall|i: int| 0 <= i < n implies part[i] != '=' by {
            assert(part[i] == part.subrange(0, n + 1)[i]);
            assert(name.contains(name[i]));
        }
        text::lemma_find_is(part, '=', n);
        assert(part.take(n) =~= name);
    }
    if fast_proxy::name_value(part).0 == name && k < part.len() {
        assert(part.take(k) == name);
        assert(part.subrange(0, name.len() as int + 1) =~= name.push('='));
    }
}

/// The first part that is a cookie of a name; as many as there are parts where none is.
pub open spec fn first_cookie(parts: Seq<Seq<char>>, name: Seq<char>) -> int
    decreases parts.len(),
{
    if parts.len() == 0 || is_cookie(parts[0], name) {
        0
    } else {
        1 + first_cookie(parts.drop_first(), name)
    }
}

proof fn lemma_cookie_in(raw: Seq<Seq<char>>, name: Seq<char>)
    requires
        !name.contains('='),
    ensures
        ({
            let parts = raw.map_values(|p: Seq<char>| text::trim(p));
            let k = first_cookie(parts, name);
            &&& 0 <= k <= parts.len()
            &&& forall|i: int| 0 <= i < k ==> !is_cookie(#[trigger] parts[i], name)
            &&& k < parts.len() ==> is_cookie(parts[k], name) && fast_proxy::cookie_in(raw, name)
                == Some(fast_proxy::name_value(parts[k]).1)
            &&& k == parts.len() ==> fast_proxy::cookie_in(raw, name) is None
        }),
    decreases raw.len(),
{
    let f = |p: Seq<char>| text::trim(p);
    let parts = raw.map_values(f);
    if raw.len() > 0 {
        lemma_name_value(parts[0], name);
        if !is_cookie(parts[0], name) {
            let rest = raw.drop_first();
            lemma_cookie_in(rest, name);
            assert(parts.drop_first() =~= rest.map_values(f));
            let k = first_cookie(parts, name);
            assert forall|i: int| 0 <= i < k implies !is_cookie(#[trigger] parts[i], name) by {
                if i > 0 {
                    assert(parts[i] == parts.drop_first()[i - 1]);
                }
            }
            if k < parts.len() {
                assert(parts[k] == parts.drop_first()[k - 1]);
            }
        }
    }
}

/// Whether a `Cookie` value holds a cookie of a name.
pub open spec fn holds_cookie(cookies: Seq<char>, name: Seq<char>) -> bool {
    exists|i: int|
        0 <= i < cookie_parts(cookies).len() && is_cookie(#[trigger] cookie_parts(cookies)[i], name)
}

/// The condition `name` takes the requests that hold a cookie of that name and `!name` those that
/// hold none, so exactly one of them holds of any request.
pub proof fn law_cookie_or_none(cookies: Seq<char>, name: Seq<char>)
    requires
        name.len() > 0,
        name[0] != '!',
        !name.contains('='),
    ensures
        fast_proxy::cookie_holds(name, cookies) == holds_cookie(cookies, name),
        fast_proxy::cookie_holds(seq!['!'] + name, cookies) == !holds_cookie(cookies, name),
{
    lemma_cookie_in(text::split(cookies, ';'), name);
    text::lemma_find(name, '=');
    assert((seq!['!'] + name).skip(1) =~= name);
    let k = first_cookie(cookie_parts(cookies), name);
    if k < cookie_parts(cookies).len() {
        assert(is_cookie(cookie_parts(cookies)[k], name));
    }
}

/// The condition `name=value` takes the requests whose first cookie of that name has that value.
pub proof fn law_cookie_value(cookies: Seq<char>, name: Seq<char>, value: Seq<char>)
    requires
        name.len() > 0,
        name[0] != '!',
        !name.contains('='),
        value.len() > 0,
    ensures
        fast_proxy::cookie_holds(name + seq!['='] + value, cookies) == exists|i: int|
            0 <= i < cookie_parts(cookies).len() && #[trigger] cookie_parts(cookies)[i] == name + seq![
                '=',
            ] + value && forall|j: int|
                0 <= j < i ==> !is_cookie(#[trigger] cookie_parts(cookies)[j], name),
{
    let c = name + seq!['='] + value;
    let parts = cookie_parts(cookies);
    lemma_cookie_in(text::split(cookies, ';'), name);
    lemma_name_value(c, name);
    let n = name.len() as int;
    assert(c.subrange(0, n + 1) =~= name.push('='));
    assert(name.push('=').is_prefix_of(c));
    assert(c.skip(n + 1) =~= value);
    text::lemma_find(c, '=');
    assert(c[n] == '=');
    assert(c.contains('='));
    let k = first_cookie(parts, name);
    if k < parts.len() {
        lemma_name_value(parts[k], name);
        if parts[k] != name && parts[k].skip(n + 1) == value {
            assert(parts[k].subrange(0, n + 1) == name.push('='));
            assert(parts[k] =~= parts[k].subrange(0, n + 1) + parts[k].skip(n + 1));
            assert(parts[k] =~= c);
        }
    }
    if exists|i: int|
        0 <= i < parts.len() && #[trigger] parts[i] == c && forall|j: int|
            0 <= j < i ==> !is_cookie(#[trigger] parts[j], name) {
        let i = choose|i: int|
            0 <= i < parts.len() && #[trigger] parts[i] == c && forall|j: int|
                0 <= j < i ==> !is_cookie(#[trigger] parts[j], name);
        assert(is_cookie(parts[i], name));
        assert(i == k);
    }
}

/// The cookies of a request are those of its last `Cookie` field that is text.
pub proof fn law_last_cookie_field_counts(hs: Seq<Field>, f: Field)
    ensures
        fast_proxy::cookies_of(seq![]) == Seq::<char>::empty(),
        fast_proxy::cookies_of(hs.push(f)) == (if text::eq_ci(f.name, "cookie".spec_bytes())
            && valid_utf8(f.value) {
            decode_utf8(f.value)
        } else {
            fast_proxy::cookies_of(hs)
        }),
{
    assert(hs.push(f).drop_last() =~= hs);
}

// ---------------------------------------------------------------------------
// The filters of a route
// ---------------------------------------------------------------------------

/// A route with filters takes a request exactly where its method is among those listed, every field
/// that it asks for is there, none that it excludes is, and the cookies and the query meet its
/// conditions. What a route does not list it does not ask for.
pub proof fn law_filters_ask_for_what_they_list(
    r: config::RouteModel,
    method: Seq<char>,
    target: Seq<char>,
    hs: Seq<Field>,
)
    ensures
        fast_proxy::filters_hold(r, method, target, hs) <==> {
            &&& r.method is None || exists|i: int|
                0 <= i < r.method->0.len() && #[trigger] r.method->0[i] == method
            &&& r.header is None || forall|i: int|
                0 <= i < r.header->0.len() ==> field_named(hs, #[trigger] r.header->0[i])
            &&& r.absent_header is None || forall|i: int|
                0 <= i < r.absent_header->0.len() ==> !field_named(
                    hs,
                    #[trigger] r.absent_header->0[i],
                )
            &&& r.cookie is None || forall|i: int|
                0 <= i < r.cookie->0.len() ==> fast_proxy::cookie_holds(
                    #[trigger] r.cookie->0[i],
                    fast_proxy::cookies_of(hs),
                )
            &&& r.query is None || header_util::conditions_hold(
                r.query->0,
                fast_proxy::parsed_form(encode_utf8(behind_question_mark(target))),
            )
        },
{
    text::lemma_find(target, '?');
    let k = text::find(target, '?');
    let q = match fast_proxy::query_of(target) {
        Some(s) => encode_utf8(s),
        None => Seq::<u8>::empty(),
    };
    assert(q =~= encode_utf8(behind_question_mark(target))) by {
        assert(encode_utf8(Seq::<char>::empty()) =~= Seq::<u8>::empty());
    }
    assert forall|name: Seq<char>| #[trigger] field_named(hs, name) == fast_proxy::has_name(
        hs,
        name,
    ) by {}
    if r.method is Some {
        let ms = r.method->0;
        if ms.contains(method) {
            let i = choose|i: int| 0 <= i < ms.len() && ms[i] == method;
            assert(r.method->0[i] == method);
        }
    }
}

/// Whether a field has a name, up to case.
pub open spec fn field_named(hs: Seq<Field>, name: Seq<char>) -> bool {
    exists|j: int| 0 <= j < hs.len() && text::eq_ci((#[trigger] hs[j]).name, encode_utf8(name))
}

/// What follows the first `?` of a target.
pub open spec fn behind_question_mark(target: Seq<char>) -> Seq<char> {
    if target.contains('?') {
        target.skip(text::find(target, '?') + 1)
    } else {
        seq![]
    }
}

/// To ask that a field be there and to ask that it be missing are opposites.
pub proof fn law_there_or_missing(
    r: config::RouteModel,
    name: Seq<char>,
    method: Seq<char>,
    target: Seq<char>,
    hs: Seq<Field>,
)
    requires
        r.header is None,
        r.absent_header is None,
        fast_proxy::filters_hold(r, method, target, hs),
    ensures
        fast_proxy::filters_hold(
            config::RouteModel { header: Some(seq![name]), ..r },
            method,
            target,
            hs,
        ) != fast_proxy::filters_hold(
            config::RouteModel { absent_header: Some(seq![name]), ..r },
            method,
            target,
            hs,
        ),
        fast_proxy::filters_hold(
            config::RouteModel { header: Some(seq![name]), ..r },
            method,
            target,
            hs,
        ) <==> exists|j: int|
            0 <= j < hs.len() && text::eq_ci((#[trigger] hs[j]).name, encode_utf8(name)),
{
    let a = config::RouteModel { header: Some(seq![name]), ..r };
    let b = config::RouteModel { absent_header: Some(seq![name]), ..r };
    assert(seq![name][0] == name);
    assert(fast_proxy::filters_hold(a, method, target, hs) == fast_proxy::has_name(hs, name)) by {
        if fast_proxy::filters_hold(a, method, target, hs) {
            assert(fast_proxy::has_name(hs, a.header->0[0]));
        }
    }
    assert(fast_proxy::filters_hold(b, method, target, hs) == !fast_proxy::has_name(hs, name)) by {
        if fast_proxy::filters_hold(b, method, target, hs) {
            assert(!fast_proxy::has_name(hs, b.absent_header->0[0]));
        }
    }
}

// ---------------------------------------------------------------------------
// Conditions on the fields of a query or form
// ---------------------------------------------------------------------------

proof fn lemma_lookup(fields: Seq<(Seq<char>, Seq<char>)>, key: Seq<char>)
    ensures
        match header_util::lookup(fields, key) {
            Some(v) => exists|i: int|
                0 <= i < fields.len() && #[trigger] fields[i] == (key, v) && forall|j: int|
                    0 <= j < i ==> (#[trigger] fields[j]).0 != key,
            None => forall|i: int| 0 <= i < fields.len() ==> (#[trigger] fields[i]).0 != key,
        },
    decreases fields.len(),
{
    if fields.len() > 0 && fields[0].0 != key {
        let rest = fields.drop_first();
        lemma_lookup(rest, key);
        match header_util::lookup(rest, key) {
            Some(v) => {
                let i = choose|i: int|
                    0 <= i < rest.len() && #[trigger] rest[i] == (key, v) && forall|j: int|
                        0 <= j < i ==> (#[trigger] rest[j]).0 != key;
                assert(fields[i + 1] == (key, v));
                assert forall|j: int| 0 <= j < i + 1 implies (#[trigger] fields[j]).0 != key by {
                    if j > 0 {
                        assert(fields[j] == rest[j - 1]);
                    }
                }
            },
            None => {
                assert forall|i: int| 0 <= i < fields.len() implies (#[trigger] fields[i]).0
                    != key by {
                    if i > 0 {
                        assert(fields[i] == rest[i - 1]);
                    }
                }
            },
        }
    } else if fields.len() > 0 {
        assert(fields[0] == (key, fields[0].1));
    }
}

/// Whether there is a field of a name.
pub open spec fn has_key(fields: Seq<(Seq<char>, Seq<char>)>, key: Seq<char>) -> bool {
    exists|i: int| 0 <= i < fields.len() && (#[trigger] fields[i]).0 == key
}

/// The condition `key` asks for a field, `!key` for its absence.
pub proof fn law_field_or_none(fields: Seq<(Seq<char>, Seq<char>)>, key: Seq<char>)
    requires
        key.len() > 0,
        key[0] != '!',
        !key.contains('='),
    ensures
        header_util::condition_holds(key, fields) == has_key(fields, key),
        header_util::condition_holds(seq!['!'] + key, fields) == !has_key(fields, key),
{
    lemma_lookup(fields, key);
    text::lemma_find(key, '=');
    assert((seq!['!'] + key).skip(1) =~= key);
}

/// A value that is no name of a kind: it stands for itself.
pub open spec fn plain_value(v: Seq<char>) -> bool {
    v != "int"@ && v != "str"@ && !"enum("@.is_prefix_of(v) && !v.contains('|')
}

proof fn lemma_condition(
    fields: Seq<(Seq<char>, Seq<char>)>,
    key: Seq<char>,
    alternatives: Seq<char>,
    actual: Seq<char>,
)
    requires
        key.len() > 0,
        key[0] != '!',
        !key.contains('='),
        actual == (match header_util::lookup(fields, key) {
            Some(v) => v,
            None => seq![],
        }),
    ensures
        header_util::condition_holds(key + seq!['='] + alternatives, fields) == exists|i: int|
            0 <= i < text::split(alternatives, '|').len() && header_util::alternative_holds(
                #[trigger] text::split(alternatives, '|')[i],
                actual,
            ),
{
    let c = key + seq!['='] + alternatives;
    let n = key.len() as int;
    assert forall|i: int| 0 <= i < n implies c[i] != '=' by {
        assert(c[i] == key[i]);
        assert(key.contains(key[i]));
    }
    text::lemma_find_is(c, '=', n);
    assert(c.take(n) =~= key);
    assert(c.skip(n + 1) =~= alternatives);
    assert(c[0] == key[0]);
}

/// The condition `key=value` holds where the first field of that name has that value.
pub proof fn law_field_has_value(
    fields: Seq<(Seq<char>, Seq<char>)>,
    key: Seq<char>,
    value: Seq<char>,
)
    requires
        key.len() > 0,
        key[0] != '!',
        !key.contains('='),
        plain_value(value),
        value.len() > 0,
    ensures
        header_util::condition_holds(key + seq!['='] + value, fields) <==> exists|i: int|
            0 <= i < fields.len() && #[trigger] fields[i] == (key, value) && forall|j: int|
                0 <= j < i ==> (#[trigger] fields[j]).0 != key,
{
    lemma_lookup(fields, key);
    let actual = match header_util::lookup(fields, key) {
        Some(v) => v,
        None => seq![],
    };
    lemma_condition(fields, key, value, actual);
    text_laws::law_separator_parts(value, '|', Seq::<char>::empty());
    assert(text::split(value, '|')[0] == value);
    assert(header_util::alternative_holds(value, actual) == (value == actual));
    assert(header_util::condition_holds(key + seq!['='] + value, fields) == (value == actual));
}

/// `key=a|b` holds where `key=a` or `key=b` does.
pub proof fn law_alternatives(
    fields: Seq<(Seq<char>, Seq<char>)>,
    key: Seq<char>,
    a: Seq<char>,
    b: Seq<char>,
)
    requires
        key.len() > 0,
        key[0] != '!',
        !key.contains('='),
        !a.contains('|'),
    ensures
        header_util::condition_holds(key + seq!['='] + (a + seq!['|'] + b), fields) == (
        header_util::condition_holds(key + seq!['='] + a, fields) || header_util::condition_holds(
            key + seq!['='] + b,
            fields,
        )),
{
    let actual = match header_util::lookup(fields, key) {
        Some(v) => v,
        None => seq![],
    };
    let both = a + seq!['|'] + b;
    lemma_condition(fields, key, both, actual);
    lemma_condition(fields, key, a, actual);
    lemma_condition(fields, key, b, actual);
    text_laws::law_separator_parts(a, '|', b);
    let ps = text::split(both, '|');
    let bs = text::split(b, '|');
    assert(ps[0] == a);
    assert(text::split(a, '|')[0] == a);
    assert forall|i: int| 0 <= i < bs.len() implies #[trigger] bs[i] == ps[i + 1] by {}
    if exists|i: int| 0 <= i < ps.len() && header_util::alternative_holds(#[trigger] ps[i], actual) {
        let i = choose|i: int|
            0 <= i < ps.len() && header_util::alternative_holds(#[trigger] ps[i], actual);
        if i > 0 {
            assert(bs[i - 1] == ps[i]);
        }
    }
    if exists|i: int| 0 <= i < bs.len() && header_util::alternative_holds(#[trigger] bs[i], actual) {
        let i = choose|i: int|
            0 <= i < bs.len() && header_util::alternative_holds(#[trigger] bs[i], actual);
        assert(ps[i + 1] == bs[i]);
    }
}

/// `key=int` holds of a value in decimal digits, with or without a sign, within the range of 64
/// bits, and of no value that begins with another character; `key=str` of any value but the empty
/// one.
pub proof fn law_kinds_of_values(
    fields: Seq<(Seq<char>, Seq<char>)>,
    key: Seq<char>,
    actual: Seq<char>,
    n: nat,
)
    requires
        key.len() > 0,
        key[0] != '!',
        !key.contains('='),
        header_util::lookup(fields, key) == Some(actual),
    ensures
        header_util::condition_holds(key + seq!['='] + "str"@, fields) == (actual.len() > 0),
        encode_utf8(actual) == text::decimal_bytes(n) && n <= i64::MAX
            ==> header_util::condition_holds(key + seq!['='] + "int"@, fields),
        encode_utf8(actual) == seq![45u8] + text::decimal_bytes(n) && n <= i64::MAX
            ==> header_util::condition_holds(key + seq!['='] + "int"@, fields),
        encode_utf8(actual).len() == 0 || !(encode_utf8(actual)[0] == 45 || encode_utf8(actual)[0]
            == 43 || 48 <= encode_utf8(actual)[0] <= 57) ==> !header_util::condition_holds(
            key + seq!['='] + "int"@,
            fields,
        ),
{
    lemma_condition(fields, key, "str"@, actual);
    lemma_condition(fields, key, "int"@, actual);
    reveal_strlit("str");
    reveal_strlit("int");
    reveal_strlit("enum(");
    assert(!"str"@.contains('|'));
    assert(!"int"@.contains('|'));
    text_laws::law_separator_parts("str"@, '|', Seq::<char>::empty());
    text_laws::law_separator_parts("int"@, '|', Seq::<char>::empty());
    assert(text::split("str"@, '|')[0] == "str"@);
    assert(text::split("int"@, '|')[0] == "int"@);
    assert("str"@[0] != "int"@[0]);
    assert(!("enum("@.is_prefix_of("str"@)));
    assert(header_util::alternative_holds("str"@, actual) == (actual.len() > 0)) by {
        if actual == "str"@ {
            assert(actual.len() == 3);
        }
    }
    text_laws::law_decimal_reads_back(n, i64::MAX as nat);
    let b = encode_utf8(actual);
    lemma_not_a_number(b);
    if b == text::decimal_bytes(n) {
        assert(48 <= text::decimal_bytes(n)[0] <= 57) by {
            text_laws::law_decimal_reads_back(n, n);
        }
    }
}

proof fn lemma_not_a_number(b: Seq<u8>)
    ensures
        b.len() == 0 || !(48 <= b[0] <= 57) ==> text::parse_digits(b, 10, i64::MAX as nat) is None,
        b.len() > 0 && text::digits_value(b, 10) is Some ==> 48 <= b[0] <= 57,
    decreases b.len(),
{
    if b.len() > 0 {
        lemma_not_a_number(b.drop_last());
        if b.len() > 1 {
            assert(b.drop_last()[0] == b[0]);
        }
    }
}

/// Several conditions, parted by blanks, must all hold.
pub proof fn law_all_conditions_must_hold(
    fields: Seq<(Seq<char>, Seq<char>)>,
    c: Seq<char>,
    blank: char,
    rest: Seq<char>,
)
    requires
        c.len() > 0,
        forall|i: int| 0 <= i < c.len() ==> !text::is_whitespace(#[trigger] c[i]),
        text::is_whitespace(blank),
    ensures
        header_util::conditions_hold(seq![], fields),
        header_util::conditions_hold(c, fields) == header_util::condition_holds(c, fields),
        header_util::conditions_hold(c + seq![blank] + rest, fields) == (
        header_util::condition_holds(c, fields) && header_util::conditions_hold(rest, fields)),
{
    text_laws::law_words_are_parted_by_blanks(c, blank, rest);
    assert(seq![c][0] == c);
    let all = text::words(c + seq![blank] + rest);
    let more = text::words(rest);
    assert(all[0] == c);
    assert forall|i: int| 0 <= i < more.len() implies #[trigger] more[i] == all[i + 1] by {}
    assert(text::words(c)[0] == c);
    if header_util::conditions_hold(c, fields) {
        assert(header_util::condition_holds(text::words(c)[0], fields));
    }
    if header_util::conditions_hold(c + seq![blank] + rest, fields) {
        assert(header_util::condition_holds(all[0], fields));
        assert forall|i: int| 0 <= i < more.len() implies header_util::condition_holds(
            #[trigger] more[i],
            fields,
        ) by {
            assert(header_util::condition_holds(all[i + 1], fields));
        }
    }
    if header_util::condition_holds(c, fields) && header_util::conditions_hold(rest, fields) {
        assert forall|i: int| 0 <= i < all.len() implies header_util::condition_holds(
            #[trigger] all[i],
            fields,
        ) by {
            if i > 0 {
                assert(header_util::condition_holds(more[i - 1], fields));
            }
        }
    }
}

// ---------------------------------------------------------------------------
// Patterns
// ---------------------------------------------------------------------------

/// The characters that have a meaning of their own in a pattern.
pub open spec fn is_special(b: u8) -> bool {
    seq![46u8, 94, 36, 42, 43, 63, 40, 41, 91, 93, 123, 125, 124, 92].contains(b)
}

/// The pattern of a domain that holds no special character takes exactly the host of that name; the
/// pattern of a route that holds none takes exactly the targets that begin with it. Any other
/// pattern is a regular expression.
pub proof fn law_plain_patterns_are_literal(m: Matcher, re: Seq<char>, hay: Seq<char>)
    ensures
        fast_proxy::exact_matcher(m, re) && literal(re) ==> m.matches(hay) == (hay == re),
        fast_proxy::prefix_matcher(m, re) && literal(re) ==> m.matches(hay) == (hay.len()
            >= re.len() && hay.take(re.len() as int) == re),
        (fast_proxy::exact_matcher(m, re) || fast_proxy::prefix_matcher(m, re)) && !literal(re)
            ==> m.matches(hay) == crate::pattern::regex_matches(re, hay),
{
    let b = encode_utf8(re);
    let specials = seq![46u8, 94, 36, 42, 43, 63, 40, 41, 91, 93, 123, 125, 124, 92];
    assert forall|x: u8| #[trigger] is_special(x) == header_util::is_regex_meta(x) by {
        assert(specials[0] == 46 && specials[1] == 94 && specials[2] == 36 && specials[3] == 42
            && specials[4] == 43 && specials[5] == 63 && specials[6] == 40 && specials[7] == 41
            && specials[8] == 91 && specials[9] == 93 && specials[10] == 123 && specials[11] == 125
            && specials[12] == 124 && specials[13] == 92);
    }
    assert(header_util::plain_literal(b) == literal(re)) by {
        if header_util::plain_literal(b) {
            assert forall|i: int| 0 <= i < b.len() implies !is_special(#[trigger] b[i]) by {
                assert(!header_util::is_regex_meta(b[i]));
            }
        }
        if literal(re) {
            assert forall|i: int| 0 <= i < b.len() implies !header_util::is_regex_meta(
                #[trigger] b[i],
            ) by {
                assert(!is_special(b[i]));
            }
        }
    }
    if hay.len() >= re.len() {
        assert(hay.take(re.len() as int) =~= hay.subrange(0, re.len() as int));
    }
}

/// A pattern without special characters.
pub open spec fn literal(re: Seq<char>) -> bool {
    &&& encode_utf8(re).len() > 0
    &&& forall|i: int| 0 <= i < encode_utf8(re).len() ==> !is_special(#[trigger] encode_utf8(re)[i])
}

/// A port behind a host plays no part: a host with `:` and digits behind it counts as the host
/// alone, and one without stays as it is.
pub proof fn law_host_without_port(host: Seq<char>, port: Seq<char>)
    requires
        port.len() > 0,
        forall|i: int| 0 <= i < port.len() ==> '0' <= #[trigger] port[i] <= '9',
    ensures
        header_util::without_port(host + seq![':'] + port) == host,
        !host.contains(':') ==> header_util::without_port(host) == host,
{
    let h = host + seq![':'] + port;
    let n = host.len() as int;
    text::lemma_rfind(h, ':');
    text::lemma_rfind(host, ':');
    assert(h[n] == ':');
    let k = text::rfind(h, ':');
    if k > n {
        assert(h[k] == port[k - n - 1]);
    }
    assert(k == n);
    assert(h.skip(n + 1) =~= port);
    assert(h.take(n) =~= host);
    if !host.contains(':') && text::rfind(host, ':') >= 0 {
        assert(host.contains(host[text::rfind(host, ':')]));
    }
}

// ---------------------------------------------------------------------------
// Rules
// ---------------------------------------------------------------------------

/// The first rule that fails is one that is broken, none before it is, and no rule fails where none
/// is broken. An inverted rule is broken exactly where the rule itself is kept.
pub proof fn law_first_broken_rule(
    rules: Seq<FastValidateRule>,
    hs: Seq<Field>,
    target: Seq<char>,
    body: Option<Seq<u8>>,
)
    ensures
        match fast_proxy::first_failed(rules, 0, hs, target, body) {
            Some(k) => {
                &&& 0 <= k < rules.len()
                &&& fast_proxy::rule_holds(rules[k], hs, target, body) == rules[k].invert
                &&& forall|i: int|
                    0 <= i < k ==> fast_proxy::rule_holds(#[trigger] rules[i], hs, target, body)
                        != rules[i].invert
            },
            None => forall|i: int|
                0 <= i < rules.len() ==> fast_proxy::rule_holds(
                    #[trigger] rules[i],
                    hs,
                    target,
                    body,
                ) != rules[i].invert,
        },
{
    lemma_first_failed(rules, 0, hs, target, body);
}

proof fn lemma_first_failed(
    rules: Seq<FastValidateRule>,
    from: int,
    hs: Seq<Field>,
    target: Seq<char>,
    body: Option<Seq<u8>>,
)
    requires
        0 <= from <= rules.len(),
    ensures
        match fast_proxy::first_failed(rules, from, hs, target, body) {
            Some(k) => {
                &&& from <= k < rules.len()
                &&& fast_proxy::rule_holds(rules[k], hs, target, body) == rules[k].invert
                &&& forall|i: int|
                    from <= i < k ==> fast_proxy::rule_holds(#[trigger] rules[i], hs, target, body)
                        != rules[i].invert
            },
            None => forall|i: int|
                from <= i < rules.len() ==> fast_proxy::rule_holds(
                    #[trigger] rules[i],
                    hs,
                    target,
                    body,
                ) != rules[i].invert,
        },
    decreases rules.len() - from,
{
    if from < rules.len() && fast_proxy::rule_holds(rules[from], hs, target, body)
        != rules[from].invert {
        lemma_first_failed(rules, from + 1, hs, target, body);
    }
}

/// A rule on a header asks for a field of its name, up to case, and, where it has a pattern, for a
/// value that is text and matches.
pub proof fn law_header_rule(
    rule: FastValidateRule,
    hs: Seq<Field>,
    target: Seq<char>,
    body: Option<Seq<u8>>,
)
    requires
        rule.rule_type == config::ValidateType::Header,
        forall|i: int| 0 <= i < hs.len() ==> (#[trigger] hs[i]).name.len() > 0,
    ensures
        fast_proxy::rule_holds(rule, hs, target, body) <==> exists|i: int|
            0 <= i < hs.len() && text::eq_ci(
                (#[trigger] hs[i]).name,
                encode_utf8(rule.name@),
            ) && (rule.matcher matches Some(m) ==> valid_utf8(hs[i].value) && m.matches(
                decode_utf8(hs[i].value),
            )),
{
    lemma_leading(hs);
    if fast_proxy::rule_holds(rule, hs, target, body) {
        let i = choose|i: int|
            0 <= i < hs.len() && #[trigger] fast_proxy::header_field_passes(
                hs[i],
                rule.name@,
                rule.matcher,
            );
        assert(text::eq_ci(hs[i].name, encode_utf8(rule.name@)));
    }
    if exists|i: int|
        0 <= i < hs.len() && text::eq_ci((#[trigger] hs[i]).name, encode_utf8(rule.name@)) && (
        rule.matcher matches Some(m) ==> valid_utf8(hs[i].value) && m.matches(
            decode_utf8(hs[i].value),
        )) {
        let i = choose|i: int|
            0 <= i < hs.len() && text::eq_ci((#[trigger] hs[i]).name, encode_utf8(rule.name@)) && (
            rule.matcher matches Some(m) ==> valid_utf8(hs[i].value) && m.matches(
                decode_utf8(hs[i].value),
            ));
        assert(fast_proxy::header_field_passes(hs[i], rule.name@, rule.matcher));
    }
}

proof fn lemma_leading(hs: Seq<Field>)
    requires
        forall|i: int| 0 <= i < hs.len() ==> (#[trigger] hs[i]).name.len() > 0,
    ensures
        fast_proxy::leading(hs) == hs,
    decreases hs.len(),
{
    if hs.len() > 0 {
        let t = hs.drop_first();
        assert forall|i: int| 0 <= i < t.len() implies (#[trigger] t[i]).name.len() > 0 by {
            assert(t[i] == hs[i + 1]);
        }
        lemma_leading(t);
        assert(hs[0].name.len() > 0);
        assert(seq![hs[0]] + t =~= hs);
    }
}

/// A rule on a query parameter asks for one of its name among those behind the `?`, parted by `&`,
/// and, where it has a pattern, for a value that matches. Without a query it is not kept.
pub proof fn law_query_rule(
    rule: FastValidateRule,
    hs: Seq<Field>,
    target: Seq<char>,
    body: Option<Seq<u8>>,
)
    requires
        rule.rule_type == config::ValidateType::Query,
        !rule.name@.contains('='),
    ensures
        !target.contains('?') ==> !fast_proxy::rule_holds(rule, hs, target, body),
        target.contains('?') ==> (fast_proxy::rule_holds(rule, hs, target, body) <==> exists|i: int|
            0 <= i < text::split(behind_question_mark(target), '&').len() && param_kept(
                #[trigger] text::split(behind_question_mark(target), '&')[i],
                rule.name@,
                rule.matcher,
            )),
{
    text::lemma_find(target, '?');
    let q = behind_question_mark(target);
    let ps = text::split(q, '&');
    assert forall|i: int| 0 <= i < ps.len() implies fast_proxy::part_passes(
        #[trigger] ps[i],
        rule.name@,
        rule.matcher,
        true,
    ) == param_kept(ps[i], rule.name@, rule.matcher) by {
        lemma_name_value(ps[i], rule.name@);
    }
    if target.contains('?') {
        if fast_proxy::rule_holds(rule, hs, target, body) {
            let i = choose|i: int|
                0 <= i < ps.len() && #[trigger] fast_proxy::part_passes(
                    ps[i],
                    rule.name@,
                    rule.matcher,
                    true,
                );
            assert(param_kept(ps[i], rule.name@, rule.matcher));
        }
        if exists|i: int|
            0 <= i < ps.len() && param_kept(#[trigger] ps[i], rule.name@, rule.matcher) {
            let i = choose|i: int|
                0 <= i < ps.len() && param_kept(#[trigger] ps[i], rule.name@, rule.matcher);
            assert(fast_proxy::part_passes(ps[i], rule.name@, rule.matcher, true));
        }
    }
}

/// Whether a parameter has a name and a value that matches; a name alone has the empty value.
pub open spec fn param_kept(part: Seq<char>, name: Seq<char>, m: Option<Matcher>) -> bool {
    ||| part == name && (m matches Some(x) ==> x.matches(seq![]))
    ||| name.push('=').is_prefix_of(part) && (m matches Some(x) ==> x.matches(
        part.skip(name.len() as int + 1),
    ))
}

/// A rule on a form field holds if the body is text and one of its parts gives that field a value that
/// fits.
pub proof fn law_post_rule(
    rule: FastValidateRule,
    hs: Seq<Field>,
    target: Seq<char>,
    body: Seq<u8>,
)
    requires
        rule.rule_type == config::ValidateType::Post,
        !rule.name@.contains('='),
    ensures
        !fast_proxy::rule_holds(rule, hs, target, None),
        !valid_utf8(body) ==> !fast_proxy::rule_holds(rule, hs, target, Some(body)),
        valid_utf8(body) ==> (fast_proxy::rule_holds(rule, hs, target, Some(body)) <==> exists|i: int|
            0 <= i < text::split(decode_utf8(body), '&').len() && param_kept(
                #[trigger] text::split(decode_utf8(body), '&')[i],
                rule.name@,
                rule.matcher,
            )),
{
    let ps = text::split(decode_utf8(body), '&');
    assert forall|i: int| 0 <= i < ps.len() implies fast_proxy::part_passes(
        #[trigger] ps[i],
        rule.name@,
        rule.matcher,
        true,
    ) == param_kept(ps[i], rule.name@, rule.matcher) by {
        lemma_name_value(ps[i], rule.name@);
    }
    if fast_proxy::rule_holds(rule, hs, target, Some(body)) {
        let i = choose|i: int|
            0 <= i < ps.len() && #[trigger] fast_proxy::part_passes(
                ps[i],
                rule.name@,
                rule.matcher,
                true,
            );
        assert(param_kept(ps[i], rule.name@, rule.matcher));
    }
    if valid_utf8(body) && exists|i: int|
        0 <= i < ps.len() && param_kept(#[trigger] ps[i], rule.name@, rule.matcher) {
        let i = choose|i: int|
            0 <= i < ps.len() && param_kept(#[trigger] ps[i], rule.name@, rule.matcher);
        assert(fast_proxy::part_passes(ps[i], rule.name@, rule.matcher, true));
    }
}

/// Whether a cookie, as it stands between two semicolons, has a name and a value that fits.
pub open spec fn cookie_kept(part: Seq<char>, name: Seq<char>, m: Option<Matcher>) -> bool {
    &&& name.push('=').is_prefix_of(text::trim(part))
    &&& m matches Some(x) ==> x.matches(text::trim(part).skip(name.len() as int + 1))
}

/// A rule on a cookie holds if some `Cookie` field that is text has a cookie of that name, with an
/// equals sign and a value that fits.
pub proof fn law_cookie_rule(
    rule: FastValidateRule,
    hs: Seq<Field>,
    target: Seq<char>,
    body: Option<Seq<u8>>,
)
    requires
        rule.rule_type == config::ValidateType::Cookie,
        !rule.name@.contains('='),
        forall|i: int| 0 <= i < hs.len() ==> (#[trigger] hs[i]).name.len() > 0,
    ensures
        fast_proxy::rule_holds(rule, hs, target, body) <==> exists|i: int, k: int|
            0 <= i < hs.len() && text::eq_ci(hs[i].name, "cookie".spec_bytes()) && valid_utf8(
                hs[i].value,
            ) && 0 <= k < text::split(decode_utf8(hs[i].value), ';').len() && cookie_kept(
                #[trigger] text::split(decode_utf8(hs[i].value), ';')[k],
                rule.name@,
                rule.matcher,
            ),
{
    lemma_leading(hs);
    assert forall|p: Seq<char>| #[trigger] cookie_kept(p, rule.name@, rule.matcher)
        == fast_proxy::part_passes(text::trim(p), rule.name@, rule.matcher, false) by {
        lemma_name_value(text::trim(p), rule.name@);
        text::lemma_find(text::trim(p), '=');
        let t = text::trim(p);
        let n = rule.name@;
        if n.push('=').is_prefix_of(t) {
            assert(t[n.len() as int] == n.push('=')[n.len() as int]);
        }
        if t == n && text::find(t, '=') < t.len() {
            assert(t.contains(t[text::find(t, '=')]));
        }
    }
    if fast_proxy::rule_holds(rule, hs, target, body) {
        let i = choose|i: int|
            0 <= i < hs.len() && #[trigger] fast_proxy::cookie_field_passes(
                hs[i],
                rule.name@,
                rule.matcher,
            );
        let ps = text::split(decode_utf8(hs[i].value), ';');
        let k = choose|k: int|
            0 <= k < ps.len() && #[trigger] fast_proxy::part_passes(
                text::trim(ps[k]),
                rule.name@,
                rule.matcher,
                false,
            );
        assert(cookie_kept(text::split(decode_utf8(hs[i].value), ';')[k], rule.name@, rule.matcher));
    }
    if exists|i: int, k: int|
        0 <= i < hs.len() && text::eq_ci(hs[i].name, "cookie".spec_bytes()) && valid_utf8(hs[i].value)
            && 0 <= k < text::split(decode_utf8(hs[i].value), ';').len() && cookie_kept(
            #[trigger] text::split(decode_utf8(hs[i].value), ';')[k],
            rule.name@,
            rule.matcher,
        ) {
        let (i, k) = choose|i: int, k: int|
            0 <= i < hs.len() && text::eq_ci(hs[i].name, "cookie".spec_bytes()) && valid_utf8(
                hs[i].value,
            ) && 0 <= k < text::split(decode_utf8(hs[i].value), ';').len() && cookie_kept(
                #[trigger] text::split(decode_utf8(hs[i].value), ';')[k],
                rule.name@,
                rule.matcher,
            );
        assert(fast_proxy::part_passes(
            text::trim(text::split(decode_utf8(hs[i].value), ';')[k]),
            rule.name@,
            rule.matcher,
            false,
        ));
        assert(fast_proxy::cookie_field_passes(hs[i], rule.name@, rule.matcher));
    }
}

} // verus!
