//! What the operations on text mean, in terms of the characters themselves.

use vstd::prelude::*;
use vstd::utf8::*;

use crate::text;

verus! {

/// Two names are the same up to case exactly where, byte for byte, they are equal or one is the
/// small letter of the other.
pub proof fn law_case_is_all_that_is_ignored(a: Seq<u8>, b: Seq<u8>)
    ensures
        text::eq_ci(a, b) <==> a.len() == b.len() && forall|i: int|
            #![trigger a[i]]
            #![trigger b[i]]
            0 <= i < a.len() ==> a[i] == b[i] || (65 <= a[i] <= 90 && b[i] == a[i] + 32) || (65
                <= b[i] <= 90 && a[i] == b[i] + 32),
{
    if text::eq_ci(a, b) {
        assert forall|i: int|
            #![trigger a[i]]
            #![trigger b[i]]
            0 <= i < a.len() implies a[i] == b[i] || (65 <= a[i] <= 90 && b[i] == a[i] + 32) || (65
            <= b[i] <= 90 && a[i] == b[i] + 32) by {
            assert(text::lower(a[i]) == text::lower(b[i]));
        }
    }
}

/// Cutting at a separator and putting it back between the parts gives the text again, and no part
/// holds the separator.
pub proof fn law_parts_make_up_the_text<T>(s: Seq<T>, c: T)
    ensures
        text::split(s, c).len() > 0,
        put_together(text::split(s, c), c) == s,
        forall|i: int| 0 <= i < text::split(s, c).len() ==> !(#[trigger] text::split(s, c)[i]).contains(c),
    decreases s.len(),
{
    text::lemma_find(s, c);
    let k = text::find(s, c);
    let ps = text::split(s, c);
    if k < s.len() {
        let rest = s.skip(k + 1);
        law_parts_make_up_the_text(rest, c);
        assert(ps[0] == s.take(k));
        assert(ps.drop_first() =~= text::split(rest, c));
        assert(s.take(k) + seq![c] + rest =~= s);
        assert forall|i: int| 0 <= i < ps.len() implies !(#[trigger] ps[i]).contains(c) by {
            if i > 0 {
                assert(ps[i] == text::split(rest, c)[i - 1]);
            }
        }
    } else {
        assert(ps =~= seq![s]);
        assert(ps[0] == s);
    }
}

/// Some parts with a separator between them.
pub open spec fn put_together<T>(ps: Seq<Seq<T>>, c: T) -> Seq<T>
    decreases ps.len(),
{
    if ps.len() == 0 {
        seq![]
    } else if ps.len() == 1 {
        ps[0]
    } else {
        ps[0] + seq![c] + put_together(ps.drop_first(), c)
    }
}

/// A text without the separator is one part; a separator begins another.
pub proof fn law_separator_parts<T>(a: Seq<T>, c: T, b: Seq<T>)
    requires
        !a.contains(c),
    ensures
        text::split(a, c) == seq![a],
        text::split(a + seq![c] + b, c) == seq![a] + text::split(b, c),
{
    text::lemma_find(a, c);
    assert(text::find(a, c) == a.len());
    let s = a + seq![c] + b;
    assert forall|i: int| 0 <= i < a.len() implies s[i] != c by {
        assert(s[i] == a[i]);
    }
    text::lemma_find_is(s, c, a.len() as int);
    assert(s.take(a.len() as int) =~= a);
    assert(s.skip(a.len() as int + 1) =~= b);
}

/// The ASCII characters that count as blank: the blank itself, and those from the tab to the
/// carriage return.
pub proof fn law_blank_characters(c: char)
    requires
        (c as u32) < 128,
    ensures
        text::is_whitespace(c) <==> c == ' ' || c == '\t' || c == '\n' || c == '\r' || c == '\u{b}'
            || c == '\u{c}',
{
}

/// Trimming takes blanks from both ends, all of them, and nothing else.
pub proof fn law_trim_takes_blanks_only(s: Seq<char>) -> (r: (int, int))
    ensures
        0 <= r.0 <= r.1 <= s.len(),
        text::trim(s) == s.subrange(r.0, r.1),
        forall|i: int| 0 <= i < r.0 ==> text::is_whitespace(#[trigger] s[i]),
        forall|i: int| r.1 <= i < s.len() ==> text::is_whitespace(#[trigger] s[i]),
        text::trim(s).len() > 0 ==> !text::is_whitespace(text::trim(s)[0]) && !text::is_whitespace(
            text::trim(s).last(),
        ),
{
    let a = lemma_trim_start(s);
    let t = text::trim_start(s);
    let b = lemma_trim_end(t);
    assert(text::trim(s) =~= s.subrange(a, a + b));
    assert forall|i: int| a + b <= i < s.len() implies text::is_whitespace(#[trigger] s[i]) by {
        assert(t[i - a] == s[i]);
    }
    if b > 0 {
        assert(text::trim(s)[0] == t[0]);
    }
    (a, a + b)
}

proof fn lemma_trim_start(s: Seq<char>) -> (k: int)
    ensures
        0 <= k <= s.len(),
        text::trim_start(s) == s.skip(k),
        forall|i: int| 0 <= i < k ==> text::is_whitespace(#[trigger] s[i]),
        k < s.len() ==> !text::is_whitespace(s[k]),
    decreases s.len(),
{
    if s.len() > 0 && text::is_whitespace(s[0]) {
        let t = s.drop_first();
        let k = lemma_trim_start(t);
        assert(t.skip(k) =~= s.skip(k + 1));
        assert forall|i: int| 0 <= i < k + 1 implies text::is_whitespace(#[trigger] s[i]) by {
            if i > 0 {
                assert(t[i - 1] == s[i]);
            }
        }
        if k < t.len() {
            assert(t[k] == s[k + 1]);
        }
        k + 1
    } else {
        assert(s.skip(0) =~= s);
        0
    }
}

proof fn lemma_trim_end(s: Seq<char>) -> (k: int)
    ensures
        0 <= k <= s.len(),
        text::trim_end(s) == s.take(k),
        forall|i: int| k <= i < s.len() ==> text::is_whitespace(#[trigger] s[i]),
        k > 0 ==> !text::is_whitespace(s[k - 1]),
    decreases s.len(),
{
    if s.len() > 0 && text::is_whitespace(s.last()) {
        let t = s.drop_last();
        let k = lemma_trim_end(t);
        assert(t.take(k) =~= s.take(k));
        assert forall|i: int| k <= i < s.len() implies text::is_whitespace(#[trigger] s[i]) by {
            if i < t.len() {
                assert(t[i] == s[i]);
            }
        }
        k
    } else {
        assert(s.take(s.len() as int) =~= s);
        s.len() as int
    }
}

/// A word is a run of characters without a blank; blanks, however many, part it from the next.
pub proof fn law_words_are_parted_by_blanks(w: Seq<char>, c: char, rest: Seq<char>)
    requires
        w.len() > 0,
        forall|i: int| 0 <= i < w.len() ==> !text::is_whitespace(#[trigger] w[i]),
        text::is_whitespace(c),
    ensures
        text::words(seq![]) == Seq::<Seq<char>>::empty(),
        text::words(w) == seq![w],
        text::words(w + seq![c] + rest) == seq![w] + text::words(rest),
        text::words(seq![c] + rest) == text::words(rest),
{
    let none = Seq::<char>::empty();
    assert(text::words(none) =~= Seq::<Seq<char>>::empty());
    lemma_word_len(w, none);
    assert(w + none =~= w);
    assert(w.take(w.len() as int) =~= w);
    assert(w.skip(w.len() as int) =~= none);
    assert(text::words(w) =~= seq![w]);
    let tail = seq![c] + rest;
    let s = w + seq![c] + rest;
    assert(s =~= w + tail);
    lemma_word_len(w, tail);
    assert(s.take(w.len() as int) =~= w);
    assert(s.skip(w.len() as int) =~= tail);
    assert(tail.drop_first() =~= rest);
    assert(text::trim_start(tail) == text::trim_start(rest));
    lemma_words_of_trimmed(tail, rest);
}

proof fn lemma_words_of_trimmed(a: Seq<char>, b: Seq<char>)
    requires
        text::trim_start(a) == text::trim_start(b),
    ensures
        text::words(a) == text::words(b),
{
    reveal_with_fuel(text::words, 2);
}

proof fn lemma_word_len(w: Seq<char>, tail: Seq<char>)
    requires
        forall|i: int| 0 <= i < w.len() ==> !text::is_whitespace(#[trigger] w[i]),
        tail.len() > 0 ==> text::is_whitespace(tail[0]),
    ensures
        text::word_len(w + tail) == w.len(),
        w.len() > 0 ==> text::trim_start(w + tail) == w + tail,
    decreases w.len(),
{
    if w.len() > 0 {
        assert((w + tail)[0] == w[0]);
        assert((w + tail).drop_first() =~= w.drop_first() + tail);
        assert forall|i: int| 0 <= i < w.drop_first().len() implies !text::is_whitespace(
            #[trigger] w.drop_first()[i],
        ) by {
            assert(w.drop_first()[i] == w[i + 1]);
        }
        lemma_word_len(w.drop_first(), tail);
    } else {
        assert(w + tail =~= tail);
    }
}

/// The value of each digit, in the radix in which it is one.
pub proof fn law_digits(b: u8)
    ensures
        text::digit(b, 10) == (if 48 <= b <= 57 {
            Some((b - 48) as nat)
        } else {
            None
        }),
        text::digit(b, 16) == (if 48 <= b <= 57 {
            Some((b - 48) as nat)
        } else if 97 <= b <= 102 {
            Some((b - 97 + 10) as nat)
        } else if 65 <= b <= 70 {
            Some((b - 65 + 10) as nat)
        } else {
            None
        }),
{
}

/// A number written in decimal digits reads back as that number, with or without a plus sign, unless
/// it exceeds the limit.
pub proof fn law_decimal_reads_back(n: nat, max: nat)
    ensures
        encode_utf8(text::decimal(n)) == text::decimal_bytes(n),
        forall|i: int|
            0 <= i < text::decimal_bytes(n).len() ==> 48 <= #[trigger] text::decimal_bytes(n)[i]
                <= 57,
        text::parse_digits(text::decimal_bytes(n), 10, max) == (if n <= max {
            Some(n)
        } else {
            None
        }),
        text::parse_unsigned(text::decimal_bytes(n), 10, max) == (if n <= max {
            Some(n)
        } else {
            None
        }),
        text::parse_unsigned(seq![43u8] + text::decimal_bytes(n), 10, max) == (if n <= max {
            Some(n)
        } else {
            None
        }),
        text::parse_signed(seq![45u8] + text::decimal_bytes(n), max) == (if n <= max + 1 {
            Some(-(n as int))
        } else {
            None
        }),
{
    lemma_decimal(n);
    let d = text::decimal(n);
    assert forall|i: int| 0 <= i < d.len() implies '\0' <= #[trigger] d[i] <= '\u{7f}' by {
        assert('0' <= text::decimal(n)[i] <= '9');
    }
    is_ascii_chars_encode_utf8(d);
    assert(encode_utf8(text::decimal(n)) =~= text::decimal_bytes(n));
    assert((seq![43u8] + text::decimal_bytes(n)).drop_first() =~= text::decimal_bytes(n));
    assert((seq![45u8] + text::decimal_bytes(n)).drop_first() =~= text::decimal_bytes(n));
}

proof fn lemma_decimal(n: nat)
    ensures
        text::decimal(n).len() == text::decimal_bytes(n).len(),
        text::decimal_bytes(n).len() > 0,
        forall|i: int|
            0 <= i < text::decimal(n).len() ==> '0' <= #[trigger] text::decimal(n)[i] <= '9'
                && text::decimal(n)[i] as u8 == text::decimal_bytes(n)[i],
        forall|i: int|
            0 <= i < text::decimal_bytes(n).len() ==> 48 <= #[trigger] text::decimal_bytes(n)[i]
                <= 57,
        text::digits_value(text::decimal_bytes(n), 10) == Some(n),
    decreases n,
{
    let b = text::decimal_bytes(n);
    if n < 10 {
        assert(b.drop_last() =~= Seq::<u8>::empty());
        assert(b.last() == (48 + n) as u8);
        assert(text::digits_value(Seq::<u8>::empty(), 10) == Some(0nat));
    } else {
        lemma_decimal(n / 10);
        assert(b.drop_last() =~= text::decimal_bytes(n / 10));
        assert(b.last() == (48 + n % 10) as u8);
    }
}

/// In any run of digits each further digit counts for itself and makes those before it worth the
/// radix times as much.
pub proof fn law_digits_have_places(b: Seq<u8>, d: u8, radix: nat)
    ensures
        text::digits_value(b.push(d), radix) == match (
            text::digits_value(b, radix),
            text::digit(d, radix),
        ) {
            (Some(v), Some(k)) => Some(v * radix + k),
            _ => None,
        },
{
    assert(b.push(d).drop_last() =~= b);
}

proof fn lemma_digits_only(b: Seq<u8>, radix: nat)
    ensures
        text::digits_value(b, radix) is Some ==> forall|i: int|
            0 <= i < b.len() ==> text::digit(#[trigger] b[i], radix) is Some,
    decreases b.len(),
{
    if b.len() > 0 && text::digits_value(b, radix) is Some {
        let init = b.drop_last();
        lemma_digits_only(init, radix);
        assert forall|i: int| 0 <= i < b.len() implies text::digit(#[trigger] b[i], radix)
            is Some by {
            if i < b.len() - 1 {
                assert(b[i] == init[i]);
            }
        }
    }
}

/// Nothing but digits makes a number, at least one of them, and none above the limit; before them an
/// unsigned number may have a plus sign, and a signed one a minus sign too.
pub proof fn law_only_digits_make_a_number(b: Seq<u8>, radix: nat, max: nat)
    ensures
        text::parse_digits(b, radix, max) matches Some(v) ==> b.len() > 0 && v <= max && forall|i: int|
            0 <= i < b.len() ==> text::digit(#[trigger] b[i], radix) is Some,
        text::parse_unsigned(seq!['+' as u8] + b, radix, max) == text::parse_digits(b, radix, max),
        b.len() == 0 || b[0] != '+' as u8 ==> text::parse_unsigned(b, radix, max)
            == text::parse_digits(b, radix, max),
        b.len() == 0 || b[0] != '-' as u8 ==> (text::parse_signed(b, max) is Some
            <==> text::parse_unsigned(b, 10, max) is Some),
        text::parse_unsigned(b, 10, max) matches Some(v) ==> (b[0] != '-' as u8 ==> text::parse_signed(
            b,
            max,
        ) == Some(v as int)),
{
    lemma_digits_only(b, radix);
    assert((seq!['+' as u8] + b).drop_first() =~= b);
}

} // verus!
