//! What becomes of a request target.

use vstd::prelude::*;

use crate::path;
use crate::text;

verus! {

/// The value of a hexadecimal digit, -1 where a byte is none.
pub open spec fn hex(b: u8) -> int {
    if '0' as u8 <= b <= '9' as u8 {
        b - '0' as u8
    } else if 'a' as u8 <= b <= 'f' as u8 {
        b - 'a' as u8 + 10
    } else if 'A' as u8 <= b <= 'F' as u8 {
        b - 'A' as u8 + 10
    } else {
        -1
    }
}

/// A segment of a path that stays: it is not empty, not one dot and not two, and holds no slash.
pub open spec fn stays(s: Seq<u8>) -> bool {
    &&& s.len() > 0
    &&& s != seq!['.' as u8]
    &&& s != seq!['.' as u8, '.' as u8]
    &&& !s.contains('/' as u8)
}

proof fn lemma_kept_escape(h: u8, l: u8, rest: Seq<u8>)
    requires
        h != '%' as u8,
        l != '%' as u8,
        path::escape(seq!['%' as u8, h, l] + rest) is None,
    ensures
        path::decode(seq!['%' as u8, h, l] + rest) == seq!['%' as u8, h, l] + path::decode(rest),
{
    let e = seq!['%' as u8, h, l] + rest;
    let f = seq![h, l] + rest;
    let g = seq![l] + rest;
    assert(e.skip(1) =~= f);
    assert(f.skip(1) =~= g);
    assert(g.skip(1) =~= rest);
    assert(path::decode(g) == seq![l] + path::decode(rest));
    assert(path::decode(f) == seq![h] + path::decode(g));
    assert(path::decode(e) == seq!['%' as u8] + path::decode(f));
    assert(path::decode(e) =~= seq!['%' as u8, h, l] + path::decode(rest));
}

/// Escapes of letters, digits, `-`, `.`, `_` and `~` are read; every other escape, and a percent
/// sign that begins none, is kept as it is written, and so is every other byte.
pub proof fn law_escapes_are_read(b: u8, h: u8, l: u8, rest: Seq<u8>)
    ensures
        b != '%' as u8 ==> path::decode(seq![b] + rest) == seq![b] + path::decode(rest),
        hex(h) >= 0 && hex(l) >= 0 && b == hex(h) * 16 + hex(l) && ('0' as u8 <= b <= '9' as u8
            || 'A' as u8 <= b <= 'Z' as u8 || 'a' as u8 <= b <= 'z' as u8 || b == '-' as u8 || b
            == '.' as u8 || b == '_' as u8 || b == '~' as u8) ==> path::decode(
            seq!['%' as u8, h, l] + rest,
        ) == seq![b] + path::decode(rest),
        hex(h) >= 0 && hex(l) >= 0 && b == hex(h) * 16 + hex(l) && !('0' as u8 <= b <= '9' as u8
            || 'A' as u8 <= b <= 'Z' as u8 || 'a' as u8 <= b <= 'z' as u8 || b == '-' as u8 || b
            == '.' as u8 || b == '_' as u8 || b == '~' as u8) ==> path::decode(
            seq!['%' as u8, h, l] + rest,
        ) == seq!['%' as u8, h, l] + path::decode(rest),
        rest.len() < 2 || hex(rest[0]) < 0 || hex(rest[1]) < 0 ==> path::decode(
            seq!['%' as u8] + rest,
        ) == seq!['%' as u8] + path::decode(rest),
{
    if b != '%' as u8 {
        assert((seq![b] + rest).skip(1) =~= rest);
    }
    if hex(h) >= 0 && hex(l) >= 0 && b == hex(h) * 16 + hex(l) {
        let e = seq!['%' as u8, h, l] + rest;
        assert(e.skip(3) =~= rest);
        assert(e[0] == '%' as u8 && e[1] == h && e[2] == l);
        assert(text::digit(h, 16) == Some(hex(h) as nat));
        assert(text::digit(l, 16) == Some(hex(l) as nat));
        if path::escape(e) is None {
            lemma_kept_escape(h, l, rest);
        }
    }
    if rest.len() < 2 || hex(rest[0]) < 0 || hex(rest[1]) < 0 {
        let e = seq!['%' as u8] + rest;
        assert(e.skip(1) =~= rest);
        if e.len() > 2 {
            assert(e[1] == rest[0] && e[2] == rest[1]);
        }
        assert(path::escape(e) is None);
    }
}

proof fn lemma_split_add(a: Seq<u8>, b: Seq<u8>)
    ensures
        text::split(a + seq![path::SLASH] + b, path::SLASH) == text::split(a, path::SLASH)
            + text::split(b, path::SLASH),
    decreases a.len(),
{
    let c = path::SLASH;
    let whole = a + seq![c] + b;
    text::lemma_find(a, c);
    let f = text::find(a, c);
    if f < a.len() {
        text::lemma_find_is(whole, c, f);
        lemma_split_add(a.skip(f + 1), b);
        assert(whole.take(f) =~= a.take(f));
        assert(whole.skip(f + 1) =~= a.skip(f + 1) + seq![c] + b);
        assert(text::split(whole, c) =~= text::split(a, c) + text::split(b, c));
    } else {
        text::lemma_find_is(whole, c, a.len() as int);
        assert(whole.take(a.len() as int) =~= a);
        assert(whole.skip(a.len() as int + 1) =~= b);
    }
}

proof fn lemma_walk_add(kept: Seq<Seq<u8>>, a: Seq<Seq<u8>>, b: Seq<Seq<u8>>)
    ensures
        path::walk(kept, a + b) == path::walk(path::walk(kept, a), b),
    decreases a.len(),
{
    if a.len() == 0 {
        assert(a + b =~= b);
    } else {
        assert((a + b).drop_first() =~= a.drop_first() + b);
        lemma_walk_add(path::step(kept, a[0]), a.drop_first(), b);
    }
}

proof fn lemma_walk_one(kept: Seq<Seq<u8>>, s: Seq<u8>)
    ensures
        path::walk(kept, seq![s]) == path::step(kept, s),
{
    reveal_with_fuel(path::walk, 2);
    assert(seq![s].drop_first() =~= Seq::<Seq<u8>>::empty());
}

proof fn lemma_split_nonempty(s: Seq<u8>)
    ensures
        text::split(s, path::SLASH).len() > 0,
{
}

/// What is kept of a path after one more slash and some more.
proof fn lemma_canonical_add(p: Seq<u8>, q: Seq<u8>)
    requires
        p.len() > 0,
    ensures
        ({
            let k = path::walk(path::walk(seq![], path::segments(p)), text::split(q, path::SLASH));
            path::canonical(p + seq![path::SLASH] + q) == path::join(k) + (if path::special(
                text::split(q, path::SLASH).last(),
            ) {
                seq![path::SLASH]
            } else {
                seq![]
            })
        }),
{
    let w = p + seq![path::SLASH] + q;
    assert(w.skip(1) =~= p.skip(1) + seq![path::SLASH] + q);
    lemma_split_add(p.skip(1), q);
    lemma_walk_add(seq![], path::segments(p), text::split(q, path::SLASH));
    lemma_split_nonempty(q);
    assert(path::segments(w).last() == text::split(q, path::SLASH).last());
}

proof fn lemma_split_plain(s: Seq<u8>)
    requires
        !s.contains(path::SLASH),
    ensures
        text::split(s, path::SLASH) == seq![s],
{
    text::lemma_find(s, path::SLASH);
}

proof fn lemma_stays(s: Seq<u8>)
    requires
        stays(s),
    ensures
        !path::special(s),
        !s.contains(path::SLASH),
{
    if s.len() == 1 && s[0] == path::DOT {
        assert(s =~= seq!['.' as u8]);
    }
    if path::dot_dot(s) {
        assert(s =~= seq!['.' as u8, '.' as u8]);
    }
}

/// How segments are resolved, wherever they stand in a path. One that stays is put behind what is
/// before it. `.` and an empty segment count for nothing. `..` takes the segment before it away, and
/// at the root it counts for nothing. Whatever follows is then resolved as if they had not been
/// there.
pub proof fn law_dots_are_resolved(p: Seq<u8>, s: Seq<u8>, q: Seq<u8>)
    requires
        p.len() > 0,
        stays(s),
    ensures
        ({
            let slash = seq!['/' as u8];
            let dot = seq!['.' as u8];
            let dots = seq!['.' as u8, '.' as u8];
            &&& path::canonical(slash) == slash
            &&& path::canonical(slash + s) == slash + s
            &&& path::canonical(p + slash + s) == path::canonical(p + slash) + s
            &&& path::canonical(p + slash + dot) == path::canonical(p + slash)
            &&& path::canonical(p + slash + s + slash + dots) == path::canonical(p + slash)
            &&& path::canonical(slash + dots) == slash
            &&& path::canonical(p + slash + slash + q) == path::canonical(p + slash + q)
            &&& path::canonical(p + slash + dot + slash + q) == path::canonical(p + slash + q)
            &&& path::canonical(p + slash + s + slash + dots + slash + q) == path::canonical(
                p + slash + q,
            )
            &&& path::canonical(slash + dots + slash + q) == path::canonical(slash + q)
        }),
{
    let slash = seq!['/' as u8];
    let dot = seq!['.' as u8];
    let dots = seq!['.' as u8, '.' as u8];
    let e = Seq::<u8>::empty();
    let k = path::walk(seq![], path::segments(p));
    assert(slash =~= seq![path::SLASH]);
    lemma_stays(s);
    lemma_split_plain(s);
    lemma_split_plain(e);
    lemma_split_plain(dot);
    lemma_split_plain(dots);
    // The root.
    assert(slash.skip(1) =~= e);
    lemma_walk_one(seq![], e);
    assert(path::join(Seq::<Seq<u8>>::empty()) =~= e);
    assert(path::canonical(slash) =~= slash);
    assert((slash + s).skip(1) =~= s);
    lemma_walk_one(seq![], s);
    reveal_with_fuel(path::join, 2);
    assert(Seq::<Seq<u8>>::empty().push(s).drop_last() =~= Seq::<Seq<u8>>::empty());
    assert(path::canonical(slash + s) =~= slash + s);
    assert((slash + dots).skip(1) =~= dots);
    lemma_walk_one(seq![], dots);
    assert(path::canonical(slash + dots) =~= slash);
    // At the end.
    lemma_canonical_add(p, e);
    assert(p + seq![path::SLASH] + e =~= p + slash);
    lemma_walk_one(k, e);
    lemma_canonical_add(p, s);
    lemma_walk_one(k, s);
    assert(k.push(s).drop_last() =~= k);
    assert(path::canonical(p + slash + s) =~= path::canonical(p + slash) + s);
    lemma_canonical_add(p, dot);
    lemma_walk_one(k, dot);
    lemma_split_add(s, dots);
    lemma_walk_add(k, seq![s], seq![dots]);
    lemma_walk_one(k.push(s), dots);
    lemma_canonical_add(p, s + slash + dots);
    assert(p + slash + (s + slash + dots) =~= p + slash + s + slash + dots);
    // With more behind.
    let qs = text::split(q, path::SLASH);
    lemma_split_nonempty(q);
    lemma_canonical_add(p, q);
    lemma_split_add(e, q);
    lemma_walk_add(k, seq![e], qs);
    assert((seq![e] + qs).last() == qs.last());
    lemma_canonical_add(p, e + slash + q);
    assert(p + slash + (e + slash + q) =~= p + slash + slash + q);
    lemma_split_add(dot, q);
    lemma_walk_add(k, seq![dot], qs);
    lemma_canonical_add(p, dot + slash + q);
    assert(p + slash + (dot + slash + q) =~= p + slash + dot + slash + q);
    lemma_split_add(s + slash + dots, q);
    lemma_walk_add(k, seq![s] + seq![dots], qs);
    lemma_canonical_add(p, s + slash + dots + slash + q);
    assert(p + slash + (s + slash + dots + slash + q) =~= p + slash + s + slash + dots + slash + q);
    assert((slash + dots + slash + q).skip(1) =~= dots + slash + q);
    assert((slash + q).skip(1) =~= q);
    lemma_split_add(dots, q);
    lemma_walk_add(seq![], seq![dots], qs);
}

/// Of a target, what stands before the first `?` or `#` is decoded and resolved, and what stands
/// from there on is left alone.
pub proof fn law_query_is_left_alone(p: Seq<u8>, q: Seq<u8>)
    requires
        !p.contains('?' as u8),
        !p.contains('#' as u8),
        q.len() == 0 || q[0] == '?' as u8 || q[0] == '#' as u8,
    ensures
        path::normalize(p + q) == path::canonical(path::decode(p)) + q,
{
    lemma_path_ends(p, q);
    assert((p + q).take(p.len() as int) =~= p);
    assert((p + q).skip(p.len() as int) =~= q);
}

proof fn lemma_path_ends(p: Seq<u8>, q: Seq<u8>)
    requires
        !p.contains('?' as u8),
        !p.contains('#' as u8),
        q.len() == 0 || q[0] == '?' as u8 || q[0] == '#' as u8,
    ensures
        path::path_end(p + q) == p.len(),
{
    let t = p + q;
    path::lemma_path_end(t);
    let e = path::path_end(t);
    if e < p.len() {
        assert(p[e] == t[e]);
        assert(p.contains(t[e]));
    }
    if e > p.len() {
        assert(t[p.len() as int] == q[0]);
    }
}

/// A target hides a separator exactly if a backslash, or an escape of a slash or a backslash in
/// either case, stands in its path.
pub proof fn law_hidden_separators(p: Seq<u8>, q: Seq<u8>)
    requires
        !p.contains('?' as u8),
        !p.contains('#' as u8),
        q.len() == 0 || q[0] == '?' as u8 || q[0] == '#' as u8,
    ensures
        path::evasive(p + q) <==> p.contains('\\' as u8) || exists|i: int|
            0 <= i && i + 2 < p.len() && #[trigger] p[i] == '%' as u8 && ((hex(p[i + 1]) == 2 && hex(p[i + 2])
                == 15) || (hex(p[i + 1]) == 5 && hex(p[i + 2]) == 12)),
{
    let t = p + q;
    lemma_path_ends(p, q);
    if path::evasive(t) {
        let i = choose|i: int| 0 <= i < path::path_end(t) && #[trigger] path::evasive_at(t, i);
        assert(t[i] == p[i]);
        if p[i] == '\\' as u8 {
            assert(p.contains('\\' as u8));
        } else {
            assert(t[i + 1] != '?' as u8 && t[i + 2] != '?' as u8);
            assert(t[i + 1] != '#' as u8 && t[i + 2] != '#' as u8);
            if i + 1 >= p.len() {
                assert(t[i + 1] == q[i + 1 - p.len()]);
            } else if i + 2 >= p.len() {
                assert(t[i + 2] == q[i + 2 - p.len()]);
            }
            assert(t[i + 1] == p[i + 1] && t[i + 2] == p[i + 2]);
        }
    }
    if p.contains('\\' as u8) {
        let i = choose|i: int| 0 <= i < p.len() && p[i] == '\\' as u8;
        assert(t[i] == p[i]);
        assert(path::evasive_at(t, i));
    }
    if exists|i: int|
        0 <= i && i + 2 < p.len() && #[trigger] p[i] == '%' as u8 && ((hex(p[i + 1]) == 2 && hex(p[i + 2])
            == 15) || (hex(p[i + 1]) == 5 && hex(p[i + 2]) == 12)) {
        let i = choose|i: int|
            0 <= i && i + 2 < p.len() && #[trigger] p[i] == '%' as u8 && ((hex(p[i + 1]) == 2 && hex(p[i + 2])
                == 15) || (hex(p[i + 1]) == 5 && hex(p[i + 2]) == 12));
        assert(t[i] == p[i] && t[i + 1] == p[i + 1] && t[i + 2] == p[i + 2]);
        assert(path::evasive_at(t, i));
    }
}

/// A target is taken for canonical only if its path has no percent sign, no empty segment, and none
/// that begins with a dot.
pub proof fn law_canonical_at_a_glance(p: Seq<u8>, q: Seq<u8>)
    requires
        !p.contains('?' as u8),
        !p.contains('#' as u8),
        q.len() == 0 || q[0] == '?' as u8 || q[0] == '#' as u8,
    ensures
        path::suspicious(p + q) <==> p.contains('%' as u8) || exists|i: int|
            0 <= i && i + 1 < p.len() && #[trigger] p[i] == '/' as u8 && (p[i + 1] == '/' as u8 || p[i
                + 1] == '.' as u8),
{
    let t = p + q;
    lemma_path_ends(p, q);
    if path::suspicious(t) {
        let i = choose|i: int| 0 <= i < path::path_end(t) && #[trigger] path::suspicious_at(t, i);
        assert(t[i] == p[i]);
        if p[i] == '%' as u8 {
            assert(p.contains('%' as u8));
        } else {
            if i + 1 >= p.len() {
                assert(t[i + 1] == q[i + 1 - p.len()]);
            }
            assert(t[i + 1] == p[i + 1]);
        }
    }
    if p.contains('%' as u8) {
        let i = choose|i: int| 0 <= i < p.len() && p[i] == '%' as u8;
        assert(t[i] == p[i]);
        assert(path::suspicious_at(t, i));
    }
    if exists|i: int|
        0 <= i && i + 1 < p.len() && #[trigger] p[i] == '/' as u8 && (p[i + 1] == '/' as u8 || p[i
            + 1] == '.' as u8) {
        let i = choose|i: int|
            0 <= i && i + 1 < p.len() && #[trigger] p[i] == '/' as u8 && (p[i + 1] == '/' as u8 || p[i
                + 1] == '.' as u8);
        assert(t[i] == p[i] && t[i + 1] == p[i + 1]);
        assert(path::suspicious_at(t, i));
    }
}

} // verus!
