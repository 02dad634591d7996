//! Canonical request targets.
//!
//! Routing, filtering and caching work on the canonical form of a request target, and the same
//! form goes upstream, so that a backend cannot resolve the target into another path than the
//! one that was judged here.

use vstd::prelude::*;
use vstd::string::*;
use vstd::utf8::*;

use crate::text;
use crate::text::push_bytes;

verus! {

/// `%`.
pub const PERCENT: u8 = 0x25;

/// `/`.
pub const SLASH: u8 = 0x2f;

/// `.`.
pub const DOT: u8 = 0x2e;

/// Length of the path part of a target: what stands before the first `?` or `#`.
pub open spec fn path_end(t: Seq<u8>) -> int
    decreases t.len(),
{
    if t.len() == 0 || t[0] == 0x3f || t[0] == 0x23 {
        0
    } else {
        1 + path_end(t.drop_first())
    }
}

/// The path part is as long as it can be without a `?` or `#`.
pub proof fn lemma_path_end(t: Seq<u8>)
    ensures
        0 <= path_end(t) <= t.len(),
        forall|i: int| 0 <= i < path_end(t) ==> t[i] != 0x3f && t[i] != 0x23,
        path_end(t) < t.len() ==> t[path_end(t)] == 0x3f || t[path_end(t)] == 0x23,
    decreases t.len(),
{
    if t.len() > 0 && t[0] != 0x3f && t[0] != 0x23 {
        let r = t.drop_first();
        lemma_path_end(r);
        assert forall|i: int| 0 <= i < path_end(t) implies t[i] != 0x3f && t[i] != 0x23 by {
            if i > 0 {
                assert(t[i] == r[i - 1]);
            }
        }
        if path_end(t) < t.len() {
            assert(t[path_end(t)] == r[path_end(r)]);
        }
    }
}

proof fn lemma_path_end_is(t: Seq<u8>, k: int)
    requires
        0 <= k <= t.len(),
        forall|i: int| 0 <= i < k ==> t[i] != 0x3f && t[i] != 0x23,
        k < t.len() ==> t[k] == 0x3f || t[k] == 0x23,
    ensures
        path_end(t) == k,
{
    lemma_path_end(t);
}

/// Length of the path part of `target`.
fn path_length(target: &[u8]) -> (r: usize)
    ensures
        r == path_end(target@),
        r <= target@.len(),
{
    for i in 0..target.len()
        invariant
            forall|j: int| 0 <= j < i ==> target@[j] != 0x3f && target@[j] != 0x23,
    {
        if target[i] == 0x3f || target[i] == 0x23 {
            proof {
                lemma_path_end_is(target@, i as int);
            }
            return i;
        }
    }
    proof {
        lemma_path_end_is(target@, target@.len() as int);
    }
    target.len()
}

/// Whether position `i` of a target is one that canonicalisation may change: a percent escape,
/// an empty segment or the beginning of a possible dot segment.
pub open spec fn suspicious_at(t: Seq<u8>, i: int) -> bool {
    ||| t[i] == PERCENT
    ||| (t[i] == SLASH && i + 1 < t.len() && (t[i + 1] == SLASH || t[i + 1] == DOT))
}

/// Whether the path part of a target holds anything that canonicalisation may change.
pub open spec fn suspicious(t: Seq<u8>) -> bool {
    exists|i: int| 0 <= i < path_end(t) && #[trigger] suspicious_at(t, i)
}

/// Whether a request target still needs canonicalising. Query and fragment never count.
pub fn needs_path_normalize(target: &[u8]) -> (r: bool)
    ensures
        r == suspicious(target@),
{
    proof {
        lemma_path_end(target@);
    }
    let n: usize = target.len();
    for i in 0..n
        invariant
            n == target@.len(),
            i <= path_end(target@) <= n,
            path_end(target@) < n ==> target@[path_end(target@)] == 0x3f
                || target@[path_end(target@)] == 0x23,
            forall|j: int| 0 <= j < path_end(target@) ==> target@[j] != 0x3f && target@[j] != 0x23,
            forall|j: int| 0 <= j < i ==> !suspicious_at(target@, j),
    {
        let b: u8 = target[i];
        if b == 0x3f || b == 0x23 {
            return false;
        }
        if b == PERCENT {
            assert(suspicious_at(target@, i as int));
            return true;
        }
        if b == SLASH && i + 1 < n && (target[i + 1] == SLASH || target[i + 1] == DOT) {
            assert(suspicious_at(target@, i as int));
            return true;
        }
    }
    false
}

/// Whether position `i` of a target holds a separator that this proxy does not treat as one but
/// an upstream might: a raw backslash, or an escaped slash or backslash.
pub open spec fn evasive_at(t: Seq<u8>, i: int) -> bool {
    ||| t[i] == 0x5c
    ||| (t[i] == PERCENT && i + 2 < t.len() && ((t[i + 1] == 0x32 && (t[i + 2] == 0x46 || t[i + 2]
        == 0x66)) || (t[i + 1] == 0x35 && (t[i + 2] == 0x43 || t[i + 2] == 0x63))))
}

/// Whether the path part of a target holds such a separator.
pub open spec fn evasive(t: Seq<u8>) -> bool {
    exists|i: int| 0 <= i < path_end(t) && #[trigger] evasive_at(t, i)
}

/// Whether the path part of a request target carries a separator evasion. The query is left out:
/// encoded slashes in query values are ordinary.
pub fn path_has_separator_evasion(target: &[u8]) -> (r: bool)
    ensures
        r == evasive(target@),
{
    proof {
        lemma_path_end(target@);
    }
    let n: usize = target.len();
    for i in 0..n
        invariant
            n == target@.len(),
            i <= path_end(target@) <= n,
            path_end(target@) < n ==> target@[path_end(target@)] == 0x3f
                || target@[path_end(target@)] == 0x23,
            forall|j: int| 0 <= j < path_end(target@) ==> target@[j] != 0x3f && target@[j] != 0x23,
            forall|j: int| 0 <= j < i ==> !evasive_at(target@, j),
    {
        let b: u8 = target[i];
        if b == 0x3f || b == 0x23 {
            return false;
        }
        if b == 0x5c {
            assert(evasive_at(target@, i as int));
            return true;
        }
        if b == PERCENT && n - i > 2 {
            let c: u8 = target[i + 1];
            let d: u8 = target[i + 2];
            if (c == 0x32 && (d == 0x46 || d == 0x66)) || (c == 0x35 && (d == 0x43 || d == 0x63)) {
                assert(evasive_at(target@, i as int));
                return true;
            }
        }
    }
    false
}

/// Value of a hexadecimal digit.
pub fn hex_val(b: u8) -> (r: Option<u8>)
    ensures
        match r {
            Some(v) => text::digit(b, 16) == Some(v as nat) && v < 16,
            None => text::digit(b, 16) is None,
        },
{
    if 48 <= b && b <= 57 {
        Some(b - 48)
    } else if 97 <= b && b <= 102 {
        Some(b - 87)
    } else if 65 <= b && b <= 70 {
        Some(b - 55)
    } else {
        None
    }
}

/// The unreserved bytes of RFC 3986: letters, digits, `-`, `.`, `_` and `~`.
pub open spec fn unreserved(b: u8) -> bool {
    48 <= b <= 57 || 65 <= b <= 90 || 97 <= b <= 122 || b == 0x2d || b == DOT || b == 0x5f || b
        == 0x7e
}

/// Whether `b` is unreserved.
pub fn is_unreserved(b: u8) -> (r: bool)
    ensures
        r == unreserved(b),
{
    (48 <= b && b <= 57) || (65 <= b && b <= 90) || (97 <= b && b <= 122) || b == 0x2d || b == DOT
        || b == 0x5f || b == 0x7e
}

/// The byte that an escape at the beginning of `p` stands for, where it is unreserved.
pub open spec fn escape(p: Seq<u8>) -> Option<u8> {
    if p.len() > 2 && p[0] == PERCENT {
        match (text::digit(p[1], 16), text::digit(p[2], 16)) {
            (Some(h), Some(l)) if unreserved((h * 16 + l) as u8) => Some((h * 16 + l) as u8),
            _ => None,
        }
    } else {
        None
    }
}

/// `p` with the escapes of unreserved bytes decoded. Any other escape, and what is no escape,
/// stays as it is.
pub open spec fn decode(p: Seq<u8>) -> Seq<u8>
    decreases p.len(),
{
    if p.len() == 0 {
        seq![]
    } else {
        match escape(p) {
            Some(b) => seq![b] + decode(p.skip(3)),
            None => seq![p[0]] + decode(p.skip(1)),
        }
    }
}

/// The segment `..`.
pub open spec fn dot_dot(s: Seq<u8>) -> bool {
    s.len() == 2 && s[0] == DOT && s[1] == DOT
}

/// A segment that canonicalisation takes out: empty, `.` or `..`.
pub open spec fn special(s: Seq<u8>) -> bool {
    s.len() == 0 || (s.len() == 1 && s[0] == DOT) || dot_dot(s)
}

/// The segments kept after one more segment: `..` takes the last one away (at the root there is
/// none), an empty segment and `.` change nothing.
pub open spec fn step(kept: Seq<Seq<u8>>, s: Seq<u8>) -> Seq<Seq<u8>> {
    if dot_dot(s) {
        if kept.len() > 0 {
            kept.drop_last()
        } else {
            kept
        }
    } else if special(s) {
        kept
    } else {
        kept.push(s)
    }
}

/// The segments kept after a list of segments.
pub open spec fn walk(kept: Seq<Seq<u8>>, segs: Seq<Seq<u8>>) -> Seq<Seq<u8>>
    decreases segs.len(),
{
    if segs.len() == 0 {
        kept
    } else {
        walk(step(kept, segs[0]), segs.drop_first())
    }
}

/// The segments, each behind a slash.
pub open spec fn join(segs: Seq<Seq<u8>>) -> Seq<u8>
    decreases segs.len(),
{
    if segs.len() == 0 {
        seq![]
    } else {
        join(segs.drop_last()) + seq![SLASH] + segs.last()
    }
}

/// The segments of a path, its first byte being the slash before the first segment.
pub open spec fn segments(p: Seq<u8>) -> Seq<Seq<u8>> {
    text::split(p.skip(1), SLASH)
}

/// A decoded path without empty and dot segments. A final such segment leaves a trailing slash.
pub open spec fn canonical(p: Seq<u8>) -> Seq<u8> {
    if p.len() == 0 {
        seq![SLASH]
    } else {
        join(walk(seq![], segments(p))) + (if special(segments(p).last()) {
            seq![SLASH]
        } else {
            seq![]
        })
    }
}

/// The canonical form of a target: its path decoded and without dot segments, query and fragment
/// as they are.
pub open spec fn normalize(t: Seq<u8>) -> Seq<u8> {
    canonical(decode(t.take(path_end(t)))) + t.skip(path_end(t))
}

/// Decodes the escapes of unreserved bytes.
fn decode_unreserved(path: &[u8]) -> (r: Vec<u8>)
    ensures
        r@ == decode(path@),
{
    let mut out: Vec<u8> = Vec::new();
    let n: usize = path.len();
    let mut i: usize = 0;
    proof {
        assert(path@.skip(0) =~= path@);
        assert(out@ + decode(path@) =~= decode(path@));
    }
    while i < n
        invariant
            n == path@.len(),
            i <= n,
            out@ + decode(path@.skip(i as int)) == decode(path@),
        decreases n - i,
    {
        let ghost rest = path@.skip(i as int);
        let ghost before = out@;
        proof {
            assert(rest.skip(1) =~= path@.skip(i + 1));
            if n - i > 2 {
                assert(rest.skip(3) =~= path@.skip(i + 3));
                assert(rest[1] == path@[i + 1] && rest[2] == path@[i + 2]);
            }
        }
        if path[i] == PERCENT && n - i > 2 {
            if let (Some(h), Some(l)) = (hex_val(path[i + 1]), hex_val(path[i + 2])) {
                let b: u8 = h * 16 + l;
                if is_unreserved(b) {
                    proof {
                        assert(escape(rest) == Some(b));
                    }
                    out.push(b);
                    i = i + 3;
                    proof {
                        assert(before + decode(rest) =~= out@ + decode(path@.skip(i as int)));
                    }
                    continue;
                }
            }
        }
        proof {
            assert(escape(rest) is None);
        }
        out.push(path[i]);
        i = i + 1;
        proof {
            assert(before + decode(rest) =~= out@ + decode(path@.skip(i as int)));
        }
    }
    proof {
        assert(path@.skip(n as int) =~= Seq::<u8>::empty());
        assert(out@ + decode(path@.skip(n as int)) =~= out@);
    }
    out
}

/// Segments as `walk` keeps them: not special and without a slash.
pub open spec fn ordinary(segs: Seq<Seq<u8>>) -> bool {
    forall|i: int|
        #![trigger segs[i]]
        0 <= i < segs.len() ==> !special(segs[i]) && !segs[i].contains(SLASH)
}

/// Takes the last segment and the slash before it away.
fn pop_segment(out: &mut Vec<u8>, Ghost(kept): Ghost<Seq<Seq<u8>>>)
    requires
        old(out)@ == join(kept),
        ordinary(kept),
    ensures
        kept.len() > 0 ==> final(out)@ == join(kept.drop_last()),
        kept.len() == 0 ==> final(out)@ == old(out)@,
{
    if out.len() > 0 {
        let ghost head = join(kept.drop_last());
        let ghost last = kept.last();
        proof {
            assert(!special(kept[kept.len() - 1]) && !kept[kept.len() - 1].contains(SLASH));
            assert(out@ =~= head + seq![SLASH] + last);
        }
        let mut w: usize = out.len() - 1;
        while w > 0 && out[w] != SLASH
            invariant
                head.len() <= w < out@.len(),
                out@ == head + seq![SLASH] + last,
            decreases w,
        {
            w = w - 1;
        }
        proof {
            if w > head.len() {
                assert(out@[w as int] == last[w - head.len() - 1]);
                assert(last.contains(SLASH));
                assert(false);
            }
            assert(out@.subrange(0, w as int) =~= head);
        }
        out.truncate(w);
    }
}

/// Canonicalises an origin-form request target into `out`: decodes unreserved percent escapes,
/// then removes dot segments and collapses empty ones. The query or fragment part is copied.
/// The first byte of the path counts as the slash before its first segment.
pub fn normalize_path_into(target: &str, out: &mut Vec<u8>)
    ensures
        final(out)@ == normalize(target.spec_bytes()),
{
    let bytes = target.as_bytes();
    let split: usize = path_length(bytes);
    let path = &bytes[0..split];
    let tail = &bytes[split..bytes.len()];
    let dec = decode_unreserved(path);
    out.clear();
    let n: usize = dec.len();
    let mut i: usize = 0;
    let mut trailing_slash: bool = false;
    let ghost mut kept: Seq<Seq<u8>> = seq![];
    let ghost all = segments(dec@);
    while i < n
        invariant
            n == dec@.len(),
            i <= n,
            all == segments(dec@),
            out@ == join(kept),
            ordinary(kept),
            n == 0 ==> kept.len() == 0,
            i < n ==> walk(kept, text::split(dec@.skip(i + 1), SLASH)) == walk(seq![], all),
            i < n ==> text::split(dec@.skip(i + 1), SLASH).last() == all.last(),
            i < n ==> text::split(dec@.skip(i + 1), SLASH).len() > 0,
            (i == n && n > 0) ==> kept == walk(seq![], all) && trailing_slash == special(
                all.last(),
            ),
        decreases n - i,
    {
        let start: usize = i + 1;
        let mut end: usize = start;
        while end < n && dec[end] != SLASH
            invariant
                start <= end <= n,
                n == dec@.len(),
                forall|j: int| start <= j < end ==> dec@[j] != SLASH,
            decreases n - end,
        {
            end = end + 1;
        }
        let ghost x = dec@.skip(start as int);
        let seg = &dec[start..end];
        let ghost before = kept;
        proof {
            assert forall|j: int| 0 <= j < end - start implies x[j] != SLASH by {
                assert(x[j] == dec@[start + j]);
            }
            text::lemma_find_is(x, SLASH, end - start);
            assert(seg@ =~= x.take(end - start));
            assert(!seg@.contains(SLASH));
            let segs = text::split(x, SLASH);
            if end < n {
                assert(x.skip(end - start + 1) =~= dec@.skip(end + 1));
                assert(segs =~= seq![seg@] + text::split(dec@.skip(end + 1), SLASH));
                assert(segs.drop_first() =~= text::split(dec@.skip(end + 1), SLASH));
                lemma_split_len(dec@.skip(end + 1), SLASH);
            } else {
                assert(seg@ =~= x);
                assert(segs =~= seq![seg@]);
                assert(segs.drop_first() =~= Seq::<Seq<u8>>::empty());
            }
        }
        if seg.len() == 2 && seg[0] == DOT && seg[1] == DOT {
            pop_segment(out, Ghost(kept));
            proof {
                assert(dot_dot(seg@));
                kept = step(kept, seg@);
                assert(ordinary(kept));
            }
            trailing_slash = true;
        } else if seg.len() == 0 || (seg.len() == 1 && seg[0] == DOT) {
            trailing_slash = true;
        } else {
            out.push(SLASH);
            push_bytes(out, seg);
            proof {
                kept = kept.push(seg@);
                assert(kept.drop_last() =~= before);
                assert(out@ =~= join(before) + seq![SLASH] + seg@);
            }
            trailing_slash = false;
        }
        proof {
            assert(kept == step(before, seg@));
            reveal_with_fuel(walk, 2);
            assert(walk(before, text::split(x, SLASH)) == walk(
                kept,
                text::split(x, SLASH).drop_first(),
            ));
        }
        i = end;
    }
    if trailing_slash || n == 0 {
        out.push(SLASH);
    }
    proof {
        assert(path@ =~= bytes@.take(split as int));
        assert(tail@ =~= bytes@.skip(split as int));
        if n == 0 {
            assert(join(kept) =~= Seq::<u8>::empty());
            assert(out@ =~= canonical(dec@));
        }
        assert(out@ =~= canonical(dec@));
    }
    push_bytes(out, tail);
}

// ---------------------------------------------------------------------------
// What canonicalisation guarantees
// ---------------------------------------------------------------------------

/// A canonical target is never empty and begins with a slash.
pub proof fn law_normalized_is_rooted(t: Seq<u8>)
    ensures
        normalize(t).len() > 0,
        normalize(t)[0] == SLASH,
{
    lemma_path_end(t);
    lemma_canonical_shape(decode(t.take(path_end(t))));
}

/// Canonicalisation leaves what stands behind the path as it is: the path part of the canonical
/// target ends where the query or fragment of the given one begins, and that follows unchanged.
pub proof fn law_normalize_keeps_tail(t: Seq<u8>)
    ensures
        normalize(t).take(path_end(normalize(t))) == canonical(decode(t.take(path_end(t)))),
        normalize(t).skip(path_end(normalize(t))) == t.skip(path_end(t)),
{
    lemma_path_end(t);
    let p = t.take(path_end(t));
    let c = canonical(decode(p));
    lemma_decode_no_query(p);
    lemma_canonical_no_query(decode(p));
    lemma_path_end_is(normalize(t), c.len() as int);
    assert(normalize(t).take(c.len() as int) =~= c);
    assert(normalize(t).skip(c.len() as int) =~= t.skip(path_end(t)));
}

/// No segment of a canonical path is empty, `.` or `..`, but for an empty last one: the trailing
/// slash.
pub proof fn law_normalized_has_no_dot_segments(t: Seq<u8>, i: int)
    requires
        0 <= i < segments(normalize(t).take(path_end(normalize(t)))).len(),
    ensures
        ({
            let segs = segments(normalize(t).take(path_end(normalize(t))));
            special(segs[i]) ==> i == segs.len() - 1 && segs[i].len() == 0
        }),
{
    law_normalize_keeps_tail(t);
    lemma_canonical_segments(decode(t.take(path_end(t))));
}

/// A rooted target that needs no canonicalising is its own canonical form, so it can go on as it
/// came.
pub proof fn law_unsuspicious_is_canonical(t: Seq<u8>)
    requires
        t.len() > 0,
        t[0] == SLASH,
        !suspicious(t),
    ensures
        normalize(t) == t,
{
    lemma_path_end(t);
    let p = t.take(path_end(t));
    assert forall|i: int| 0 <= i < p.len() implies p[i] != PERCENT by {
        assert(!suspicious_at(t, i));
    }
    lemma_decode_plain(p);
    let x = p.skip(1);
    assert forall|i: int| 0 <= i && i + 1 < x.len() && #[trigger] x[i] == SLASH implies x[i + 1]
        != SLASH && x[i + 1] != DOT by {
        assert(!suspicious_at(t, i + 1));
        assert(x[i] == t[i + 1]);
        assert(x[i + 1] == t[i + 2]);
    }
    assert(!suspicious_at(t, 0));
    lemma_walk_plain(seq![], x);
    assert(join(seq![]) =~= Seq::<u8>::empty());
    assert(canonical(p) =~= seq![SLASH] + x);
    assert(seq![SLASH] + x =~= p);
    assert(p + t.skip(path_end(t)) =~= t);
}

/// Canonicalising twice is canonicalising once, wherever the canonical path holds no escape that
/// decoding would still change.
pub proof fn law_normalize_is_idempotent(t: Seq<u8>)
    requires
        decode(normalize(t).take(path_end(normalize(t)))) == normalize(t).take(
            path_end(normalize(t)),
        ),
    ensures
        normalize(normalize(t)) == normalize(t),
{
    law_normalize_keeps_tail(t);
    let d = decode(t.take(path_end(t)));
    let c = canonical(d);
    let n = normalize(t);
    lemma_canonical_shape(d);
    lemma_canonical_segments(d);
    let k = if d.len() == 0 {
        seq![]
    } else {
        walk(seq![], segments(d))
    };
    lemma_walk_ordinary(seq![], k);
    assert(seq![] + k =~= k);
    if special(segments(c).last()) {
        assert(segments(c) =~= k.push(seq![]));
        lemma_walk_push(seq![], k, seq![]);
        assert(join(k) + seq![SLASH] =~= c);
    } else {
        assert(segments(c) =~= k);
        assert(join(k) =~= c);
    }
    assert(canonical(c) =~= c);
    assert(n =~= c + n.skip(path_end(n)));
}

/// Whether two hexadecimal digits stand behind position `i`.
pub open spec fn digits_behind(s: Seq<u8>, i: int) -> bool {
    i + 2 < s.len() && text::digit(s[i + 1], 16) is Some && text::digit(s[i + 2], 16) is Some
}

/// Whether every percent sign begins an escape.
pub open spec fn whole_escapes(s: Seq<u8>) -> bool {
    forall|i: int| 0 <= i < s.len() && s[i] == PERCENT ==> #[trigger] digits_behind(s, i)
}

/// Canonicalising twice is canonicalising once, wherever every percent sign of the path begins an
/// escape.
pub proof fn law_whole_escapes_normalize_once(t: Seq<u8>)
    requires
        whole_escapes(t.take(path_end(t))),
    ensures
        normalize(normalize(t)) == normalize(t),
{
    let d = decode(t.take(path_end(t)));
    lemma_decode_settles(t.take(path_end(t)));
    lemma_canonical_settled(d);
    lemma_settled_is_decoded(canonical(d));
    law_normalize_keeps_tail(t);
    law_normalize_is_idempotent(t);
}

/// Canonicalising a rooted target never makes it longer.
pub proof fn law_normalize_never_grows(t: Seq<u8>)
    requires
        t.len() > 0,
        t[0] == SLASH,
    ensures
        normalize(t).len() <= t.len(),
{
    lemma_path_end(t);
    let p = t.take(path_end(t));
    lemma_decode_len(p);
    let d = decode(p);
    assert(d.len() > 0);
    lemma_walk_len(seq![], d.skip(1));
    assert(join(seq![]) =~= Seq::<u8>::empty());
}

// ---------------------------------------------------------------------------
// Lemmas
// ---------------------------------------------------------------------------

proof fn lemma_decode_len(p: Seq<u8>)
    ensures
        decode(p).len() <= p.len(),
        p.len() > 0 ==> decode(p).len() > 0,
    decreases p.len(),
{
    if p.len() > 0 {
        match escape(p) {
            Some(_) => lemma_decode_len(p.skip(3)),
            None => lemma_decode_len(p.skip(1)),
        }
    }
}

/// The canonical path that a list of kept segments and a rest give is no longer than both.
proof fn lemma_walk_len(kept: Seq<Seq<u8>>, x: Seq<u8>)
    ensures
        join(walk(kept, text::split(x, SLASH))).len() + (if special(text::split(x, SLASH).last()) {
            1int
        } else {
            0int
        }) <= join(kept).len() + 1 + x.len(),
    decreases x.len(),
{
    text::lemma_find(x, SLASH);
    let f = text::find(x, SLASH);
    let seg = x.take(f);
    let next = step(kept, seg);
    assert(join(next).len() <= join(kept).len() + 1 + seg.len()) by {
        if !special(seg) {
            assert(next.drop_last() =~= kept);
        }
    }
    assert(special(seg) ==> join(next).len() <= join(kept).len()) by {
        if dot_dot(seg) && kept.len() > 0 {
            assert(join(kept) == join(kept.drop_last()) + seq![SLASH] + kept.last());
        }
    }
    if f < x.len() {
        let rest = x.skip(f + 1);
        lemma_walk_len(next, rest);
        lemma_split_len(rest, SLASH);
        assert(text::split(x, SLASH).drop_first() =~= text::split(rest, SLASH));
        assert(text::split(x, SLASH).last() == text::split(rest, SLASH).last());
    } else {
        assert(seg =~= x);
        assert(text::split(x, SLASH) =~= seq![seg]);
        assert(text::split(x, SLASH).drop_first() =~= Seq::<Seq<u8>>::empty());
        reveal_with_fuel(walk, 2);
        assert(walk(kept, text::split(x, SLASH)) == next);
    }
}

/// A text without a percent sign is its own decoding.
proof fn lemma_decode_plain(p: Seq<u8>)
    requires
        forall|i: int| 0 <= i < p.len() ==> p[i] != PERCENT,
    ensures
        decode(p) == p,
    decreases p.len(),
{
    if p.len() > 0 {
        assert(p[0] != PERCENT);
        assert forall|i: int| 0 <= i < p.skip(1).len() implies p.skip(1)[i] != PERCENT by {
            assert(p.skip(1)[i] == p[i + 1]);
        }
        lemma_decode_plain(p.skip(1));
        assert(seq![p[0]] + p.skip(1) =~= p);
    }
}

/// Neither `?` nor `#` comes out of decoding where none went in.
proof fn lemma_decode_no_query(p: Seq<u8>)
    requires
        forall|i: int| 0 <= i < p.len() ==> p[i] != 0x3f && p[i] != 0x23,
    ensures
        forall|i: int| 0 <= i < decode(p).len() ==> decode(p)[i] != 0x3f && decode(p)[i] != 0x23,
    decreases p.len(),
{
    if p.len() > 0 {
        let n = if escape(p) is Some {
            3int
        } else {
            1int
        };
        let rest = p.skip(n);
        assert forall|i: int| 0 <= i < rest.len() implies rest[i] != 0x3f && rest[i] != 0x23 by {
            assert(rest[i] == p[i + n]);
        }
        lemma_decode_no_query(rest);
        assert forall|i: int| 0 <= i < decode(p).len() implies decode(p)[i] != 0x3f && decode(p)[i]
            != 0x23 by {
            if i > 0 {
                assert(decode(p)[i] == decode(rest)[i - 1]);
            }
        }
    }
}

/// Whether some bytes hold neither `?` nor `#`.
pub open spec fn no_query(s: Seq<u8>) -> bool {
    forall|i: int| 0 <= i < s.len() ==> s[i] != 0x3f && s[i] != 0x23
}

proof fn lemma_walk_no_query(kept: Seq<Seq<u8>>, x: Seq<u8>)
    requires
        no_query(join(kept)),
        no_query(x),
    ensures
        no_query(join(walk(kept, text::split(x, SLASH)))),
    decreases x.len(),
{
    text::lemma_find(x, SLASH);
    let f = text::find(x, SLASH);
    let seg = x.take(f);
    let next = step(kept, seg);
    assert(no_query(join(next))) by {
        if dot_dot(seg) {
            if kept.len() > 0 {
                let j = join(kept.drop_last());
                assert forall|i: int| 0 <= i < j.len() implies j[i] != 0x3f && j[i] != 0x23 by {
                    assert(j[i] == join(kept)[i]);
                }
            }
        } else if !special(seg) {
            assert(next.drop_last() =~= kept);
        }
    }
    if f < x.len() {
        let rest = x.skip(f + 1);
        lemma_walk_no_query(next, rest);
        assert(text::split(x, SLASH).drop_first() =~= text::split(rest, SLASH));
    } else {
        assert(seg =~= x);
        assert(text::split(x, SLASH) =~= seq![seg]);
        assert(text::split(x, SLASH).drop_first() =~= Seq::<Seq<u8>>::empty());
        reveal_with_fuel(walk, 2);
        assert(walk(kept, text::split(x, SLASH)) == next);
    }
}

proof fn lemma_canonical_no_query(d: Seq<u8>)
    requires
        no_query(d),
    ensures
        no_query(canonical(d)),
{
    if d.len() > 0 {
        assert(join(seq![]) =~= Seq::<u8>::empty());
        assert forall|i: int| 0 <= i < d.skip(1).len() implies d.skip(1)[i] != 0x3f && d.skip(1)[i]
            != 0x23 by {
            assert(d.skip(1)[i] == d[i + 1]);
        }
        lemma_walk_no_query(seq![], d.skip(1));
    }
}

/// Whether an escape that decoding leaves as it is begins at position `i`.
spec fn kept_escape(s: Seq<u8>, i: int) -> bool {
    digits_behind(s, i) && !unreserved(
        (text::digit(s[i + 1], 16)->0 * 16 + text::digit(s[i + 2], 16)->0) as u8,
    )
}

/// Whether every percent sign begins an escape that decoding leaves as it is.
spec fn settled(s: Seq<u8>) -> bool {
    forall|i: int| 0 <= i < s.len() && s[i] == PERCENT ==> #[trigger] kept_escape(s, i)
}

spec fn all_settled(segs: Seq<Seq<u8>>) -> bool {
    forall|i: int| 0 <= i < segs.len() ==> settled(#[trigger] segs[i])
}

proof fn lemma_settled_skip(s: Seq<u8>, k: int)
    requires
        settled(s),
        0 <= k <= s.len(),
    ensures
        settled(s.skip(k)),
{
    let r = s.skip(k);
    assert forall|i: int| 0 <= i < r.len() && r[i] == PERCENT implies #[trigger] kept_escape(
        r,
        i,
    ) by {
        assert(s[i + k] == PERCENT);
        assert(kept_escape(s, i + k));
        assert(r[i + 1] == s[i + k + 1] && r[i + 2] == s[i + k + 2]);
    }
}

/// A slash parts no escape.
proof fn lemma_settled_take(s: Seq<u8>, k: int)
    requires
        settled(s),
        0 <= k <= s.len(),
        k < s.len() ==> s[k] == SLASH,
    ensures
        settled(s.take(k)),
{
    let r = s.take(k);
    assert forall|i: int| 0 <= i < r.len() && r[i] == PERCENT implies #[trigger] kept_escape(
        r,
        i,
    ) by {
        assert(s[i] == PERCENT);
        assert(kept_escape(s, i));
        assert(i + 1 != k && i + 2 != k);
        assert(r[i + 1] == s[i + 1] && r[i + 2] == s[i + 2]);
    }
}

proof fn lemma_settled_add(a: Seq<u8>, b: Seq<u8>)
    requires
        settled(a),
        settled(b),
    ensures
        settled(a + b),
{
    let r = a + b;
    assert forall|i: int| 0 <= i < r.len() && r[i] == PERCENT implies #[trigger] kept_escape(
        r,
        i,
    ) by {
        if i < a.len() {
            assert(a[i] == PERCENT);
            assert(kept_escape(a, i));
            assert(r[i + 1] == a[i + 1] && r[i + 2] == a[i + 2]);
        } else {
            let j = i - a.len();
            assert(b[j] == PERCENT);
            assert(kept_escape(b, j));
            assert(r[i + 1] == b[j + 1] && r[i + 2] == b[j + 2]);
        }
    }
}

/// Decoding leaves settled bytes as they are.
proof fn lemma_settled_is_decoded(s: Seq<u8>)
    requires
        settled(s),
    ensures
        decode(s) == s,
    decreases s.len(),
{
    if s.len() > 0 {
        if s[0] == PERCENT {
            assert(kept_escape(s, 0));
        }
        assert(escape(s) is None);
        lemma_settled_skip(s, 1);
        lemma_settled_is_decoded(s.skip(1));
        assert(seq![s[0]] + s.skip(1) =~= s);
    }
}

proof fn lemma_whole_escapes_skip(p: Seq<u8>, k: int)
    requires
        whole_escapes(p),
        0 <= k <= p.len(),
    ensures
        whole_escapes(p.skip(k)),
{
    let r = p.skip(k);
    assert forall|i: int| 0 <= i < r.len() && r[i] == PERCENT implies #[trigger] digits_behind(
        r,
        i,
    ) by {
        assert(p[i + k] == PERCENT);
        assert(digits_behind(p, i + k));
        assert(r[i + 1] == p[i + k + 1] && r[i + 2] == p[i + k + 2]);
    }
}

/// An escape that decoding leaves as it is comes through it as three bytes.
proof fn lemma_decode_kept_escape(p: Seq<u8>)
    requires
        p.len() > 0,
        p[0] == PERCENT,
        digits_behind(p, 0),
        escape(p) is None,
    ensures
        decode(p) == seq![p[0], p[1], p[2]] + decode(p.skip(3)),
        settled(seq![p[0], p[1], p[2]]),
{
    let q = p.skip(1);
    let r = q.skip(1);
    assert(q[0] == p[1] && r[0] == p[2]);
    assert(q[0] != PERCENT && r[0] != PERCENT);
    assert(decode(p) == seq![p[0]] + decode(q));
    assert(decode(q) == seq![q[0]] + decode(r));
    assert(decode(r) == seq![r[0]] + decode(r.skip(1)));
    assert(r.skip(1) =~= p.skip(3));
    assert(decode(p) =~= seq![p[0], p[1], p[2]] + decode(p.skip(3)));
    let s = seq![p[0], p[1], p[2]];
    assert forall|i: int| 0 <= i < s.len() && s[i] == PERCENT implies #[trigger] kept_escape(
        s,
        i,
    ) by {
        assert(i == 0);
        assert(s[1] == p[1] && s[2] == p[2]);
    }
}

/// Where every percent sign begins an escape, one decoding leaves nothing to decode.
proof fn lemma_decode_settles(p: Seq<u8>)
    requires
        whole_escapes(p),
    ensures
        settled(decode(p)),
    decreases p.len(),
{
    if p.len() > 0 {
        match escape(p) {
            Some(b) => {
                lemma_whole_escapes_skip(p, 3);
                lemma_decode_settles(p.skip(3));
                assert(settled(seq![b]));
                lemma_settled_add(seq![b], decode(p.skip(3)));
            },
            None => {
                if p[0] == PERCENT {
                    assert(digits_behind(p, 0));
                    lemma_decode_kept_escape(p);
                    lemma_whole_escapes_skip(p, 3);
                    lemma_decode_settles(p.skip(3));
                    lemma_settled_add(seq![p[0], p[1], p[2]], decode(p.skip(3)));
                } else {
                    lemma_whole_escapes_skip(p, 1);
                    lemma_decode_settles(p.skip(1));
                    assert(settled(seq![p[0]]));
                    lemma_settled_add(seq![p[0]], decode(p.skip(1)));
                }
            },
        }
    }
}

proof fn lemma_walk_settled(kept: Seq<Seq<u8>>, x: Seq<u8>)
    requires
        all_settled(kept),
        settled(x),
    ensures
        all_settled(walk(kept, text::split(x, SLASH))),
    decreases x.len(),
{
    text::lemma_find(x, SLASH);
    let f = text::find(x, SLASH);
    let seg = x.take(f);
    let next = step(kept, seg);
    lemma_settled_take(x, f);
    assert(all_settled(next));
    if f < x.len() {
        let rest = x.skip(f + 1);
        lemma_settled_skip(x, f + 1);
        lemma_walk_settled(next, rest);
        assert(text::split(x, SLASH).drop_first() =~= text::split(rest, SLASH));
    } else {
        assert(seg =~= x);
        assert(text::split(x, SLASH) =~= seq![seg]);
        assert(text::split(x, SLASH).drop_first() =~= Seq::<Seq<u8>>::empty());
        reveal_with_fuel(walk, 2);
        assert(walk(kept, text::split(x, SLASH)) == next);
    }
}

proof fn lemma_join_settled(segs: Seq<Seq<u8>>)
    requires
        all_settled(segs),
    ensures
        settled(join(segs)),
    decreases segs.len(),
{
    if segs.len() > 0 {
        let head = segs.drop_last();
        assert(all_settled(head)) by {
            assert forall|i: int| 0 <= i < head.len() implies settled(#[trigger] head[i]) by {
                assert(head[i] == segs[i]);
            }
        }
        lemma_join_settled(head);
        assert(settled(seq![SLASH]));
        lemma_settled_add(join(head), seq![SLASH]);
        lemma_settled_add(join(head) + seq![SLASH], segs.last());
    }
}

proof fn lemma_canonical_settled(d: Seq<u8>)
    requires
        settled(d),
    ensures
        settled(canonical(d)),
{
    assert(settled(seq![SLASH]));
    if d.len() > 0 {
        lemma_settled_skip(d, 1);
        lemma_walk_settled(seq![], d.skip(1));
        let j = join(walk(seq![], segments(d)));
        lemma_join_settled(walk(seq![], segments(d)));
        lemma_settled_add(j, seq![SLASH]);
        assert(j + seq![] =~= j);
    }
}

/// What a walk keeps is ordinary.
proof fn lemma_walk_keeps_ordinary(kept: Seq<Seq<u8>>, x: Seq<u8>)
    requires
        ordinary(kept),
    ensures
        ordinary(walk(kept, text::split(x, SLASH))),
    decreases x.len(),
{
    text::lemma_find(x, SLASH);
    let f = text::find(x, SLASH);
    let seg = x.take(f);
    let next = step(kept, seg);
    assert(ordinary(next)) by {
        assert(!seg.contains(SLASH));
    }
    if f < x.len() {
        let rest = x.skip(f + 1);
        lemma_walk_keeps_ordinary(next, rest);
        assert(text::split(x, SLASH).drop_first() =~= text::split(rest, SLASH));
    } else {
        assert(seg =~= x);
        assert(text::split(x, SLASH) =~= seq![seg]);
        assert(text::split(x, SLASH).drop_first() =~= Seq::<Seq<u8>>::empty());
        reveal_with_fuel(walk, 2);
        assert(walk(kept, text::split(x, SLASH)) == next);
    }
}

/// A text without empty and dot segments comes through the walk as it is.
proof fn lemma_walk_plain(kept: Seq<Seq<u8>>, x: Seq<u8>)
    requires
        x.len() > 0 ==> x[0] != SLASH && x[0] != DOT,
        forall|i: int|
            0 <= i && i + 1 < x.len() && #[trigger] x[i] == SLASH ==> x[i + 1] != SLASH && x[i + 1]
                != DOT,
    ensures
        join(walk(kept, text::split(x, SLASH))) + (if special(text::split(x, SLASH).last()) {
            seq![SLASH]
        } else {
            seq![]
        }) == join(kept) + seq![SLASH] + x,
    decreases x.len(),
{
    text::lemma_find(x, SLASH);
    let f = text::find(x, SLASH);
    let seg = x.take(f);
    if f < x.len() {
        let rest = x.skip(f + 1);
        assert(seg.len() > 0);
        assert(seg[0] == x[0]);
        let next = kept.push(seg);
        assert(step(kept, seg) == next);
        assert(next.drop_last() =~= kept);
        assert forall|i: int|
            0 <= i && i + 1 < rest.len() && #[trigger] rest[i] == SLASH implies rest[i + 1] != SLASH
            && rest[i + 1] != DOT by {
            assert(rest[i] == x[i + f + 1]);
            assert(rest[i + 1] == x[i + f + 2]);
        }
        if rest.len() > 0 {
            assert(rest[0] == x[f + 1]);
        }
        lemma_walk_plain(next, rest);
        lemma_split_len(rest, SLASH);
        assert(text::split(x, SLASH).drop_first() =~= text::split(rest, SLASH));
        assert(text::split(x, SLASH).last() == text::split(rest, SLASH).last());
        assert(join(next) + seq![SLASH] + rest =~= join(kept) + seq![SLASH] + x);
    } else {
        assert(seg =~= x);
        assert(text::split(x, SLASH) =~= seq![x]);
        assert(text::split(x, SLASH).drop_first() =~= Seq::<Seq<u8>>::empty());
        reveal_with_fuel(walk, 2);
        assert(walk(kept, text::split(x, SLASH)) == step(kept, x));
        if x.len() > 0 {
            assert(step(kept, x).drop_last() =~= kept);
        }
        assert(join(walk(kept, text::split(x, SLASH))) + (if special(x) {
            seq![SLASH]
        } else {
            seq![]
        }) =~= join(kept) + seq![SLASH] + x);
    }
}

/// Ordinary segments all stay.
proof fn lemma_walk_ordinary(kept: Seq<Seq<u8>>, segs: Seq<Seq<u8>>)
    requires
        ordinary(segs),
    ensures
        walk(kept, segs) == kept + segs,
    decreases segs.len(),
{
    if segs.len() == 0 {
        assert(kept + segs =~= kept);
    } else {
        assert(!special(segs[0]));
        let rest = segs.drop_first();
        assert forall|i: int| 0 <= i < rest.len() implies !special(#[trigger] rest[i])
            && !rest[i].contains(SLASH) by {
            assert(rest[i] == segs[i + 1]);
        }
        lemma_walk_ordinary(kept.push(segs[0]), rest);
        assert(kept.push(segs[0]) + rest =~= kept + segs);
    }
}

/// A walk over one more segment is one more step.
proof fn lemma_walk_push(kept: Seq<Seq<u8>>, segs: Seq<Seq<u8>>, s: Seq<u8>)
    ensures
        walk(kept, segs.push(s)) == step(walk(kept, segs), s),
    decreases segs.len(),
{
    if segs.len() == 0 {
        assert(segs.push(s).drop_first() =~= Seq::<Seq<u8>>::empty());
        reveal_with_fuel(walk, 2);
    } else {
        assert(segs.push(s).drop_first() =~= segs.drop_first().push(s));
        lemma_walk_push(step(kept, segs[0]), segs.drop_first(), s);
    }
}

/// A text that ends in a slash and one more segment splits into what the text before splits into,
/// and that segment.
proof fn lemma_split_push(a: Seq<u8>, s: Seq<u8>)
    requires
        !s.contains(SLASH),
    ensures
        text::split(a + seq![SLASH] + s, SLASH) == text::split(a, SLASH).push(s),
    decreases a.len(),
{
    let whole = a + seq![SLASH] + s;
    text::lemma_find(a, SLASH);
    let f = text::find(a, SLASH);
    if f < a.len() {
        text::lemma_find_is(whole, SLASH, f);
        let rest = a.skip(f + 1);
        lemma_split_push(rest, s);
        assert(whole.take(f) =~= a.take(f));
        assert(whole.skip(f + 1) =~= rest + seq![SLASH] + s);
        assert(text::split(whole, SLASH) =~= text::split(a, SLASH).push(s));
    } else {
        text::lemma_find_is(whole, SLASH, a.len() as int);
        assert(whole.take(a.len() as int) =~= a);
        assert(whole.skip(a.len() as int + 1) =~= s);
        text::lemma_find(s, SLASH);
        assert(text::split(s, SLASH) =~= seq![s]);
        assert(text::split(whole, SLASH) =~= seq![a].push(s));
        assert(text::split(a, SLASH) =~= seq![a]);
    }
}

/// The segments of a joined list are that list.
proof fn lemma_split_join(k: Seq<Seq<u8>>)
    requires
        ordinary(k),
        k.len() > 0,
    ensures
        join(k).len() > 0,
        join(k)[0] == SLASH,
        segments(join(k)) == k,
    decreases k.len(),
{
    let last = k.last();
    let head = k.drop_last();
    assert(!special(k[k.len() - 1]) && !k[k.len() - 1].contains(SLASH));
    assert(ordinary(head));
    if head.len() == 0 {
        assert(join(head) =~= Seq::<u8>::empty());
        assert(join(k).skip(1) =~= last);
        text::lemma_find(last, SLASH);
        assert(text::split(last, SLASH) =~= seq![last]);
        assert(k =~= seq![last]);
        assert(join(k) =~= seq![SLASH] + last);
    } else {
        lemma_split_join(head);
        lemma_split_push(join(head).skip(1), last);
        assert(join(k).skip(1) =~= join(head).skip(1) + seq![SLASH] + last);
        assert(head.push(last) =~= k);
    }
}

/// A canonical path begins with a slash.
proof fn lemma_canonical_shape(d: Seq<u8>)
    ensures
        canonical(d).len() > 0,
        canonical(d)[0] == SLASH,
{
    if d.len() > 0 {
        let k = walk(seq![], segments(d));
        lemma_walk_keeps_ordinary(seq![], d.skip(1));
        if k.len() > 0 {
            lemma_split_join(k);
        } else {
            lemma_walk_last(seq![], d.skip(1));
            assert(join(k) =~= Seq::<u8>::empty());
        }
    }
}

/// A walk that ends with a segment that stays does not end empty.
proof fn lemma_walk_last(kept: Seq<Seq<u8>>, x: Seq<u8>)
    ensures
        !special(text::split(x, SLASH).last()) ==> walk(kept, text::split(x, SLASH)).len() > 0,
    decreases x.len(),
{
    text::lemma_find(x, SLASH);
    let f = text::find(x, SLASH);
    let seg = x.take(f);
    if f < x.len() {
        let rest = x.skip(f + 1);
        lemma_walk_last(step(kept, seg), rest);
        lemma_split_len(rest, SLASH);
        assert(text::split(x, SLASH).drop_first() =~= text::split(rest, SLASH));
        assert(text::split(x, SLASH).last() == text::split(rest, SLASH).last());
    } else {
        assert(seg =~= x);
        assert(text::split(x, SLASH) =~= seq![x]);
        assert(text::split(x, SLASH).drop_first() =~= Seq::<Seq<u8>>::empty());
        reveal_with_fuel(walk, 2);
        assert(walk(kept, text::split(x, SLASH)) == step(kept, x));
    }
}

/// The segments of a canonical path: the kept ones, and an empty one where it ends in a slash.
proof fn lemma_canonical_segments(d: Seq<u8>)
    ensures
        ({
            let k = if d.len() == 0 {
                seq![]
            } else {
                walk(seq![], segments(d))
            };
            let segs = segments(canonical(d));
            &&& ordinary(k)
            &&& segs == k || segs == k.push(seq![])
            &&& segs == k ==> k.len() > 0 && canonical(d) == join(k)
            &&& segs == k.push(seq![]) ==> canonical(d) == join(k) + seq![SLASH]
        }),
{
    let k = if d.len() == 0 {
        seq![]
    } else {
        walk(seq![], segments(d))
    };
    let c = canonical(d);
    if d.len() > 0 {
        lemma_walk_keeps_ordinary(seq![], d.skip(1));
        lemma_walk_last(seq![], d.skip(1));
    }
    if k.len() == 0 {
        assert(join(k) =~= Seq::<u8>::empty());
        assert(c =~= seq![SLASH]);
        assert(c.skip(1) =~= Seq::<u8>::empty());
        assert(segments(c) =~= seq![seq![]]);
        assert(k.push(seq![]) =~= seq![seq![]]);
    } else {
        lemma_split_join(k);
        if special(segments(d).last()) {
            lemma_split_push(join(k).skip(1), seq![]);
            assert(c.skip(1) =~= join(k).skip(1) + seq![SLASH] + Seq::<u8>::empty());
        } else {
            assert(c =~= join(k));
        }
    }
}

proof fn lemma_split_len(s: Seq<u8>, c: u8)
    ensures
        text::split(s, c).len() > 0,
    decreases s.len(),
{
    text::lemma_find(s, c);
}

// ---------------------------------------------------------------------------
// Canonical targets are text
// ---------------------------------------------------------------------------

proof fn lemma_ascii_is_text(b: u8)
    requires
        b < 0x80,
    ensures
        valid_utf8(seq![b]),
{
    assert(0x00 <= b <= 0x7f);
    reveal_with_fuel(valid_utf8, 2);
    assert(codepoint_width_1(b) < 0x80) by (bit_vector)
        requires
            b < 0x80,
    ;
    assert(pop_first_scalar(seq![b]) =~= seq![]);
}

/// Text is cut at a byte below 0x80, or at its end, into texts.
proof fn lemma_cut(t: Seq<u8>, i: int)
    requires
        valid_utf8(t),
        0 <= i <= t.len(),
        i < t.len() ==> t[i] < 0x80,
    ensures
        valid_utf8(t.take(i)),
        valid_utf8(t.skip(i)),
        i < t.len() ==> valid_utf8(t.skip(i + 1)),
{
    if i < t.len() {
        is_char_boundary_iff_not_is_continuation_byte(t, i);
    } else {
        is_char_boundary_start_end_of_seq(t);
    }
    valid_utf8_split(t, i);
    assert(t.take(i) =~= t.subrange(0, i));
    assert(t.skip(i) =~= t.subrange(i, t.len() as int));
    if i < t.len() {
        let r = t.skip(i);
        assert(r[0] == t[i]);
        assert(length_of_first_scalar(r) == 1);
        assert(pop_first_scalar(r) =~= t.skip(i + 1));
    }
}

/// Bytes other than `%` stay as they are.
proof fn lemma_decode_keeps(p: Seq<u8>, n: int)
    requires
        0 <= n <= p.len(),
        forall|i: int| 0 <= i < n ==> p[i] != PERCENT,
    ensures
        decode(p) == p.take(n) + decode(p.skip(n)),
    decreases n,
{
    if n == 0 {
        assert(p.take(0) + decode(p.skip(0)) =~= decode(p)) by {
            assert(p.skip(0) =~= p);
        }
    } else {
        assert(p[0] != PERCENT);
        let r = p.skip(1);
        assert forall|i: int| 0 <= i < n - 1 implies r[i] != PERCENT by {
            assert(r[i] == p[i + 1]);
        }
        lemma_decode_keeps(r, n - 1);
        assert(r.skip(n - 1) =~= p.skip(n));
        assert(seq![p[0]] + r.take(n - 1) =~= p.take(n));
        assert(decode(p) =~= p.take(n) + decode(p.skip(n)));
    }
}

proof fn lemma_first_is_text(p: Seq<u8>)
    requires
        valid_utf8(p),
        p.len() > 0,
    ensures
        1 <= length_of_first_scalar(p) <= p.len(),
        valid_utf8(p.take(length_of_first_scalar(p))),
        valid_utf8(p.skip(length_of_first_scalar(p))),
        forall|i: int| 0 < i < length_of_first_scalar(p) ==> is_continuation_byte(#[trigger] p[i]),
{
    let n = length_of_first_scalar(p);
    assert(valid_first_scalar(p));
    assert(pop_first_scalar(p) =~= p.skip(n));
    let first = p.take(n);
    assert(valid_first_scalar(first));
    assert(pop_first_scalar(first) =~= seq![]);
    assert(valid_utf8(pop_first_scalar(first)));
}

proof fn lemma_decoded_is_text(p: Seq<u8>)
    requires
        valid_utf8(p),
    ensures
        valid_utf8(decode(p)),
    decreases p.len(),
{
    if p.len() > 0 {
        if escape(p) is Some {
            lemma_cut(p, 0);
            assert(p.skip(1)[0] == p[1]);
            lemma_cut(p.skip(1), 0);
            assert(p.skip(1).skip(1) =~= p.skip(2));
            assert(p.skip(2)[0] == p[2]);
            lemma_cut(p.skip(2), 0);
            assert(p.skip(2).skip(1) =~= p.skip(3));
            lemma_decoded_is_text(p.skip(3));
            lemma_ascii_is_text(escape(p)->0);
            valid_utf8_concat(seq![escape(p)->0], decode(p.skip(3)));
        } else if p[0] == PERCENT {
            lemma_cut(p, 0);
            lemma_decoded_is_text(p.skip(1));
            lemma_ascii_is_text(p[0]);
            valid_utf8_concat(seq![p[0]], decode(p.skip(1)));
        } else {
            let n = length_of_first_scalar(p);
            lemma_first_is_text(p);
            assert forall|i: int| 0 <= i < n implies p[i] != PERCENT by {
                if i > 0 {
                    assert(is_continuation_byte(p[i]));
                }
            }
            lemma_decode_keeps(p, n);
            lemma_decoded_is_text(p.skip(n));
            valid_utf8_concat(p.take(n), decode(p.skip(n)));
        }
    }
}

/// Whether all segments are text.
spec fn all_text(segs: Seq<Seq<u8>>) -> bool {
    forall|i: int| 0 <= i < segs.len() ==> valid_utf8(#[trigger] segs[i])
}

proof fn lemma_split_is_text(s: Seq<u8>)
    requires
        valid_utf8(s),
    ensures
        all_text(text::split(s, SLASH)),
    decreases s.len(),
{
    text::lemma_find(s, SLASH);
    let k = text::find(s, SLASH);
    if k < s.len() {
        lemma_cut(s, k);
        lemma_split_is_text(s.skip(k + 1));
        let rest = text::split(s.skip(k + 1), SLASH);
        assert forall|i: int| 0 <= i < text::split(s, SLASH).len() implies valid_utf8(
            #[trigger] text::split(s, SLASH)[i],
        ) by {
            if i > 0 {
                assert(text::split(s, SLASH)[i] == rest[i - 1]);
            }
        }
    }
}

proof fn lemma_walk_is_text(kept: Seq<Seq<u8>>, segs: Seq<Seq<u8>>)
    requires
        all_text(kept),
        all_text(segs),
    ensures
        all_text(walk(kept, segs)),
    decreases segs.len(),
{
    if segs.len() > 0 {
        assert(valid_utf8(segs[0]));
        let next = step(kept, segs[0]);
        assert forall|i: int| 0 <= i < next.len() implies valid_utf8(#[trigger] next[i]) by {
            if i < kept.len() {
                assert(next[i] == kept[i]);
            }
        }
        let rest = segs.drop_first();
        assert forall|i: int| 0 <= i < rest.len() implies valid_utf8(#[trigger] rest[i]) by {
            assert(rest[i] == segs[i + 1]);
        }
        lemma_walk_is_text(next, rest);
    }
}

proof fn lemma_join_is_text(segs: Seq<Seq<u8>>)
    requires
        all_text(segs),
    ensures
        valid_utf8(join(segs)),
    decreases segs.len(),
{
    if segs.len() > 0 {
        let rest = segs.drop_last();
        assert forall|i: int| 0 <= i < rest.len() implies valid_utf8(#[trigger] rest[i]) by {
            assert(rest[i] == segs[i]);
        }
        lemma_join_is_text(rest);
        assert(valid_utf8(segs[segs.len() - 1]));
        lemma_ascii_is_text(SLASH);
        valid_utf8_concat(join(rest), seq![SLASH]);
        valid_utf8_concat(join(rest) + seq![SLASH], segs.last());
    }
}

/// The canonical form of a target that is text is text.
pub proof fn law_normalized_is_text(t: Seq<u8>)
    requires
        t.len() > 0,
        t[0] == SLASH,
        valid_utf8(t),
    ensures
        valid_utf8(normalize(t)),
{
    lemma_path_end(t);
    let n = path_end(t);
    lemma_cut(t, n);
    let p = t.take(n);
    let d = decode(p);
    lemma_decoded_is_text(p);
    lemma_ascii_is_text(SLASH);
    assert(valid_utf8(canonical(d))) by {
        assert(p[0] == SLASH);
        assert(d[0] == SLASH);
        lemma_cut(d, 0);
        lemma_split_is_text(d.skip(1));
        lemma_walk_is_text(seq![], segments(d));
        let kept = join(walk(seq![], segments(d)));
        lemma_join_is_text(walk(seq![], segments(d)));
        if special(segments(d).last()) {
            valid_utf8_concat(kept, seq![SLASH]);
        } else {
            assert(kept + Seq::<u8>::empty() =~= kept);
        }
    }
    valid_utf8_concat(canonical(d), t.skip(n));
}

} // verus!
