//! The shared response cache: what is kept, what is served from it, and what may enter it.

use std::collections::hash_map::DefaultHasher;
use std::hash::Hasher;

use vstd::prelude::*;
use vstd::std_specs::hash::*;
use vstd::string::*;
use vstd::utf8::*;

use crate::config;
use crate::config::RouteCache;
use crate::header_util;
use crate::header_util::{contains_ci, find_bytes, find_ci};
use crate::http;
use crate::http::{has_header, text_of, Header};
use crate::text;
use crate::text::{push_bytes, str_eq, str_eq_ci};

verus! {

// ---------------------------------------------------------------------------
// Entries
// ---------------------------------------------------------------------------

/// A cached response: head and body, until when it may be served (in nanoseconds), and its
/// validators.
pub struct CacheEntry {
    pub data: Vec<u8>,
    pub expires_at: u128,
    pub etag: Option<String>,
    pub last_modified: Option<String>,
}

/// Mathematical content of a [`CacheEntry`].
pub struct CacheModel {
    pub data: Seq<u8>,
    pub expires_at: int,
    pub etag: Option<Seq<char>>,
    pub last_modified: Option<Seq<char>>,
}

impl View for CacheEntry {
    type V = CacheModel;

    open spec fn view(&self) -> CacheModel {
        CacheModel {
            data: self.data@,
            expires_at: self.expires_at as int,
            etag: config::opt_text(self.etag),
            last_modified: config::opt_text(self.last_modified),
        }
    }
}

/// What an optional entry holds.
pub open spec fn opt_entry(e: Option<CacheEntry>) -> Option<CacheModel> {
    match e {
        Some(x) => Some(x@),
        None => None,
    }
}

/// What an optional reference to an entry points at.
pub open spec fn opt_entry_ref(e: Option<&CacheEntry>) -> Option<CacheModel> {
    match e {
        Some(x) => Some(x@),
        None => None,
    }
}

// ---------------------------------------------------------------------------
// The least-recently-used list
// ---------------------------------------------------------------------------

/// The least-recently-used cache of the `lru` crate.
#[verifier::external_type_specification]
#[verifier::external_body]
#[verifier::reject_recursive_types(K)]
#[verifier::reject_recursive_types(V)]
#[verifier::reject_recursive_types(S)]
pub struct ExLruCache<K, V, S>(lru::LruCache<K, V, S>);

/// The default hasher of the `lru` crate.
#[verifier::external_type_specification]
#[verifier::external_body]
pub struct ExLruHasher(lru::DefaultHasher);

/// What an `lru::LruCache` holds, most recently used first.
pub uninterp spec fn contents(c: lru::LruCache<u64, CacheEntry>) -> Seq<(u64, CacheModel)>;

/// How many entries an `lru::LruCache` takes before it drops some by itself.
pub uninterp spec fn capacity(c: lru::LruCache<u64, CacheEntry>) -> nat;

/// The entry of a key.
pub open spec fn entry_of(s: Seq<(u64, CacheModel)>, key: u64) -> Option<CacheModel>
    decreases s.len(),
{
    if s.len() == 0 {
        None
    } else if s[0].0 == key {
        Some(s[0].1)
    } else {
        entry_of(s.drop_first(), key)
    }
}

/// The other entries, in order.
pub open spec fn without(s: Seq<(u64, CacheModel)>, key: u64) -> Seq<(u64, CacheModel)>
    decreases s.len(),
{
    if s.len() == 0 {
        s
    } else if s[0].0 == key {
        without(s.drop_first(), key)
    } else {
        seq![s[0]] + without(s.drop_first(), key)
    }
}

/// The entries with one put first.
pub open spec fn with_first(
    s: Seq<(u64, CacheModel)>,
    key: u64,
    e: CacheModel,
) -> Seq<(u64, CacheModel)> {
    seq![(key, e)] + without(s, key)
}

/// The entries after a key was looked up: its entry, if any, comes first.
pub open spec fn touched(s: Seq<(u64, CacheModel)>, key: u64) -> Seq<(u64, CacheModel)> {
    match entry_of(s, key) {
        Some(e) => with_first(s, key, e),
        None => s,
    }
}

/// `lru::LruCache::unbounded`: an empty cache that takes `usize::MAX` entries.
#[verifier::external_body]
fn lru_unbounded() -> (r: lru::LruCache<u64, CacheEntry>)
    ensures
        contents(r) == Seq::<(u64, CacheModel)>::empty(),
        capacity(r) == usize::MAX,
{
    lru::LruCache::unbounded()
}

/// `lru::LruCache::put`: puts an entry first and returns the one it replaces. A full cache, which
/// would drop its last entry, is left out.
#[verifier::external_body]
fn lru_put(c: &mut lru::LruCache<u64, CacheEntry>, key: u64, e: CacheEntry) -> (r: Option<
    CacheEntry,
>)
    requires
        contents(*old(c)).len() < capacity(*old(c)),
    ensures
        contents(*final(c)) == with_first(contents(*old(c)), key, e@),
        capacity(*final(c)) == capacity(*old(c)),
        opt_entry(r) == entry_of(contents(*old(c)), key),
{
    c.put(key, e)
}

/// `lru::LruCache::get`: the entry of a key, which is put first.
#[verifier::external_body]
fn lru_get<'a>(c: &'a mut lru::LruCache<u64, CacheEntry>, key: u64) -> (r: Option<&'a CacheEntry>)
    ensures
        contents(*final(c)) == touched(contents(*old(c)), key),
        capacity(*final(c)) == capacity(*old(c)),
        opt_entry_ref(r) == entry_of(contents(*old(c)), key),
{
    c.get(&key)
}

/// `lru::LruCache::pop`: takes out the entry of a key.
#[verifier::external_body]
fn lru_pop(c: &mut lru::LruCache<u64, CacheEntry>, key: u64) -> (r: Option<CacheEntry>)
    ensures
        contents(*final(c)) == without(contents(*old(c)), key),
        capacity(*final(c)) == capacity(*old(c)),
        opt_entry(r) == entry_of(contents(*old(c)), key),
{
    c.pop(&key)
}

/// `lru::LruCache::pop_lru`: takes out the last entry.
#[verifier::external_body]
fn lru_pop_last(c: &mut lru::LruCache<u64, CacheEntry>) -> (r: Option<(u64, CacheEntry)>)
    ensures
        capacity(*final(c)) == capacity(*old(c)),
        match r {
            Some(p) => {
                &&& contents(*old(c)).len() > 0
                &&& contents(*old(c)).last() == (p.0, p.1@)
                &&& contents(*final(c)) == contents(*old(c)).drop_last()
            },
            None => contents(*old(c)).len() == 0 && contents(*final(c)) == contents(*old(c)),
        },
{
    c.pop_lru()
}

/// `lru::LruCache::len`: the number of entries.
#[verifier::external_body]
fn lru_len(c: &lru::LruCache<u64, CacheEntry>) -> (r: usize)
    ensures
        r == contents(*c).len(),
{
    c.len()
}

// ---------------------------------------------------------------------------
// The cache with a byte budget
// ---------------------------------------------------------------------------

/// Bytes of the entries.
pub open spec fn total(s: Seq<(u64, CacheModel)>) -> nat
    decreases s.len(),
{
    if s.len() == 0 {
        0
    } else {
        total(s.drop_last()) + s.last().1.data.len()
    }
}

/// Whether no key occurs twice.
pub open spec fn distinct(s: Seq<(u64, CacheModel)>) -> bool {
    forall|i: int, j: int| 0 <= i < j < s.len() ==> (#[trigger] s[i]).0 != (#[trigger] s[j]).0
}

/// The entries that stay within a budget: those least recently used are dropped, one by one.
pub open spec fn shrunk(s: Seq<(u64, CacheModel)>, max: nat) -> Seq<(u64, CacheModel)>
    decreases s.len(),
{
    if s.len() > 0 && total(s) > max {
        shrunk(s.drop_last(), max)
    } else {
        s
    }
}

proof fn lemma_total_split(a: Seq<(u64, CacheModel)>, b: Seq<(u64, CacheModel)>)
    ensures
        total(a + b) == total(a) + total(b),
    decreases b.len(),
{
    if b.len() == 0 {
        assert(a + b =~= a);
    } else {
        lemma_total_split(a, b.drop_last());
        assert((a + b).drop_last() =~= a + b.drop_last());
        assert((a + b).last() == b.last());
    }
}

proof fn lemma_total_first(e: (u64, CacheModel))
    ensures
        total(seq![e]) == e.1.data.len(),
{
    assert(seq![e].drop_last() =~= Seq::<(u64, CacheModel)>::empty());
    assert(total(seq![e].drop_last()) == 0);
}

/// An entry without which the keys are distinct is found once, and accounts for the difference.
proof fn lemma_without(s: Seq<(u64, CacheModel)>, key: u64)
    requires
        distinct(s),
    ensures
        distinct(without(s, key)),
        without(s, key).len() <= s.len(),
        forall|i: int|
            0 <= i < without(s, key).len() ==> (#[trigger] without(s, key)[i]).0 != key
                && s.contains(without(s, key)[i]),
        total(s) == total(without(s, key)) + match entry_of(s, key) {
            Some(e) => e.data.len(),
            None => 0,
        },
    decreases s.len(),
{
    if s.len() > 0 {
        let t = s.drop_first();
        assert forall|i: int, j: int| 0 <= i < j < t.len() implies (#[trigger] t[i]).0 != (
        #[trigger] t[j]).0 by {
            assert(s[i + 1].0 != s[j + 1].0);
        }
        lemma_without(t, key);
        lemma_total_split(seq![s[0]], t);
        lemma_total_first(s[0]);
        assert(s =~= seq![s[0]] + t);
        let w = without(t, key);
        assert forall|i: int| 0 <= i < w.len() implies s.contains(#[trigger] w[i]) by {
            let j = choose|j: int| 0 <= j < t.len() && t[j] == w[i];
            assert(s[j + 1] == w[i]);
        }
        if s[0].0 == key {
            assert forall|i: int| 0 <= i < t.len() implies (#[trigger] t[i]).0 != key by {
                assert(s[0].0 != s[i + 1].0);
            }
            lemma_absent(t, key);
        } else {
            lemma_total_split(seq![s[0]], w);
            let r = without(s, key);
            assert forall|i: int, j: int| 0 <= i < j < r.len() implies (#[trigger] r[i]).0 != (
            #[trigger] r[j]).0 by {
                assert(r[j] == w[j - 1]);
                if i == 0 {
                    let k = choose|k: int| 0 <= k < t.len() && t[k] == w[j - 1];
                    assert(s[0].0 != s[k + 1].0);
                } else {
                    assert(r[i] == w[i - 1]);
                }
            }
            assert forall|i: int| 0 <= i < r.len() implies (#[trigger] r[i]).0 != key
                && s.contains(r[i]) by {
                if i == 0 {
                    assert(s[0] == r[0]);
                } else {
                    assert(r[i] == w[i - 1]);
                }
            }
        }
    }
}

/// A key that no entry has.
proof fn lemma_absent(s: Seq<(u64, CacheModel)>, key: u64)
    requires
        forall|i: int| 0 <= i < s.len() ==> (#[trigger] s[i]).0 != key,
    ensures
        without(s, key) == s,
        entry_of(s, key) is None,
    decreases s.len(),
{
    if s.len() > 0 {
        let t = s.drop_first();
        assert forall|i: int| 0 <= i < t.len() implies (#[trigger] t[i]).0 != key by {
            assert(s[i + 1].0 != key);
        }
        lemma_absent(t, key);
        assert(seq![s[0]] + t =~= s);
    }
}

proof fn lemma_with_first(s: Seq<(u64, CacheModel)>, key: u64, e: CacheModel)
    requires
        distinct(s),
    ensures
        distinct(with_first(s, key, e)),
        total(with_first(s, key, e)) == e.data.len() + total(without(s, key)),
{
    lemma_without(s, key);
    lemma_total_split(seq![(key, e)], without(s, key));
    lemma_total_first((key, e));
    let r = with_first(s, key, e);
    let w = without(s, key);
    assert forall|i: int, j: int| 0 <= i < j < r.len() implies (#[trigger] r[i]).0 != (
    #[trigger] r[j]).0 by {
        assert(r[j] == w[j - 1]);
        if i > 0 {
            assert(r[i] == w[i - 1]);
        }
    }
}

/// A response cache with a budget in bytes.
pub struct SizedCache {
    lru: lru::LruCache<u64, CacheEntry>,
    total_bytes: usize,
    max_bytes: usize,
}

impl SizedCache {
    /// The entries, most recently used first.
    pub closed spec fn entries(self) -> Seq<(u64, CacheModel)> {
        contents(self.lru)
    }

    /// The budget.
    pub closed spec fn budget(self) -> nat {
        self.max_bytes as nat
    }

    /// Well-formed: no key twice, the bytes counted right, and within the budget.
    pub closed spec fn wf(self) -> bool {
        &&& distinct(contents(self.lru))
        &&& self.total_bytes == total(contents(self.lru))
        &&& self.total_bytes <= self.max_bytes
        &&& capacity(self.lru) == usize::MAX
    }

    /// An empty cache.
    pub fn new(max_bytes: usize) -> (r: SizedCache)
        ensures
            r.wf(),
            r.entries() == Seq::<(u64, CacheModel)>::empty(),
            r.budget() == max_bytes,
    {
        SizedCache { lru: lru_unbounded(), total_bytes: 0, max_bytes }
    }

    /// Whether the counters have room for one more entry of the given size.
    pub fn has_room(&self, size: usize) -> (r: bool)
        requires
            self.wf(),
        ensures
            r == (self.entries().len() < usize::MAX && total(self.entries()) + size <= usize::MAX),
    {
        lru_len(&self.lru) < usize::MAX && size <= usize::MAX - self.total_bytes
    }

    /// Adds an entry, in place of another of its key. Where the budget is exceeded, the entries
    /// least recently used are dropped until it is not.
    pub fn put(&mut self, key: u64, entry: CacheEntry)
        requires
            old(self).wf(),
            old(self).entries().len() < usize::MAX,
            total(old(self).entries()) + entry.data@.len() <= usize::MAX,
        ensures
            final(self).wf(),
            final(self).budget() == old(self).budget(),
            final(self).entries() == shrunk(
                with_first(old(self).entries(), key, entry@),
                old(self).budget(),
            ),
    {
        let ghost before = contents(self.lru);
        let ghost e = entry@;
        proof {
            lemma_without(before, key);
            lemma_with_first(before, key, e);
        }
        let size: usize = entry.data.len();
        if let Some(old_entry) = lru_put(&mut self.lru, key, entry) {
            self.total_bytes = self.total_bytes - old_entry.data.len();
        }
        self.total_bytes = self.total_bytes + size;
        let ghost all = with_first(before, key, e);
        while self.total_bytes > self.max_bytes
            invariant
                distinct(contents(self.lru)),
                self.total_bytes == total(contents(self.lru)),
                self.max_bytes == old(self).max_bytes,
                capacity(self.lru) == usize::MAX,
                shrunk(all, self.max_bytes as nat) == shrunk(
                    contents(self.lru),
                    self.max_bytes as nat,
                ),
            decreases contents(self.lru).len(),
        {
            let ghost now = contents(self.lru);
            if let Some((_, old_entry)) = lru_pop_last(&mut self.lru) {
                self.total_bytes = self.total_bytes - old_entry.data.len();
            }
            assert(now.len() > 0);
            assert forall|i: int, j: int|
                0 <= i < j < now.drop_last().len() implies (#[trigger] now.drop_last()[i]).0 != (
            #[trigger] now.drop_last()[j]).0 by {
                assert(now[i].0 != now[j].0);
            }
        }
    }

    /// The entry of a key, which becomes the one most recently used.
    pub fn get(&mut self, key: &u64) -> (r: Option<&CacheEntry>)
        requires
            old(self).wf(),
        ensures
            final(self).wf(),
            final(self).budget() == old(self).budget(),
            final(self).entries() == touched(old(self).entries(), *key),
            opt_entry_ref(r) == entry_of(old(self).entries(), *key),
    {
        proof {
            let s = contents(self.lru);
            lemma_without(s, *key);
            if let Some(e) = entry_of(s, *key) {
                lemma_with_first(s, *key, e);
            }
        }
        lru_get(&mut self.lru, *key)
    }

    /// Drops the entry of a key.
    pub fn remove(&mut self, key: &u64)
        requires
            old(self).wf(),
        ensures
            final(self).wf(),
            final(self).budget() == old(self).budget(),
            final(self).entries() == without(old(self).entries(), *key),
    {
        proof {
            lemma_without(contents(self.lru), *key);
        }
        if let Some(old_entry) = lru_pop(&mut self.lru, *key) {
            self.total_bytes = self.total_bytes - old_entry.data.len();
        }
    }
}

// ---------------------------------------------------------------------------
// Lookup
// ---------------------------------------------------------------------------

/// The text of the last field of the given name, `None` where there is none or it is no text.
pub open spec fn last_text(hs: Seq<http::Field>, name: &str) -> Option<Seq<char>>
    decreases hs.len(),
{
    if hs.len() == 0 {
        None
    } else if http::named(hs.last(), name) {
        http::value_text(hs.last().value)
    } else {
        last_text(hs.drop_last(), name)
    }
}

/// The text of the last header of the given name.
pub fn last_header_text<'a>(headers: &[Header<'a>], name: &str) -> (r: Option<&'a str>)
    ensures
        http::opt_view(r) == last_text(http::fields(headers@), name),
{
    let ghost hs = http::fields(headers@);
    let mut r: Option<&'a str> = None;
    for i in 0..headers.len()
        invariant
            hs == http::fields(headers@),
            http::opt_view(r) == last_text(hs.take(i as int), name),
    {
        proof {
            assert(hs.take(i + 1).drop_last() =~= hs.take(i as int));
            assert(hs.take(i + 1).last() == headers@[i as int]@);
        }
        if str_eq_ci(headers[i].name, name) {
            r = text_of(headers[i].value);
        }
    }
    assert(hs.take(hs.len() as int) =~= hs);
    r
}

/// Whether a client that has a copy already may keep it: it names the entry's tag, or the entry's
/// date.
pub open spec fn revalidates(e: CacheModel, hs: Seq<http::Field>) -> bool {
    ||| last_text(hs, "if-none-match") is Some && last_text(hs, "if-none-match") == e.etag
    ||| last_text(hs, "if-modified-since") is Some && last_text(hs, "if-modified-since")
        == e.last_modified
}

/// What the cache has for a request.
pub enum Lookup {
    /// Nothing.
    Miss,
    /// The client's copy is still good.
    NotModified,
    /// A response.
    Hit(Vec<u8>),
}

/// What the cache has for a request: nothing, where there is no entry or it has run out; leave to
/// keep a copy, where the client asks for it and the route respects that; or the response.
pub open spec fn lookup_is(
    r: Lookup,
    e: Option<CacheModel>,
    respect: bool,
    hs: Seq<http::Field>,
    now: u64,
) -> bool {
    match e {
        Some(x) => if x.expires_at > now {
            if respect && revalidates(x, hs) {
                r is NotModified
            } else {
                r matches Lookup::Hit(d) && d@ == x.data
            }
        } else {
            r is Miss
        },
        None => r is Miss,
    }
}

/// The entries after a lookup: an entry that has run out is gone, one that has not comes first.
pub open spec fn after_lookup(
    s: Seq<(u64, CacheModel)>,
    key: u64,
    now: u64,
) -> Seq<(u64, CacheModel)> {
    match entry_of(s, key) {
        Some(e) => if e.expires_at > now {
            touched(s, key)
        } else {
            without(touched(s, key), key)
        },
        None => s,
    }
}

fn same_text(a: Option<&str>, b: &Option<String>) -> (r: bool)
    ensures
        r == (a is Some && http::opt_view(a) == config::opt_text(*b)),
{
    match (a, b) {
        (Some(x), Some(y)) => str_eq(x, y.as_str()),
        _ => false,
    }
}

/// Looks a request up in the cache, at `now` nanoseconds.
pub fn cache_lookup(
    cache: &mut SizedCache,
    cache_key: u64,
    respect_headers: bool,
    headers: &[Header],
    now: u64,
) -> (r: Lookup)
    requires
        old(cache).wf(),
    ensures
        final(cache).wf(),
        final(cache).budget() == old(cache).budget(),
        final(cache).entries() == after_lookup(old(cache).entries(), cache_key, now),
        lookup_is(
            r,
            entry_of(old(cache).entries(), cache_key),
            respect_headers,
            http::fields(headers@),
            now,
        ),
{
    let none_match = last_header_text(headers, "if-none-match");
    let modified_since = last_header_text(headers, "if-modified-since");
    let mut stale: bool = false;
    let r = match cache.get(&cache_key) {
        Some(e) => if e.expires_at > now as u128 {
            if respect_headers && (same_text(none_match, &e.etag) || same_text(
                modified_since,
                &e.last_modified,
            )) {
                Lookup::NotModified
            } else {
                let mut data: Vec<u8> = Vec::new();
                push_bytes(&mut data, e.data.as_slice());
                assert(data@ =~= e.data@);
                Lookup::Hit(data)
            }
        } else {
            stale = true;
            Lookup::Miss
        },
        None => Lookup::Miss,
    };
    if stale {
        cache.remove(&cache_key);
    }
    r
}

// ---------------------------------------------------------------------------
// Hits
// ---------------------------------------------------------------------------

/// Whether the connection continues after a hit was served.
#[derive(Clone, Copy, PartialEq, Eq, Structural, Debug)]
pub enum CacheHitOutcome {
    Continue,
    Close,
}

/// The connection continues where the hit was written and the client asked to go on.
pub fn hit_outcome(written: bool, keep_alive: bool) -> (r: CacheHitOutcome)
    ensures
        (r == CacheHitOutcome::Continue) == (written && keep_alive),
{
    if written && keep_alive {
        CacheHitOutcome::Continue
    } else {
        CacheHitOutcome::Close
    }
}

/// Whether the connection may continue after a hit: the client asked for it, and the request had no
/// body that is still to be read.
pub fn hit_keepalive(client_keep_alive: bool, clen: usize, is_chunked: bool) -> (r: bool)
    ensures
        r == (client_keep_alive && clen == 0 && !is_chunked),
{
    client_keep_alive && clen == 0 && !is_chunked
}

/// The answer to a client whose copy is still good.
pub open spec fn not_modified(keep_alive: bool) -> Seq<u8> {
    if keep_alive {
        "HTTP/1.1 304 Not Modified\r\nConnection: keep-alive\r\n\r\n".spec_bytes()
    } else {
        "HTTP/1.1 304 Not Modified\r\nConnection: close\r\n\r\n".spec_bytes()
    }
}

/// The answer to a client whose copy is still good.
pub fn not_modified_response(keep_alive: bool) -> (r: &'static str)
    ensures
        r.spec_bytes() == not_modified(keep_alive),
{
    if keep_alive {
        "HTTP/1.1 304 Not Modified\r\nConnection: keep-alive\r\n\r\n"
    } else {
        "HTTP/1.1 304 Not Modified\r\nConnection: close\r\n\r\n"
    }
}

/// Where the head of a response ends: with the line break of its last field. Without a blank line
/// all of it is head.
pub open spec fn head_end(blob: Seq<u8>) -> int {
    match header_util::search(blob, "\r\n\r\n".spec_bytes(), 0) {
        Some(p) => p + 2,
        None => blob.len() as int,
    }
}

/// A stored response as it is served. The stored head says that the connection continues; for a
/// client that asked to close, its first such line is rewritten. The body is not searched.
pub open spec fn served(blob: Seq<u8>, keep_alive: bool) -> Seq<u8> {
    match header_util::search_ci(
        blob.take(head_end(blob)),
        "Connection: keep-alive\r\n".spec_bytes(),
        0,
    ) {
        Some(p) if !keep_alive => blob.take(p) + "Connection: close\r\n".spec_bytes() + blob.skip(
            p + "Connection: keep-alive\r\n".spec_bytes().len(),
        ),
        _ => blob,
    }
}

proof fn lemma_head_end(blob: Seq<u8>)
    ensures
        0 <= head_end(blob) <= blob.len(),
        header_util::search(blob, "\r\n\r\n".spec_bytes(), 0) matches Some(p) ==> p + 4
            <= blob.len(),
{
    reveal_strlit("\r\n\r\n");
    assert("\r\n\r\n".is_ascii());
    header_util::lemma_search(blob, "\r\n\r\n".spec_bytes(), 0);
}

/// A stored response as it is served.
pub fn hit_response(blob: Vec<u8>, keep_alive: bool) -> (r: Vec<u8>)
    ensures
        r@ == served(blob@, keep_alive),
{
    if keep_alive {
        return blob;
    }
    proof {
        lemma_head_end(blob@);
    }
    let n: usize = blob.len();
    let end: usize = match find_bytes(blob.as_slice(), "\r\n\r\n".as_bytes()) {
        Some(p) => p + 2,
        None => n,
    };
    let pattern = "Connection: keep-alive\r\n".as_bytes();
    let m: usize = pattern.len();
    let head = &blob.as_slice()[0..end];
    assert(head@ =~= blob@.take(end as int));
    match find_ci(head, pattern) {
        Some(p) => {
            let mut v: Vec<u8> = Vec::new();
            push_bytes(&mut v, &blob.as_slice()[0..p]);
            push_bytes(&mut v, "Connection: close\r\n".as_bytes());
            push_bytes(&mut v, &blob.as_slice()[p + m..n]);
            assert(v@ =~= served(blob@, keep_alive));
            v
        },
        None => blob,
    }
}

// ---------------------------------------------------------------------------
// What may be cached
// ---------------------------------------------------------------------------

/// The encoding that a client takes, as far as the cache tells encodings apart.
pub open spec fn encoding_of(hs: Seq<http::Field>) -> Seq<char>
    decreases hs.len(),
{
    if hs.len() == 0 {
        ""@
    } else if http::named(hs.last(), "accept-encoding") && valid_utf8(hs.last().value) {
        if header_util::search(hs.last().value, "br".spec_bytes(), 0) is Some {
            "br"@
        } else if header_util::search(hs.last().value, "gzip".spec_bytes(), 0) is Some {
            "gzip"@
        } else {
            encoding_of(hs.drop_last())
        }
    } else {
        encoding_of(hs.drop_last())
    }
}

/// The encoding that a client takes: `br` or else `gzip`, by the last `Accept-Encoding` that names
/// one of them.
pub fn client_encoding(headers: &[Header]) -> (r: &'static str)
    ensures
        r@ == encoding_of(http::fields(headers@)),
{
    let ghost hs = http::fields(headers@);
    let mut r: &'static str = "";
    for i in 0..headers.len()
        invariant
            hs == http::fields(headers@),
            r@ == encoding_of(hs.take(i as int)),
    {
        proof {
            assert(hs.take(i + 1).drop_last() =~= hs.take(i as int));
            assert(hs.take(i + 1).last() == headers@[i as int]@);
        }
        if str_eq_ci(headers[i].name, "accept-encoding") && text_of(headers[i].value).is_some() {
            if find_bytes(headers[i].value, "br".as_bytes()).is_some() {
                r = "br";
            } else if find_bytes(headers[i].value, "gzip".as_bytes()).is_some() {
                r = "gzip";
            }
        }
    }
    assert(hs.take(hs.len() as int) =~= hs);
    r
}

/// The key under which a response is kept: the default hasher's digest of host, target and
/// encoding, each closed by the byte 255, which no text holds.
pub open spec fn key_of(host: Seq<char>, target: Seq<char>, enc: Seq<char>) -> u64 {
    DefaultHasher::spec_finish(
        seq![
            encode_utf8(host),
            seq![255u8],
            encode_utf8(target),
            seq![255u8],
            encode_utf8(enc),
            seq![255u8],
        ],
    )
}

/// The key under which a response is kept.
pub fn cache_key(host: &str, path: &str, enc: &str) -> (r: u64)
    ensures
        r == key_of(host@, path@, enc@),
{
    let mut end: Vec<u8> = Vec::new();
    end.push(255);
    assert(end@ =~= seq![255u8]);
    let mut hasher = DefaultHasher::new();
    hasher.write(host.as_bytes());
    hasher.write(end.as_slice());
    hasher.write(path.as_bytes());
    hasher.write(end.as_slice());
    hasher.write(enc.as_bytes());
    hasher.write(end.as_slice());
    assert(hasher@ =~= seq![
        encode_utf8(host@),
        seq![255u8],
        encode_utf8(path@),
        seq![255u8],
        encode_utf8(enc@),
        seq![255u8],
    ]);
    hasher.finish()
}

/// Whether a field forbids an answer from the cache.
pub open spec fn forbids_cached(h: http::Field) -> bool {
    http::named(h, "cache-control") && (http::mentions(h.value, "no-cache") || http::mentions(
        h.value,
        "no-store",
    ))
}

/// Whether some field forbids an answer from the cache.
pub open spec fn wants_fresh(hs: Seq<http::Field>) -> bool {
    exists|i: int| 0 <= i < hs.len() && forbids_cached(#[trigger] hs[i])
}

fn asks_for_fresh(headers: &[Header]) -> (r: bool)
    ensures
        r == wants_fresh(http::fields(headers@)),
{
    let ghost hs = http::fields(headers@);
    for i in 0..headers.len()
        invariant
            hs == http::fields(headers@),
            forall|j: int| 0 <= j < i ==> !forbids_cached(#[trigger] hs[j]),
    {
        let h = &headers[i];
        assert(hs[i as int] == h@);
        if str_eq_ci(h.name, "cache-control") && (contains_ci(h.value, "no-cache".as_bytes())
            || contains_ci(h.value, "no-store".as_bytes())) {
            assert(forbids_cached(hs[i as int]));
            return true;
        }
    }
    false
}

/// How the cache takes part in a request: with what settings the response is stored, if it is, and
/// whether the request is looked up.
#[derive(Clone, Copy, PartialEq, Eq, Structural, Debug)]
pub struct CachePlan {
    pub store: Option<RouteCache>,
    pub lookup: bool,
}

/// How the cache takes part in a request. Only a `GET` without credentials on a route with a cache
/// is cached at all; a request for an upgrade is neither stored nor looked up, and one that asks
/// for a fresh response is not looked up.
pub open spec fn cache_plan_of(
    method: Option<Seq<char>>,
    hs: Seq<http::Field>,
    cache: Option<RouteCache>,
) -> CachePlan {
    let cached = method == Some("GET"@) && !http::has_field(hs, "authorization");
    let upgrade = http::has_field(hs, "upgrade");
    CachePlan {
        store: if cached && !upgrade {
            cache
        } else {
            None
        },
        lookup: cached && cache is Some && !upgrade && !wants_fresh(hs),
    }
}

/// How the cache takes part in a request.
pub fn cache_plan(method: Option<&str>, headers: &[Header], cache: Option<RouteCache>) -> (r:
    CachePlan)
    ensures
        r == cache_plan_of(http::opt_view(method), http::fields(headers@), cache),
{
    let is_get = match method {
        Some(m) => str_eq(m, "GET"),
        None => false,
    };
    if !is_get || has_header(headers, "authorization") || has_header(headers, "upgrade") {
        return CachePlan { store: None, lookup: false };
    }
    CachePlan { store: cache, lookup: cache.is_some() && !asks_for_fresh(headers) }
}

/// The key of a request: that of its host, target and encoding where it is looked up, and 0 where
/// its response is stored without a lookup.
pub fn plan_key(plan: &CachePlan, host: &str, path: &str, headers: &[Header]) -> (r: u64)
    ensures
        r == if plan.lookup {
            key_of(host@, path@, encoding_of(http::fields(headers@)))
        } else {
            0
        },
{
    if plan.lookup {
        cache_key(host, path, client_encoding(headers))
    } else {
        0
    }
}

// ---------------------------------------------------------------------------
// Laws
// ---------------------------------------------------------------------------

/// The cache never exceeds its budget, nor does it hold a key twice.
pub proof fn law_cache_keeps_to_its_budget(c: SizedCache)
    requires
        c.wf(),
    ensures
        total(c.entries()) <= c.budget(),
        distinct(c.entries()),
{
}

/// What stays when the budget is exceeded is the longest run of most recently used entries that
/// fits.
pub proof fn law_least_recent_goes_first(s: Seq<(u64, CacheModel)>, max: nat)
    ensures
        shrunk(s, max).len() <= s.len(),
        shrunk(s, max) == s.take(shrunk(s, max).len() as int),
        total(shrunk(s, max)) <= max,
        forall|k: int|
            shrunk(s, max).len() < k <= s.len() ==> total(#[trigger] s.take(k)) > max,
    decreases s.len(),
{
    if s.len() > 0 && total(s) > max {
        let t = s.drop_last();
        law_least_recent_goes_first(t, max);
        let n = shrunk(s, max).len() as int;
        assert(t.take(n) =~= s.take(n));
        assert forall|k: int| n < k <= s.len() implies total(#[trigger] s.take(k)) > max by {
            if k == s.len() {
                assert(s.take(k) =~= s);
            } else {
                assert(s.take(k) =~= t.take(k));
            }
        }
    } else {
        assert(s.take(s.len() as int) =~= s);
    }
}

/// A response that fits the budget is found after it was stored, and a later request is answered
/// with it as long as it has not run out.
pub proof fn law_stored_response_is_found(
    s: Seq<(u64, CacheModel)>,
    key: u64,
    e: CacheModel,
    max: nat,
)
    requires
        e.data.len() <= max,
    ensures
        entry_of(shrunk(with_first(s, key, e), max), key) == Some(e),
        forall|r: Lookup, respect: bool, hs: Seq<http::Field>, now: u64| #[trigger]
            lookup_is(
                r,
                entry_of(shrunk(with_first(s, key, e), max), key),
                respect,
                hs,
                now,
            ) && now < e.expires_at ==> if respect && revalidates(e, hs) {
                r is NotModified
            } else {
                r matches Lookup::Hit(d) && d@ == e.data
            },
{
    let all = with_first(s, key, e);
    law_least_recent_goes_first(all, max);
    let r = shrunk(all, max);
    if r.len() == 0 {
        lemma_total_first((key, e));
        assert(all.take(1) =~= seq![(key, e)]);
    }
    assert(r[0] == all[0]);
}

proof fn lemma_without_has_none(s: Seq<(u64, CacheModel)>, key: u64)
    ensures
        entry_of(without(s, key), key) is None,
    decreases s.len(),
{
    if s.len() > 0 {
        lemma_without_has_none(s.drop_first(), key);
        if s[0].0 != key {
            assert(without(s, key).drop_first() =~= without(s.drop_first(), key));
        }
    }
}

/// A response that has run out is served to nobody, and looking it up removes it.
pub proof fn law_stale_response_is_not_served(
    s: Seq<(u64, CacheModel)>,
    key: u64,
    respect: bool,
    hs: Seq<http::Field>,
    now: u64,
    r: Lookup,
)
    requires
        entry_of(s, key) matches Some(e) && e.expires_at <= now,
        lookup_is(r, entry_of(s, key), respect, hs, now),
    ensures
        r is Miss,
        entry_of(after_lookup(s, key, now), key) is None,
{
    lemma_without_has_none(touched(s, key), key);
}

/// A stored response leaves the other entries as they were, but for those that the budget drops.
pub proof fn law_store_keeps_other_entries(
    s: Seq<(u64, CacheModel)>,
    key: u64,
    e: CacheModel,
    other: u64,
)
    requires
        other != key,
    ensures
        entry_of(with_first(s, key, e), other) == entry_of(s, other),
        entry_of(without(s, key), other) == entry_of(s, other),
    decreases s.len(),
{
    let w = without(s, key);
    assert(with_first(s, key, e).drop_first() =~= w);
    if s.len() > 0 {
        law_store_keeps_other_entries(s.drop_first(), key, e, other);
        if s[0].0 != key {
            assert(w.drop_first() =~= without(s.drop_first(), key));
        }
    }
}

/// A hit leaves the body of the stored response as it is, whatever it holds: from the blank line on
/// the response is served as it was stored.
pub proof fn law_hit_keeps_the_body(blob: Seq<u8>, keep_alive: bool)
    ensures
        served(blob, keep_alive).len() >= blob.len() - head_end(blob),
        served(blob, keep_alive).skip(
            served(blob, keep_alive).len() - (blob.len() - head_end(blob)),
        ) == blob.skip(head_end(blob)),
{
    lemma_head_end(blob);
    let end = head_end(blob);
    let pat = "Connection: keep-alive\r\n".spec_bytes();
    header_util::lemma_search_ci(blob.take(end), pat, 0);
    let r = served(blob, keep_alive);
    match header_util::search_ci(blob.take(end), pat, 0) {
        Some(p) if !keep_alive => {
            let close = "Connection: close\r\n".spec_bytes();
            assert(r.len() == p + close.len() + (blob.len() - (p + pat.len())));
            assert(r.skip(r.len() - (blob.len() - end)) =~= blob.skip(end));
        },
        _ => {
            assert(r.skip(r.len() - (blob.len() - end)) =~= blob.skip(end));
        },
    }
}

/// Where the first line of a stored head that says so is the one that keeps the connection alive,
/// and the blank line comes right behind it, a client that asked to close gets the head that says
/// `close` instead.
pub proof fn law_closing_client_is_told_to_close(fields: Seq<u8>, body: Seq<u8>)
    requires
        ({
            let ka = "Connection: keep-alive\r\n".spec_bytes();
            let blob = fields + ka + "\r\n".spec_bytes() + body;
            &&& head_end(blob) == fields.len() + ka.len()
            &&& header_util::search_ci(fields + ka, ka, 0) == Some(fields.len() as int)
        }),
    ensures
        served(
            fields + "Connection: keep-alive\r\n".spec_bytes() + "\r\n".spec_bytes() + body,
            false,
        ) == fields + "Connection: close\r\n".spec_bytes() + "\r\n".spec_bytes() + body,
{
    let ka = "Connection: keep-alive\r\n".spec_bytes();
    let blob = fields + ka + "\r\n".spec_bytes() + body;
    assert(blob.take(head_end(blob)) =~= fields + ka);
    assert(served(blob, false) =~= fields + "Connection: close\r\n".spec_bytes()
        + "\r\n".spec_bytes() + body);
}

/// A request with credentials is neither answered from the cache nor stored in it.
pub proof fn law_credentials_bypass_the_cache(
    method: Option<Seq<char>>,
    hs: Seq<http::Field>,
    cache: Option<RouteCache>,
)
    requires
        http::has_field(hs, "authorization"),
    ensures
        cache_plan_of(method, hs, cache) == (CachePlan { store: None, lookup: false }),
{
}

} // verus!
