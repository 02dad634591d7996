//! Bearer tokens: numeric claims, signatures, and the memory of tokens already checked.

use base64::Engine;
use hmac::Mac;
use sha2::Digest;
use vstd::hash_map::*;
use vstd::prelude::*;
use vstd::string::*;
use vstd::utf8::*;

use crate::http;
use crate::http::{text_of, Header};
use crate::pipe;
use crate::text;
use crate::text::{
    bytes_eq, push_bytes, read_digits, split_str, str_eq_ci, strip_prefix,
};

verus! {

/// Entries above which the memory of checked tokens is emptied.
pub const JWT_CACHE_MAX: usize = 10_000;

/// Longest time, in seconds, that a checked token is remembered.
pub const JWT_CACHE_TTL_SECS: u64 = 300;

/// Nanoseconds in a second.
pub const NANOS: u64 = 1_000_000_000;

// ---------------------------------------------------------------------------
// Claims
// ---------------------------------------------------------------------------

/// A key in double quotes.
pub open spec fn quoted_key(key: Seq<u8>) -> Seq<u8> {
    seq![34u8] + key + seq![34u8]
}

/// Where the run of blanks and colons from `j` on ends.
pub open spec fn after_separator(p: Seq<u8>, j: int) -> int
    decreases p.len() - j,
{
    if 0 <= j < p.len() && (p[j] == 32 || p[j] == 58) {
        after_separator(p, j + 1)
    } else {
        j
    }
}

/// Where the run of digits from `j` on ends.
pub open spec fn after_digits(p: Seq<u8>, j: int) -> int
    decreases p.len() - j,
{
    if 0 <= j < p.len() && 48 <= p[j] <= 57 {
        after_digits(p, j + 1)
    } else {
        j
    }
}

/// The digits that belong to a key that ends at `j`.
pub open spec fn number_after(p: Seq<u8>, j: int) -> Seq<u8> {
    p.subrange(after_separator(p, j), after_digits(p, after_separator(p, j)))
}

/// The number of the first occurrence of `pat` from `i` on that has one.
pub open spec fn claim_from(p: Seq<u8>, pat: Seq<u8>, i: int) -> Option<nat>
    decreases p.len() - i,
{
    if i < 0 || i + pat.len() > p.len() || i >= p.len() {
        None
    } else if p.subrange(i, i + pat.len()) == pat && number_after(p, i + pat.len()).len() > 0 {
        text::parse_digits(number_after(p, i + pat.len()), 10, u64::MAX as nat)
    } else {
        claim_from(p, pat, i + 1)
    }
}

/// The numeric claim of a payload: the digits behind the first quoted key that has some, with
/// blanks and colons between. There is none where the number is out of range, or the key is longer
/// than 30 bytes.
pub open spec fn claim(p: Seq<u8>, key: Seq<u8>) -> Option<nat> {
    if key.len() + 2 > 32 {
        None
    } else {
        claim_from(p, quoted_key(key), 0)
    }
}

proof fn lemma_runs(p: Seq<u8>, j: int)
    requires
        0 <= j <= p.len(),
    ensures
        j <= after_separator(p, j) <= p.len(),
        j <= after_digits(p, j) <= p.len(),
    decreases p.len() - j,
{
    if j < p.len() {
        lemma_runs(p, j + 1);
    }
}

/// Finds `"<key>": <digits>` in a decoded payload and returns the number.
pub fn jwt_claim_u64(payload: &[u8], key: &[u8]) -> (r: Option<u64>)
    ensures
        match r {
            Some(v) => claim(payload@, key@) == Some(v as nat),
            None => claim(payload@, key@) is None,
        },
{
    if key.len() > 30 {
        return None;
    }
    let mut pat: Vec<u8> = Vec::new();
    pat.push(34);
    push_bytes(&mut pat, key);
    pat.push(34);
    assert(pat@ =~= quoted_key(key@));
    let n: usize = payload.len();
    let plen: usize = pat.len();
    if plen > n {
        return None;
    }
    let mut i: usize = 0;
    while i <= n - plen
        invariant
            n == payload@.len(),
            plen == pat@.len(),
            2 <= plen <= n,
            i <= n - plen + 1,
            pat@ == quoted_key(key@),
            key@.len() <= 30,
            claim(payload@, key@) == claim_from(payload@, pat@, i as int),
        decreases n - i,
    {
        if bytes_eq(&payload[i..i + plen], pat.as_slice()) {
            let mut j: usize = i + plen;
            while j < n && (payload[j] == 32 || payload[j] == 58)
                invariant
                    n == payload@.len(),
                    i + plen <= j <= n,
                    after_separator(payload@, i + plen) == after_separator(payload@, j as int),
                decreases n - j,
            {
                j += 1;
            }
            let start: usize = j;
            while j < n && 48 <= payload[j] && payload[j] <= 57
                invariant
                    n == payload@.len(),
                    start <= j <= n,
                    after_digits(payload@, start as int) == after_digits(payload@, j as int),
                decreases n - j,
            {
                j += 1;
            }
            if j > start {
                return read_digits(&payload[start..j], 10, u64::MAX);
            }
        }
        i += 1;
    }
    None
}

// ---------------------------------------------------------------------------
// Digests and encodings
// ---------------------------------------------------------------------------

/// What `sha2::Sha256::digest` returns.
pub uninterp spec fn sha256(data: Seq<u8>) -> Seq<u8>;

/// `sha2::Sha256::digest`: the digest of some bytes, which is 32 bytes long.
#[verifier::external_body]
fn sha256_digest(data: &[u8]) -> (r: Vec<u8>)
    ensures
        r@ == sha256(data@),
        r@.len() == 32,
{
    sha2::Sha256::digest(data).to_vec()
}

/// The HMAC-SHA256 tag that `hmac::Hmac` computes.
pub uninterp spec fn hmac_sha256(key: Seq<u8>, message: Seq<u8>) -> Seq<u8>;

/// `hmac::Mac::verify_slice`: whether a tag is the HMAC-SHA256 tag of a message. Any length of key
/// is taken.
#[verifier::external_body]
fn hmac_verify(key: &[u8], message: &[u8], tag: &[u8]) -> (r: bool)
    ensures
        r == (tag@ == hmac_sha256(key@, message@)),
{
    match <hmac::Hmac<sha2::Sha256> as hmac::digest::KeyInit>::new_from_slice(key) {
        Ok(mac) => mac.chain_update(message).verify_slice(tag).is_ok(),
        Err(_) => false,
    }
}

/// What `base64`'s URL-safe engine without padding reads in a text.
pub uninterp spec fn base64url_unpadded(s: Seq<char>) -> Option<Seq<u8>>;

/// What `base64`'s URL-safe engine with padding reads in a text.
pub uninterp spec fn base64url_padded(s: Seq<char>) -> Option<Seq<u8>>;

/// `base64::Engine::decode` with `URL_SAFE_NO_PAD`.
#[verifier::external_body]
fn decode_unpadded(s: &str) -> (r: Option<Vec<u8>>)
    ensures
        pipe::opt_bytes(r) == base64url_unpadded(s@),
{
    base64::engine::general_purpose::URL_SAFE_NO_PAD.decode(s).ok()
}

/// `base64::Engine::decode` with `URL_SAFE`.
#[verifier::external_body]
fn decode_padded(s: &str) -> (r: Option<Vec<u8>>)
    ensures
        pipe::opt_bytes(r) == base64url_padded(s@),
{
    base64::engine::general_purpose::URL_SAFE.decode(s).ok()
}

/// A part of a token decoded, with or without padding.
pub open spec fn decoded(s: Seq<char>) -> Option<Seq<u8>> {
    match base64url_unpadded(s) {
        Some(b) => Some(b),
        None => base64url_padded(s),
    }
}

fn decode_part(s: &str) -> (r: Option<Vec<u8>>)
    ensures
        pipe::opt_bytes(r) == decoded(s@),
{
    match decode_unpadded(s) {
        Some(b) => Some(b),
        None => decode_padded(s),
    }
}

// ---------------------------------------------------------------------------
// Tokens
// ---------------------------------------------------------------------------

/// The bytes that a token's signature covers: header and payload with a dot between.
pub open spec fn signing_input(parts: Seq<Seq<char>>) -> Seq<u8> {
    encode_utf8(parts[0]) + seq![46u8] + encode_utf8(parts[1])
}

/// Whether a token has three parts of which the last is the signature of the others.
pub open spec fn signed(token: Seq<char>, secret: Seq<char>) -> bool {
    let parts = text::split(token, '.');
    parts.len() == 3 && decoded(parts[2]) == Some(
        hmac_sha256(encode_utf8(secret), signing_input(parts)),
    )
}

/// The payload of a token.
pub open spec fn payload_of(token: Seq<char>) -> Option<Seq<u8>> {
    decoded(text::split(token, '.')[1])
}

/// A claim of a payload that may be missing.
pub open spec fn claim_of(payload: Option<Seq<u8>>, key: &str) -> Option<nat> {
    match payload {
        Some(p) => claim(p, key.spec_bytes()),
        None => None,
    }
}

/// Whether a payload is in force: not expired, and valid already.
pub open spec fn in_force(payload: Option<Seq<u8>>, now_secs: u64) -> bool {
    &&& claim_of(payload, "exp") matches Some(e) ==> e > now_secs
    &&& claim_of(payload, "nbf") matches Some(n) ==> n <= now_secs
}

/// How long, in seconds, a token in force is remembered: until it expires, and no longer than
/// [`JWT_CACHE_TTL_SECS`].
pub open spec fn lifetime(payload: Option<Seq<u8>>, now_secs: u64) -> nat {
    match claim_of(payload, "exp") {
        Some(e) => if e - now_secs < JWT_CACHE_TTL_SECS as int {
            (e - now_secs) as nat
        } else {
            JWT_CACHE_TTL_SECS as nat
        },
        None => JWT_CACHE_TTL_SECS as nat,
    }
}

/// How long, in seconds, a token with the given payload is remembered; `None` where it is not in
/// force.
pub fn token_lifetime(payload: Option<&[u8]>, now_secs: u64) -> (r: Option<u64>)
    ensures
        ({
            let p = match payload {
                Some(b) => Some(b@),
                None => None,
            };
            match r {
                Some(ttl) => in_force(p, now_secs) && ttl == lifetime(p, now_secs),
                None => !in_force(p, now_secs),
            }
        }),
{
    let (exp, nbf) = match payload {
        Some(p) => (jwt_claim_u64(p, "exp".as_bytes()), jwt_claim_u64(p, "nbf".as_bytes())),
        None => (None, None),
    };
    if let Some(n) = nbf {
        if n > now_secs {
            return None;
        }
    }
    match exp {
        Some(e) => if e <= now_secs {
            None
        } else if e - now_secs < JWT_CACHE_TTL_SECS {
            Some(e - now_secs)
        } else {
            Some(JWT_CACHE_TTL_SECS)
        },
        None => Some(JWT_CACHE_TTL_SECS),
    }
}

/// The bearer token of a header, if it is an `Authorization` header with one.
pub open spec fn bearer(h: http::Field) -> Option<Seq<char>> {
    match http::value_text(h.value) {
        Some(v) if http::named(h, "authorization") && "Bearer "@.is_prefix_of(v) => Some(
            v.skip("Bearer "@.len() as int),
        ),
        _ => None,
    }
}

fn bearer_token<'a>(h: &Header<'a>) -> (r: Option<&'a str>)
    ensures
        http::opt_view(r) == bearer(h@),
{
    if !str_eq_ci(h.name, "authorization") {
        return None;
    }
    match text_of(h.value) {
        Some(v) => strip_prefix(v, "Bearer "),
        None => None,
    }
}

/// Whether a token is signed with a secret and in force.
pub open spec fn accepted(token: Seq<char>, secret: Seq<char>, now_secs: u64) -> bool {
    signed(token, secret) && in_force(payload_of(token), now_secs)
}

/// Checks a token: how long it is remembered, in seconds; `None` where it is not accepted.
pub fn check_token(token: &str, secret: &str, now_secs: u64) -> (r: Option<u64>)
    ensures
        match r {
            Some(ttl) => accepted(token@, secret@, now_secs) && ttl == lifetime(
                payload_of(token@),
                now_secs,
            ),
            None => !accepted(token@, secret@, now_secs),
        },
{
    let parts = split_str(token, '.');
    if parts.len() != 3 {
        return None;
    }
    let ghost ps = text::split(token@, '.');
    assert(text::views(parts@)[0] == parts@[0]@);
    assert(text::views(parts@)[1] == parts@[1]@);
    assert(text::views(parts@)[2] == parts@[2]@);
    let signature = match decode_part(parts[2]) {
        Some(s) => s,
        None => return None,
    };
    let mut message: Vec<u8> = Vec::new();
    push_bytes(&mut message, parts[0].as_bytes());
    message.push(46);
    push_bytes(&mut message, parts[1].as_bytes());
    assert(message@ =~= signing_input(ps));
    if !hmac_verify(secret.as_bytes(), message.as_slice(), signature.as_slice()) {
        return None;
    }
    let payload = decode_part(parts[1]);
    match &payload {
        Some(p) => token_lifetime(Some(p.as_slice()), now_secs),
        None => token_lifetime(None, now_secs),
    }
}

// ---------------------------------------------------------------------------
// Memory of checked tokens
// ---------------------------------------------------------------------------

/// What is remembered of a token: until when it holds, in nanoseconds, and which secret it was
/// checked against.
pub struct Verdict {
    pub expires_at: u128,
    pub secret_hash: Vec<u8>,
}

/// Mathematical content of a [`Verdict`].
pub struct VerdictModel {
    pub expires_at: int,
    pub secret_hash: Seq<u8>,
}

impl View for Verdict {
    type V = VerdictModel;

    open spec fn view(&self) -> VerdictModel {
        VerdictModel { expires_at: self.expires_at as int, secret_hash: self.secret_hash@ }
    }
}

/// The memory of checked tokens. A verdict is bound to the secret it was reached with, so that a
/// token checked against one secret does not pass for another.
pub struct JwtCache {
    tokens: StringHashMap<Verdict>,
}

impl View for JwtCache {
    type V = Map<Seq<char>, VerdictModel>;

    closed spec fn view(&self) -> Map<Seq<char>, VerdictModel> {
        self.tokens@.map_values(|v: Verdict| v@)
    }
}

/// The mark of a secret: the first half of its digest.
pub open spec fn secret_mark(secret: Seq<char>) -> Seq<u8> {
    sha256(encode_utf8(secret)).take(16)
}

fn mark_secret(secret: &str) -> (r: Vec<u8>)
    ensures
        r@ == secret_mark(secret@),
{
    let mut digest = sha256_digest(secret.as_bytes());
    digest.truncate(16);
    assert(digest@ =~= secret_mark(secret@));
    digest
}

/// Whether a memory vouches for a token under a secret's mark.
pub open spec fn vouched(
    cache: Map<Seq<char>, VerdictModel>,
    token: Seq<char>,
    mark: Seq<u8>,
    now: u64,
) -> bool {
    &&& cache.contains_key(token)
    &&& cache[token].secret_hash == mark
    &&& cache[token].expires_at > now
}

/// A memory after a token was looked up: without the token, where its verdict has run out.
pub open spec fn looked_up(
    cache: Map<Seq<char>, VerdictModel>,
    token: Seq<char>,
    now: u64,
) -> Map<Seq<char>, VerdictModel> {
    if cache.contains_key(token) && cache[token].expires_at <= now {
        cache.remove(token)
    } else {
        cache
    }
}

/// A memory after a verdict was added. One that has grown too large is emptied first.
pub open spec fn remembered(
    cache: Map<Seq<char>, VerdictModel>,
    token: Seq<char>,
    v: VerdictModel,
) -> Map<Seq<char>, VerdictModel> {
    if cache.len() > JWT_CACHE_MAX {
        Map::empty().insert(token, v)
    } else {
        cache.insert(token, v)
    }
}

impl JwtCache {
    /// An empty memory.
    pub fn new() -> (r: JwtCache)
        ensures
            r@ == Map::<Seq<char>, VerdictModel>::empty(),
    {
        let r = JwtCache { tokens: StringHashMap::new() };
        assert(r@ =~= Map::<Seq<char>, VerdictModel>::empty());
        r
    }

    /// Whether the memory vouches for a token under a secret's mark, at `now` nanoseconds. A
    /// verdict that has run out is forgotten.
    pub fn lookup(&mut self, token: &str, mark: &[u8], now: u64) -> (r: bool)
        ensures
            r == vouched(old(self)@, token@, mark@, now),
            final(self)@ == looked_up(old(self)@, token@, now),
    {
        let (hit, stale) = match self.tokens.get(token) {
            Some(v) => (
                bytes_eq(v.secret_hash.as_slice(), mark) && v.expires_at > now as u128,
                v.expires_at <= now as u128,
            ),
            None => (false, false),
        };
        if stale {
            self.tokens.remove(token);
            assert(self@ =~= old(self)@.remove(token@));
        }
        hit
    }

    /// Remembers that a token passed under a secret's mark, for `ttl` seconds from `now`
    /// nanoseconds on.
    pub fn remember(&mut self, token: &str, mark: &[u8], now: u64, ttl: u64)
        ensures
            final(self)@ == remembered(
                old(self)@,
                token@,
                VerdictModel { expires_at: now + ttl * NANOS, secret_hash: mark@ },
            ),
    {
        let ghost v = VerdictModel { expires_at: now + ttl * NANOS, secret_hash: mark@ };
        assert(self.tokens@.dom() =~= self@.dom());
        if self.tokens.len() > JWT_CACHE_MAX {
            self.tokens.clear();
            assert(self@ =~= Map::<Seq<char>, VerdictModel>::empty());
        }
        assert(0 <= ttl * NANOS <= u64::MAX * NANOS) by (nonlinear_arith)
            requires
                0 <= ttl <= u64::MAX,
                NANOS == 1_000_000_000,
        ;
        let ghost before = self@;
        let expires_at: u128 = now as u128 + ttl as u128 * NANOS as u128;
        let mut secret_hash: Vec<u8> = Vec::new();
        push_bytes(&mut secret_hash, mark);
        assert(secret_hash@ =~= mark@);
        self.tokens.insert(token.to_owned(), Verdict { expires_at, secret_hash });
        assert(self@ =~= before.insert(token@, v));
    }
}

/// Whether a request is authorised, and the memory afterwards. The first header with a bearer
/// token that the memory vouches for, or that is accepted, decides.
pub open spec fn judged(
    hs: Seq<http::Field>,
    secret: Seq<char>,
    now_secs: u64,
    now: u64,
    cache: Map<Seq<char>, VerdictModel>,
) -> (bool, Map<Seq<char>, VerdictModel>)
    decreases hs.len(),
{
    if hs.len() == 0 {
        (false, cache)
    } else {
        match bearer(hs[0]) {
            Some(token) => {
                let c = looked_up(cache, token, now);
                if vouched(cache, token, secret_mark(secret), now) {
                    (true, c)
                } else if accepted(token, secret, now_secs) {
                    (
                        true,
                        remembered(
                            c,
                            token,
                            VerdictModel {
                                expires_at: now + lifetime(payload_of(token), now_secs) * NANOS,
                                secret_hash: secret_mark(secret),
                            },
                        ),
                    )
                } else {
                    judged(hs.drop_first(), secret, now_secs, now, c)
                }
            },
            None => judged(hs.drop_first(), secret, now_secs, now, cache),
        }
    }
}

/// Checks `Authorization: Bearer <token>` against a secret, at `now_secs` seconds of wall-clock
/// time and `now` nanoseconds of monotonic time.
pub fn jwt_authorized(
    headers: &[Header],
    secret: &str,
    now_secs: u64,
    now: u64,
    cache: &mut JwtCache,
) -> (r: bool)
    ensures
        (r, final(cache)@) == judged(
            http::fields(headers@),
            secret@,
            now_secs,
            now,
            old(cache)@,
        ),
{
    let mark = mark_secret(secret);
    let ghost hs = http::fields(headers@);
    assert(hs.skip(0) =~= hs);
    for i in 0..headers.len()
        invariant
            hs == http::fields(headers@),
            mark@ == secret_mark(secret@),
            judged(hs, secret@, now_secs, now, old(cache)@) == judged(
                hs.skip(i as int),
                secret@,
                now_secs,
                now,
                cache@,
            ),
    {
        proof {
            assert(hs.skip(i as int)[0] == headers@[i as int]@);
            assert(hs.skip(i as int).drop_first() =~= hs.skip(i + 1));
        }
        if let Some(token) = bearer_token(&headers[i]) {
            if cache.lookup(token, mark.as_slice(), now) {
                return true;
            }
            if let Some(ttl) = check_token(token, secret, now_secs) {
                cache.remember(token, mark.as_slice(), now, ttl);
                return true;
            }
        }
    }
    false
}

// ---------------------------------------------------------------------------
// Laws
// ---------------------------------------------------------------------------

/// Whether every verdict of a memory was reached with a secret of its mark that signed the token.
pub open spec fn honest(cache: Map<Seq<char>, VerdictModel>) -> bool {
    forall|t: Seq<char>| #[trigger]
        cache.contains_key(t) ==> exists|s: Seq<char>|
            secret_mark(s) == cache[t].secret_hash && #[trigger] signed(t, s)
}

/// The memory starts out honest and stays so.
pub proof fn law_memory_stays_honest(
    hs: Seq<http::Field>,
    secret: Seq<char>,
    now_secs: u64,
    now: u64,
    cache: Map<Seq<char>, VerdictModel>,
)
    requires
        honest(cache),
    ensures
        honest(Map::<Seq<char>, VerdictModel>::empty()),
        honest(judged(hs, secret, now_secs, now, cache).1),
    decreases hs.len(),
{
    if hs.len() > 0 {
        match bearer(hs[0]) {
            Some(token) => {
                let c = looked_up(cache, token, now);
                assert(honest(c)) by {
                    assert forall|t: Seq<char>| #[trigger] c.contains_key(t) implies exists|
                        s: Seq<char>,
                    |
                        secret_mark(s) == c[t].secret_hash && #[trigger] signed(t, s) by {
                        assert(cache.contains_key(t));
                    }
                }
                if !vouched(cache, token, secret_mark(secret), now) && !accepted(
                    token,
                    secret,
                    now_secs,
                ) {
                    law_memory_stays_honest(hs.drop_first(), secret, now_secs, now, c);
                } else if !vouched(cache, token, secret_mark(secret), now) {
                    let after = judged(hs, secret, now_secs, now, cache).1;
                    assert forall|t: Seq<char>| #[trigger] after.contains_key(t) implies exists|
                        s: Seq<char>,
                    |
                        secret_mark(s) == after[t].secret_hash && #[trigger] signed(t, s) by {
                        if t == token {
                            assert(signed(t, secret));
                        } else {
                            assert(c.contains_key(t));
                        }
                    }
                }
            },
            None => law_memory_stays_honest(hs.drop_first(), secret, now_secs, now, cache),
        }
    }
}

/// With an honest memory only a request that bears a signed token is authorised: one signed with
/// the secret itself, or with one of the same mark.
pub proof fn law_authorised_means_signed(
    hs: Seq<http::Field>,
    secret: Seq<char>,
    now_secs: u64,
    now: u64,
    cache: Map<Seq<char>, VerdictModel>,
)
    requires
        honest(cache),
        judged(hs, secret, now_secs, now, cache).0,
    ensures
        exists|i: int, s: Seq<char>|
            0 <= i < hs.len() && bearer(#[trigger] hs[i]) is Some && secret_mark(s) == secret_mark(
                secret,
            ) && #[trigger] signed(bearer(hs[i])->0, s),
    decreases hs.len(),
{
    let rest = hs.drop_first();
    match bearer(hs[0]) {
        Some(token) => {
            if vouched(cache, token, secret_mark(secret), now) {
                let s = choose|s: Seq<char>|
                    secret_mark(s) == cache[token].secret_hash && #[trigger] signed(token, s);
                assert(signed(bearer(hs[0])->0, s));
            } else if accepted(token, secret, now_secs) {
                assert(signed(bearer(hs[0])->0, secret));
            } else {
                let c = looked_up(cache, token, now);
                assert(honest(c)) by {
                    assert forall|t: Seq<char>| #[trigger] c.contains_key(t) implies exists|
                        s: Seq<char>,
                    |
                        secret_mark(s) == c[t].secret_hash && #[trigger] signed(t, s) by {
                        assert(cache.contains_key(t));
                    }
                }
                law_authorised_means_signed(rest, secret, now_secs, now, c);
                let (i, s) = choose|i: int, s: Seq<char>|
                    0 <= i < rest.len() && bearer(#[trigger] rest[i]) is Some && secret_mark(s)
                        == secret_mark(secret) && #[trigger] signed(bearer(rest[i])->0, s);
                assert(rest[i] == hs[i + 1]);
                assert(signed(bearer(hs[i + 1])->0, s));
            }
        },
        None => {
            law_authorised_means_signed(rest, secret, now_secs, now, cache);
            let (i, s) = choose|i: int, s: Seq<char>|
                0 <= i < rest.len() && bearer(#[trigger] rest[i]) is Some && secret_mark(s)
                    == secret_mark(secret) && #[trigger] signed(bearer(rest[i])->0, s);
            assert(rest[i] == hs[i + 1]);
            assert(signed(bearer(hs[i + 1])->0, s));
        },
    }
}

/// With an empty memory a request is authorised exactly where one of its bearer tokens is signed
/// with the secret and in force.
pub proof fn law_first_sight(hs: Seq<http::Field>, secret: Seq<char>, now_secs: u64, now: u64)
    ensures
        judged(hs, secret, now_secs, now, Map::empty()).0 == exists|i: int|
            0 <= i < hs.len() && bearer(#[trigger] hs[i]) is Some && accepted(
                bearer(hs[i])->0,
                secret,
                now_secs,
            ),
    decreases hs.len(),
{
    if hs.len() > 0 {
        let rest = hs.drop_first();
        law_first_sight(rest, secret, now_secs, now);
        let cache = Map::<Seq<char>, VerdictModel>::empty();
        if bearer(hs[0]) is Some && accepted(bearer(hs[0])->0, secret, now_secs) {
            assert(judged(hs, secret, now_secs, now, cache).0);
        } else {
            assert(judged(hs, secret, now_secs, now, cache) == judged(
                rest,
                secret,
                now_secs,
                now,
                cache,
            ));
            if judged(rest, secret, now_secs, now, cache).0 {
                let i = choose|i: int|
                    0 <= i < rest.len() && bearer(#[trigger] rest[i]) is Some && accepted(
                        bearer(rest[i])->0,
                        secret,
                        now_secs,
                    );
                assert(rest[i] == hs[i + 1]);
            } else {
                assert forall|i: int| 0 <= i < hs.len() implies !(bearer(#[trigger] hs[i]) is Some
                    && accepted(bearer(hs[i])->0, secret, now_secs)) by {
                    if i > 0 {
                        assert(rest[i - 1] == hs[i]);
                    }
                }
            }
        }
    }
}

/// A token that was authorised under one secret is not vouched for under a secret of another mark.
pub proof fn law_verdicts_are_bound_to_a_secret(
    cache: Map<Seq<char>, VerdictModel>,
    token: Seq<char>,
    a: Seq<char>,
    b: Seq<char>,
    now: u64,
)
    requires
        vouched(cache, token, secret_mark(a), now),
        secret_mark(a) != secret_mark(b),
    ensures
        !vouched(cache, token, secret_mark(b), now),
{
}

/// A verdict is remembered no longer than five minutes, nor beyond the token's expiry.
pub proof fn law_memory_is_short(payload: Option<Seq<u8>>, now_secs: u64)
    requires
        in_force(payload, now_secs),
    ensures
        lifetime(payload, now_secs) <= JWT_CACHE_TTL_SECS,
        claim_of(payload, "exp") matches Some(e) ==> now_secs + lifetime(payload, now_secs) <= e,
{
}

} // verus!
