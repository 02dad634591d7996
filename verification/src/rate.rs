//! Rate limits: requests per second of a client on a route.

use vstd::hash_map::*;
use vstd::prelude::*;
use vstd::string::*;

use crate::net::IpAddr;
use crate::text;
use crate::text::append_decimal;

verus! {

/// Entries above which the counters are emptied.
pub const RATE_LIMIT_MAP_MAX: usize = 100_000;

/// The requests counted in a second.
#[derive(Clone, Copy, PartialEq, Eq, Structural, Debug)]
pub struct Count {
    pub second: u64,
    pub requests: u32,
}

/// The numbers by which a client is known: family, upper and lower half of the address.
pub open spec fn address_numbers(ip: IpAddr) -> (nat, nat, nat) {
    match ip {
        IpAddr::V4(a) => (4, 0, a as nat),
        IpAddr::V6(a) => (6, (a / 0x1_0000_0000_0000_0000) as nat, (a % 0x1_0000_0000_0000_0000)
            as nat),
    }
}

/// The key of a client on a route: route, family and address, in decimal, with colons between.
pub open spec fn client_key(route: nat, ip: IpAddr) -> Seq<char> {
    let (family, hi, lo) = address_numbers(ip);
    text::decimal(route) + seq![':'] + (text::decimal(family) + seq![':'] + (text::decimal(hi) + seq![
        ':',
    ] + text::decimal(lo)))
}

fn make_key(route: usize, ip: &IpAddr) -> (r: String)
    ensures
        r@ == client_key(route as nat, *ip),
{
    proof {
        reveal_strlit(":");
        reveal_strlit("");
    }
    let (family, hi, lo): (u64, u64, u64) = match ip {
        IpAddr::V4(a) => (4, 0, *a as u64),
        IpAddr::V6(a) => (
            6,
            (*a / 0x1_0000_0000_0000_0000) as u64,
            (*a % 0x1_0000_0000_0000_0000) as u64,
        ),
    };
    let mut r = "".to_owned();
    append_decimal(&mut r, route as u64);
    r.append(":");
    append_decimal(&mut r, family);
    r.append(":");
    append_decimal(&mut r, hi);
    r.append(":");
    append_decimal(&mut r, lo);
    assert(r@ =~= client_key(route as nat, *ip));
    r
}

/// The requests already counted for a key in a second.
pub open spec fn counted(m: Map<Seq<char>, Count>, key: Seq<char>, now: u64) -> nat {
    if m.contains_key(key) && m[key].second == now {
        m[key].requests as nat
    } else {
        0
    }
}

/// The counters that a request meets: none, where they have grown too many.
pub open spec fn pruned(m: Map<Seq<char>, Count>) -> Map<Seq<char>, Count> {
    if m.len() > RATE_LIMIT_MAP_MAX {
        Map::empty()
    } else {
        m
    }
}

/// The counters after a request of a key in second `now`. A counter stops at its largest value.
pub open spec fn after_request(m: Map<Seq<char>, Count>, key: Seq<char>, now: u64) -> Map<
    Seq<char>,
    Count,
> {
    let n = counted(pruned(m), key, now);
    pruned(m).insert(
        key,
        Count {
            second: now,
            requests: if n < u32::MAX {
                (n + 1) as u32
            } else {
                u32::MAX
            },
        },
    )
}

/// Whether a request of a key in second `now` is within a limit.
pub open spec fn within_limit(
    m: Map<Seq<char>, Count>,
    key: Seq<char>,
    limit: u32,
    now: u64,
) -> bool {
    counted(pruned(m), key, now) + 1 <= limit
}

/// The counters of a worker.
pub struct RateLimiter {
    counts: StringHashMap<Count>,
}

impl View for RateLimiter {
    type V = Map<Seq<char>, Count>;

    closed spec fn view(&self) -> Map<Seq<char>, Count> {
        self.counts@
    }
}

impl RateLimiter {
    /// No request counted.
    pub fn new() -> (r: RateLimiter)
        ensures
            r@ == Map::<Seq<char>, Count>::empty(),
    {
        RateLimiter { counts: StringHashMap::new() }
    }

    /// Counts a request of a client on a route in second `now`, and says whether it is within the
    /// limit.
    pub fn allow(&mut self, route: usize, ip: &IpAddr, limit: u32, now: u64) -> (r: bool)
        ensures
            r == within_limit(old(self)@, client_key(route as nat, *ip), limit, now),
            final(self)@ == after_request(old(self)@, client_key(route as nat, *ip), now),
    {
        if self.counts.len() > RATE_LIMIT_MAP_MAX {
            self.counts.clear();
        }
        let key = make_key(route, ip);
        let before: u32 = match self.counts.get(key.as_str()) {
            Some(c) => if c.second == now {
                c.requests
            } else {
                0
            },
            None => 0,
        };
        let requests: u32 = before.saturating_add(1);
        self.counts.insert(key, Count { second: now, requests });
        before < limit
    }
}

// ---------------------------------------------------------------------------
// Laws
// ---------------------------------------------------------------------------

proof fn lemma_decimal_digits(n: nat)
    ensures
        text::decimal(n).len() > 0,
        forall|i: int| 0 <= i < text::decimal(n).len() ==> #[trigger] text::decimal(n)[i] != ':',
    decreases n,
{
    if n >= 10 {
        lemma_decimal_digits(n / 10);
    }
}

proof fn lemma_decimal_injective(a: nat, b: nat)
    requires
        text::decimal(a) == text::decimal(b),
    ensures
        a == b,
    decreases a,
{
    let da = text::decimal(a);
    let db = text::decimal(b);
    assert(da.last() == db.last());
    lemma_decimal_digits(a / 10);
    lemma_decimal_digits(b / 10);
    if a >= 10 && b >= 10 {
        assert(da.drop_last() =~= text::decimal(a / 10));
        assert(db.drop_last() =~= text::decimal(b / 10));
        lemma_decimal_injective(a / 10, b / 10);
    }
}

/// A text before the first colon, and what follows, are told by the whole.
proof fn lemma_colon(a: Seq<char>, x: Seq<char>, b: Seq<char>, y: Seq<char>)
    requires
        forall|i: int| 0 <= i < a.len() ==> #[trigger] a[i] != ':',
        forall|i: int| 0 <= i < b.len() ==> #[trigger] b[i] != ':',
        a + seq![':'] + x == b + seq![':'] + y,
    ensures
        a == b,
        x == y,
{
    let l = a + seq![':'] + x;
    let r = b + seq![':'] + y;
    if a.len() < b.len() {
        assert(l[a.len() as int] == ':');
        assert(r[a.len() as int] == b[a.len() as int]);
    }
    if b.len() < a.len() {
        assert(r[b.len() as int] == ':');
        assert(l[b.len() as int] == a[b.len() as int]);
    }
    assert(a =~= l.take(a.len() as int));
    assert(b =~= r.take(b.len() as int));
    assert(x =~= l.skip(a.len() as int + 1));
    assert(y =~= r.skip(b.len() as int + 1));
}

/// Each client on each route has counters of its own.
pub proof fn law_clients_do_not_share_counters(r1: nat, ip1: IpAddr, r2: nat, ip2: IpAddr)
    requires
        client_key(r1, ip1) == client_key(r2, ip2),
    ensures
        r1 == r2,
        ip1 == ip2,
{
    let (f1, h1, l1) = address_numbers(ip1);
    let (f2, h2, l2) = address_numbers(ip2);
    lemma_decimal_digits(r1);
    lemma_decimal_digits(r2);
    lemma_decimal_digits(f1);
    lemma_decimal_digits(f2);
    lemma_decimal_digits(h1);
    lemma_decimal_digits(h2);
    let t1 = text::decimal(h1) + seq![':'] + text::decimal(l1);
    let t2 = text::decimal(h2) + seq![':'] + text::decimal(l2);
    let s1 = text::decimal(f1) + seq![':'] + t1;
    let s2 = text::decimal(f2) + seq![':'] + t2;
    lemma_colon(text::decimal(r1), s1, text::decimal(r2), s2);
    lemma_colon(text::decimal(f1), t1, text::decimal(f2), t2);
    lemma_colon(text::decimal(h1), text::decimal(l1), text::decimal(h2), text::decimal(l2));
    lemma_decimal_injective(r1, r2);
    lemma_decimal_injective(f1, f2);
    lemma_decimal_injective(h1, h2);
    lemma_decimal_injective(l1, l2);
}

/// A counter goes up by one with each request of a client in a second, from zero in a new second,
/// and the requests of other clients change nothing. Counters that have grown too many, which start
/// anew, are left out.
pub proof fn law_requests_are_counted(
    m: Map<Seq<char>, Count>,
    key: Seq<char>,
    other: Seq<char>,
    now: u64,
    later: u64,
)
    requires
        counted(m, key, now) < u32::MAX,
        m.len() <= RATE_LIMIT_MAP_MAX,
    ensures
        counted(after_request(m, key, now), key, now) == counted(m, key, now) + 1,
        later != now ==> counted(after_request(m, key, now), key, later) == 0,
        other != key ==> counted(after_request(m, key, now), other, now) == counted(m, other, now),
{
}

/// The counters after several requests of a key in one second.
pub open spec fn after_requests(
    m: Map<Seq<char>, Count>,
    key: Seq<char>,
    now: u64,
    n: nat,
) -> Map<Seq<char>, Count>
    decreases n,
{
    if n == 0 {
        m
    } else {
        after_request(after_requests(m, key, now, (n - 1) as nat), key, now)
    }
}

proof fn lemma_after_requests(m: Map<Seq<char>, Count>, key: Seq<char>, now: u64, n: nat)
    requires
        m.dom().finite(),
        m.len() < RATE_LIMIT_MAP_MAX,
        counted(m, key, now) == 0,
        n <= u32::MAX,
    ensures
        ({
            let after = after_requests(m, key, now, n);
            &&& after.dom().finite()
            &&& after.len() <= if after.contains_key(key) && !m.contains_key(key) {
                m.len() + 1
            } else {
                m.len()
            }
            &&& counted(after, key, now) == n
        }),
    decreases n,
{
    if n > 0 {
        lemma_after_requests(m, key, now, (n - 1) as nat);
        let before = after_requests(m, key, now, (n - 1) as nat);
        let after = after_requests(m, key, now, n);
        assert(after.dom() =~= before.dom().insert(key));
        if m.contains_key(key) {
            lemma_key_stays(m, key, now, (n - 1) as nat);
        }
    }
}

proof fn lemma_key_stays(m: Map<Seq<char>, Count>, key: Seq<char>, now: u64, n: nat)
    requires
        m.contains_key(key),
    ensures
        after_requests(m, key, now, n).contains_key(key),
    decreases n,
{
    if n > 0 {
        lemma_key_stays(m, key, now, (n - 1) as nat);
    }
}

/// A second lets through exactly as many requests of a client as the limit says: after `n` requests
/// one more is within it where `n` is below. Counters that have grown too many, which start anew,
/// are left out.
pub proof fn law_limit_is_exact(
    m: Map<Seq<char>, Count>,
    key: Seq<char>,
    limit: u32,
    now: u64,
    n: nat,
)
    requires
        m.dom().finite(),
        m.len() < RATE_LIMIT_MAP_MAX,
        counted(m, key, now) == 0,
        n <= u32::MAX,
    ensures
        within_limit(after_requests(m, key, now, n), key, limit, now) <==> n < limit,
{
    lemma_after_requests(m, key, now, n);
}

} // verus!
