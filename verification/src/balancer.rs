//! Picking a backend for a request.

use vstd::prelude::*;
use vstd::string::*;

use crate::config::{Backend, BackendList, Balance};
use crate::net;
use crate::net::{push_be, push_le, IpAddr};
use crate::shared::SharedMemory;
use crate::text::push_bytes;

verus! {

/// FNV-1a with 64 bits. The affinity of `iphash` and `urlhash` rests on this hash being the same
/// in every build, so it is spelled out here.
pub struct Fnv1aHasher {
    state: u64,
}

/// Where the hash begins.
pub const OFFSET_BASIS: u64 = 0xcbf2_9ce4_8422_2325;

/// What each step multiplies by.
pub const PRIME: u64 = 0x0000_0100_0000_01b3;

/// The hash of `bytes`, begun at `state`: for each byte, exclusive or, then multiplication
/// modulo 2^64.
pub open spec fn fnv(state: u64, bytes: Seq<u8>) -> u64
    decreases bytes.len(),
{
    if bytes.len() == 0 {
        state
    } else {
        (fnv(state, bytes.drop_last()) ^ (bytes.last() as u64)).wrapping_mul(PRIME)
    }
}

impl Fnv1aHasher {
    /// The hash of what was written so far.
    pub closed spec fn hash(self) -> u64 {
        self.state
    }

    /// Nothing written yet.
    pub fn new() -> (r: Fnv1aHasher)
        ensures
            r.hash() == OFFSET_BASIS,
    {
        Fnv1aHasher { state: OFFSET_BASIS }
    }

    /// Takes in some bytes.
    pub fn write(&mut self, bytes: &[u8])
        ensures
            final(self).hash() == fnv(old(self).hash(), bytes@),
    {
        let mut h: u64 = self.state;
        for i in 0..bytes.len()
            invariant
                h == fnv(self.state, bytes@.take(i as int)),
        {
            proof {
                assert(bytes@.take(i + 1).drop_last() =~= bytes@.take(i as int));
            }
            h = (h ^ (bytes[i] as u64)).wrapping_mul(PRIME);
        }
        assert(bytes@.take(bytes@.len() as int) =~= bytes@);
        self.state = h;
    }

    /// The hash of what was written.
    pub fn finish(&self) -> (r: u64)
        ensures
            r == self.hash(),
    {
        self.state
    }
}

/// The bytes that an address stands for in a hash: its family as eight bytes, then its octets.
pub open spec fn ip_key(ip: IpAddr) -> Seq<u8> {
    match ip {
        IpAddr::V4(a) => net::le_bytes(0, 8) + net::be_bytes(a as nat, 4),
        IpAddr::V6(a) => net::le_bytes(1, 8) + net::be_bytes(a as nat, 16),
    }
}

/// The bytes that a path stands for in a hash: its own and an end mark.
pub open spec fn url_key(path: Seq<u8>) -> Seq<u8> {
    path + seq![0xffu8]
}

/// The score of backend `id` for a key. The backend with the highest score serves the key.
pub open spec fn score(key: Seq<u8>, id: usize) -> u64 {
    fnv(OFFSET_BASIS, key + net::le_bytes(id as nat, 8))
}

/// Whether a backend can serve: it is up and not among those to skip.
pub open spec fn usable(b: Backend, shm: SharedMemory, skip: Seq<usize>) -> bool {
    b.state.of(shm).up != 0 && !skip.contains(b.id)
}

/// The places of the backends that can serve, in order.
pub open spec fn candidates(bs: Seq<Backend>, shm: SharedMemory, skip: Seq<usize>) -> Seq<int>
    decreases bs.len(),
{
    if bs.len() == 0 {
        seq![]
    } else if usable(bs.last(), shm, skip) {
        candidates(bs.drop_last(), shm, skip).push(bs.len() - 1)
    } else {
        candidates(bs.drop_last(), shm, skip)
    }
}

/// `c` lists, in order, exactly the places of the backends that can serve.
pub open spec fn lists_usable(
    c: Seq<int>,
    bs: Seq<Backend>,
    shm: SharedMemory,
    skip: Seq<usize>,
) -> bool {
    &&& forall|k: int|
        0 <= k < c.len() ==> 0 <= #[trigger] c[k] < bs.len() && usable(bs[c[k]], shm, skip)
    &&& forall|j: int, k: int| 0 <= j < k < c.len() ==> #[trigger] c[j] < #[trigger] c[k]
    &&& forall|i: int|
        0 <= i < bs.len() && usable(#[trigger] bs[i], shm, skip) ==> c.contains(i)
}

/// The candidates are the backends that can serve, each once and in order.
pub proof fn lemma_candidates(bs: Seq<Backend>, shm: SharedMemory, skip: Seq<usize>)
    ensures
        lists_usable(candidates(bs, shm, skip), bs, shm, skip),
    decreases bs.len(),
{
    if bs.len() > 0 {
        let head = bs.drop_last();
        lemma_candidates(head, shm, skip);
        let c0 = candidates(head, shm, skip);
        let c = candidates(bs, shm, skip);
        assert forall|k: int| 0 <= k < c.len() implies 0 <= #[trigger] c[k] < bs.len() && usable(
            bs[c[k]],
            shm,
            skip,
        ) by {
            if k < c0.len() {
                assert(c[k] == c0[k]);
                assert(bs[c[k]] == head[c0[k]]);
            }
        }
        assert forall|i: int| 0 <= i < bs.len() && usable(#[trigger] bs[i], shm, skip) implies
            c.contains(i) by {
            if i < head.len() {
                assert(head[i] == bs[i]);
                assert(c0.contains(i));
                let k = choose|k: int| 0 <= k < c0.len() && c0[k] == i;
                assert(c[k] == i);
            } else {
                assert(c[c.len() - 1] == i);
            }
        }
    }
}

/// The sum of the weights of some backends.
pub open spec fn weight_sum(bs: Seq<Backend>, c: Seq<int>) -> int
    decreases c.len(),
{
    if c.len() == 0 {
        0
    } else {
        weight_sum(bs, c.drop_last()) + bs[c.last()].weight
    }
}

/// The backend into whose share a number below the sum of the weights falls.
pub open spec fn weighted_pick(bs: Seq<Backend>, c: Seq<int>, r: int) -> int
    decreases c.len(),
{
    if c.len() == 0 {
        -1
    } else if r < bs[c[0]].weight {
        c[0]
    } else {
        weighted_pick(bs, c.drop_first(), r - bs[c[0]].weight)
    }
}

/// `p` is the first of the candidates with the fewest connections.
pub open spec fn least_loaded(bs: Seq<Backend>, c: Seq<int>, shm: SharedMemory, p: int) -> bool {
    &&& c.contains(p)
    &&& forall|k: int|
        0 <= k < c.len() ==> {
            let q = #[trigger] c[k];
            let np = bs[p].state.of(shm).active_connections;
            let nq = bs[q].state.of(shm).active_connections;
            np < nq || (np == nq && p <= q)
        }
}

/// `p` is the first of the candidates with the highest score for a key.
pub open spec fn top_scored(bs: Seq<Backend>, c: Seq<int>, key: Seq<u8>, p: int) -> bool {
    &&& c.contains(p)
    &&& forall|k: int|
        0 <= k < c.len() ==> {
            let q = #[trigger] c[k];
            score(key, bs[q].id) < score(key, bs[p].id) || (score(key, bs[q].id) == score(
                key,
                bs[p].id,
            ) && p <= q)
        }
}

/// Whether `choice` is what the balancer may pick among the candidates `c`. Only `Random` and
/// `Weighted` leave anything open: which number chance gives.
pub open spec fn is_choice(
    list: BackendList,
    c: Seq<int>,
    rr_index: usize,
    client_ip: IpAddr,
    url_path: Seq<u8>,
    shm: SharedMemory,
    choice: Option<int>,
) -> bool {
    let bs = list.backends@;
    if c.len() == 0 {
        choice is None
    } else if bs.len() == 1 {
        choice == Some(c[0])
    } else {
        match list.balance {
            Balance::RoundRobin => choice == Some(c[(rr_index as int) % (c.len() as int)]),
            Balance::Random => exists|k: int| 0 <= k < c.len() && choice == Some(#[trigger] c[k]),
            Balance::First => choice == Some(c[0]),
            Balance::Leastconn => match choice {
                Some(p) => least_loaded(bs, c, shm, p)
                    && bs[p].state.of(shm).active_connections < usize::MAX,
                None => forall|k: int|
                    0 <= k < c.len() ==> bs[#[trigger] c[k]].state.of(shm).active_connections
                        == usize::MAX,
            },
            Balance::Weighted => if weight_sum(bs, c) == 0 {
                choice == Some(c[0])
            } else {
                exists|r: int|
                    0 <= r < weight_sum(bs, c) && choice == Some(#[trigger] weighted_pick(bs, c, r))
            },
            Balance::Iphash => choice matches Some(p) && top_scored(bs, c, ip_key(client_ip), p),
            Balance::Urlhash => choice matches Some(p) && top_scored(bs, c, url_key(url_path), p),
        }
    }
}

/// The round-robin cursor after a choice among the candidates `c`.
pub open spec fn next_cursor(list: BackendList, c: Seq<int>, rr_index: usize) -> usize {
    if list.balance is RoundRobin && list.backends@.len() != 1 && c.len() > 0 {
        rr_index.wrapping_add(1)
    } else {
        rr_index
    }
}

/// A list of backends and the round-robin cursor over it.
pub struct BalancerState {
    pub list: BackendList,
    pub rr_index: usize,
}

/// `rand::Rng::gen_range` on `rand::thread_rng`: a number below `n`, which one is left to chance.
#[verifier::external_body]
pub(crate) fn random_below(n: u64) -> (r: u64)
    requires
        n > 0,
    ensures
        r < n,
{
    rand::Rng::gen_range(&mut rand::thread_rng(), 0..n)
}

/// Whether `ids` holds `id`.
fn has_id(ids: &[usize], id: usize) -> (r: bool)
    ensures
        r == ids@.contains(id),
{
    for i in 0..ids.len()
        invariant
            forall|j: int| 0 <= j < i ==> ids@[j] != id,
    {
        if ids[i] == id {
            assert(ids@[i as int] == id);
            return true;
        }
    }
    false
}

/// The numbers of a list of places.
pub open spec fn places(v: Seq<usize>) -> Seq<int> {
    Seq::new(v.len(), |i: int| v[i] as int)
}

/// Every backend of a list has its state among the shared values.
pub open spec fn list_within(bs: Seq<Backend>, shm: SharedMemory) -> bool {
    forall|i: int| 0 <= i < bs.len() ==> (#[trigger] bs[i]).state.within(shm)
}

/// The places of the backends that can serve, in order.
pub fn alive_backends(bs: &[Backend], skip_ids: &[usize], shm: &SharedMemory) -> (r: Vec<usize>)
    requires
        list_within(bs@, *shm),
    ensures
        places(r@) == candidates(bs@, *shm, skip_ids@),
{
    let mut alive: Vec<usize> = Vec::new();
    assert(places(alive@) =~= Seq::<int>::empty());
    for i in 0..bs.len()
        invariant
            list_within(bs@, *shm),
            places(alive@) == candidates(bs@.take(i as int), *shm, skip_ids@),
    {
        let ghost before = alive@;
        proof {
            assert(bs@.take(i + 1).drop_last() =~= bs@.take(i as int));
        }
        if bs[i].state.is_up(shm) && !has_id(skip_ids, bs[i].id) {
            alive.push(i);
            assert(places(alive@) =~= places(before).push(i as int));
        }
    }
    assert(bs@.take(bs@.len() as int) =~= bs@);
    alive
}

/// The sum of the weights of some backends.
fn total_weight(bs: &[Backend], alive: &[usize]) -> (r: u32)
    requires
        forall|k: int| 0 <= k < alive@.len() ==> #[trigger] alive@[k] < bs@.len(),
        weight_sum(bs@, places(alive@)) <= u32::MAX,
    ensures
        r == weight_sum(bs@, places(alive@)),
{
    let mut total: u32 = 0;
    for i in 0..alive.len()
        invariant
            forall|k: int| 0 <= k < alive@.len() ==> #[trigger] alive@[k] < bs@.len(),
            weight_sum(bs@, places(alive@)) <= u32::MAX,
            total == weight_sum(bs@, places(alive@).take(i as int)),
    {
        proof {
            assert(places(alive@).take(i + 1).drop_last() =~= places(alive@).take(i as int));
            lemma_weight_sum_grows(bs@, places(alive@), i + 1);
        }
        total = total + bs[alive[i]].weight;
    }
    assert(places(alive@).take(alive@.len() as int) =~= places(alive@));
    total
}

proof fn lemma_weight_sum_grows(bs: Seq<Backend>, c: Seq<int>, k: int)
    requires
        0 <= k <= c.len(),
    ensures
        0 <= weight_sum(bs, c.take(k)) <= weight_sum(bs, c),
    decreases c.len() - k, k,
{
    if k < c.len() {
        lemma_weight_sum_grows(bs, c, k + 1);
        assert(c.take(k + 1).drop_last() =~= c.take(k));
        lemma_weight_sum_nonneg(bs, c.take(k));
    } else {
        assert(c.take(k) =~= c);
        lemma_weight_sum_nonneg(bs, c);
    }
}

proof fn lemma_weight_sum_nonneg(bs: Seq<Backend>, c: Seq<int>)
    ensures
        weight_sum(bs, c) >= 0,
    decreases c.len(),
{
    if c.len() > 0 {
        lemma_weight_sum_nonneg(bs, c.drop_last());
    }
}

/// The sum of the weights, taken from the front.
proof fn lemma_weight_sum_front(bs: Seq<Backend>, c: Seq<int>)
    requires
        c.len() > 0,
    ensures
        weight_sum(bs, c) == bs[c[0]].weight + weight_sum(bs, c.drop_first()),
    decreases c.len(),
{
    if c.len() == 1 {
        assert(c.drop_first() =~= Seq::<int>::empty());
        assert(c.drop_last() =~= Seq::<int>::empty());
        assert(c.last() == c[0]);
    } else {
        lemma_weight_sum_front(bs, c.drop_last());
        assert(c.drop_last().drop_first() =~= c.drop_first().drop_last());
        assert(c.drop_first().last() == c.last());
    }
}

/// The backend into whose share `r` falls.
pub fn pick_weighted(bs: &[Backend], alive: &[usize], r: u32) -> (p: usize)
    requires
        forall|k: int| 0 <= k < alive@.len() ==> #[trigger] alive@[k] < bs@.len(),
        r < weight_sum(bs@, places(alive@)),
    ensures
        p == weighted_pick(bs@, places(alive@), r as int),
        places(alive@).contains(p as int),
        bs@[p as int].weight > 0,
{
    let ghost c = places(alive@);
    let mut rest: u32 = r;
    proof {
        assert(c.skip(0) =~= c);
    }
    for i in 0..alive.len()
        invariant
            c == places(alive@),
            forall|k: int| 0 <= k < alive@.len() ==> #[trigger] alive@[k] < bs@.len(),
            weighted_pick(bs@, c, r as int) == weighted_pick(bs@, c.skip(i as int), rest as int),
            rest < weight_sum(bs@, c.skip(i as int)),
    {
        proof {
            let s = c.skip(i as int);
            assert(s[0] == c[i as int]);
            assert(s.drop_first() =~= c.skip(i + 1));
            lemma_weight_sum_front(bs@, s);
        }
        let w: u32 = bs[alive[i]].weight;
        if rest < w {
            assert(c[i as int] == alive@[i as int]);
            return alive[i];
        }
        rest = rest - w;
    }
    proof {
        assert(c.skip(c.len() as int) =~= Seq::<int>::empty());
        assert(false);
    }
    0
}

/// The first of the candidates with the fewest connections. One whose count is exhausted is never
/// picked.
pub fn pick_least_loaded(bs: &[Backend], alive: &[usize], shm: &SharedMemory) -> (r: Option<usize>)
    requires
        forall|k: int| 0 <= k < alive@.len() ==> #[trigger] alive@[k] < bs@.len(),
        forall|j: int, k: int|
            0 <= j < k < alive@.len() ==> #[trigger] alive@[j] < #[trigger] alive@[k],
        list_within(bs@, *shm),
    ensures
        match r {
            Some(p) => least_loaded(bs@, places(alive@), *shm, p as int)
                && bs@[p as int].state.of(*shm).active_connections < usize::MAX,
            None => forall|k: int|
                0 <= k < alive@.len() ==> bs@[(#[trigger] places(alive@)[k])].state.of(
                    *shm,
                ).active_connections == usize::MAX,
        },
{
    let ghost c = places(alive@);
    let mut best: Option<usize> = None;
    let mut min_conn: usize = usize::MAX;
    for i in 0..alive.len()
        invariant
            c == places(alive@),
            forall|k: int| 0 <= k < alive@.len() ==> #[trigger] alive@[k] < bs@.len(),
            forall|j: int, k: int|
                0 <= j < k < alive@.len() ==> #[trigger] alive@[j] < #[trigger] alive@[k],
            list_within(bs@, *shm),
            match best {
                Some(p) => {
                    &&& exists|m: int| 0 <= m < i && c[m] == p
                    &&& p < bs@.len()
                    &&& min_conn == bs@[p as int].state.of(*shm).active_connections
                    &&& min_conn < usize::MAX
                    &&& forall|k: int|
                        0 <= k < i ==> {
                            let q = #[trigger] c[k];
                            min_conn < bs@[q].state.of(*shm).active_connections || (min_conn
                                == bs@[q].state.of(*shm).active_connections && p <= q)
                        }
                },
                None => min_conn == usize::MAX && forall|k: int|
                    0 <= k < i ==> bs@[#[trigger] c[k]].state.of(*shm).active_connections
                        == usize::MAX,
            },
    {
        let at: usize = alive[i];
        let n: usize = bs[at].state.active_conns(shm);
        if n < min_conn {
            min_conn = n;
            best = Some(at);
            assert(c[i as int] == at);
        }
    }
    proof {
        if let Some(p) = best {
            let m = choose|m: int| 0 <= m < c.len() && c[m] == p;
            assert(c.contains(p as int));
        }
    }
    best
}

/// The score of backend `id` for a key.
fn score_of(key: &[u8], id: usize) -> (r: u64)
    ensures
        r == score(key@, id),
{
    let mut bytes: Vec<u8> = Vec::new();
    push_bytes(&mut bytes, key);
    push_le(&mut bytes, id as u128, 8);
    assert(bytes@ =~= key@ + net::le_bytes(id as nat, 8));
    let mut hasher = Fnv1aHasher::new();
    hasher.write(bytes.as_slice());
    hasher.finish()
}

/// The first of the candidates with the highest score for a key.
pub fn pick_top_scored(bs: &[Backend], alive: &[usize], key: &[u8]) -> (r: usize)
    requires
        alive@.len() > 0,
        forall|k: int| 0 <= k < alive@.len() ==> #[trigger] alive@[k] < bs@.len(),
        forall|j: int, k: int|
            0 <= j < k < alive@.len() ==> #[trigger] alive@[j] < #[trigger] alive@[k],
    ensures
        top_scored(bs@, places(alive@), key@, r as int),
{
    let ghost c = places(alive@);
    let mut best: usize = alive[0];
    let mut max: u64 = score_of(key, bs[best].id);
    let ghost mut at: int = 0;
    for i in 1..alive.len()
        invariant
            c == places(alive@),
            alive@.len() > 0,
            forall|k: int| 0 <= k < alive@.len() ==> #[trigger] alive@[k] < bs@.len(),
            forall|j: int, k: int|
                0 <= j < k < alive@.len() ==> #[trigger] alive@[j] < #[trigger] alive@[k],
            0 <= at < i,
            c[at] == best,
            best < bs@.len(),
            max == score(key@, bs@[best as int].id),
            forall|k: int|
                0 <= k < i ==> {
                    let q = #[trigger] c[k];
                    score(key@, bs@[q].id) < max || (score(key@, bs@[q].id) == max && best <= q)
                },
    {
        let p: usize = alive[i];
        let h: u64 = score_of(key, bs[p].id);
        assert(c[i as int] == p);
        if h > max {
            max = h;
            best = p;
            proof {
                at = i as int;
            }
        }
    }
    assert(c.contains(best as int));
    best
}

impl BalancerState {
    /// A list whose cursor stands at its beginning.
    pub fn new(list: BackendList) -> (r: BalancerState)
        ensures
            r.list == list,
            r.rr_index == 0,
    {
        BalancerState { list, rr_index: 0 }
    }

    /// The candidates for a request.
    pub open spec fn candidates(self, shm: SharedMemory, skip: Seq<usize>) -> Seq<int> {
        candidates(self.list.backends@, shm, skip)
    }

    /// Whether the weights of the backends that can serve add up within range, where weights count.
    pub fn weights_fit(&self, skip_ids: &[usize], shm: &SharedMemory) -> (r: bool)
        requires
            list_within(self.list.backends@, *shm),
        ensures
            r == (self.list.balance is Weighted && self.list.backends@.len() != 1 ==> weight_sum(
                self.list.backends@,
                self.candidates(*shm, skip_ids@),
            ) <= u32::MAX),
    {
        match self.list.balance {
            Balance::Weighted => {},
            _ => return true,
        }
        if self.list.backends.len() == 1 {
            return true;
        }
        let alive = alive_backends(self.list.backends.as_slice(), skip_ids, shm);
        let ghost bs = self.list.backends@;
        let ghost c = self.candidates(*shm, skip_ids@);
        proof {
            lemma_candidates(bs, *shm, skip_ids@);
        }
        let mut sum: u64 = 0;
        for i in 0..alive.len()
            invariant
                bs == self.list.backends@,
                self.list.balance is Weighted,
                bs.len() != 1,
                c == self.candidates(*shm, skip_ids@),
                places(alive@) == c,
                lists_usable(c, bs, *shm, skip_ids@),
                sum == weight_sum(bs, c.take(i as int)),
                sum <= u32::MAX,
        {
            assert(places(alive@)[i as int] == alive@[i as int]);
            assert(c.take(i + 1).drop_last() =~= c.take(i as int));
            sum = sum + self.list.backends[alive[i]].weight as u64;
            if sum > u32::MAX as u64 {
                proof {
                    lemma_weight_sum_grows(bs, c, i + 1);
                }
                return false;
            }
        }
        assert(c.take(c.len() as int) =~= c);
        true
    }

    /// The place of the backend that serves a request, `None` where none can.
    pub fn select_index(
        &mut self,
        client_ip: &IpAddr,
        url_path: &str,
        skip_ids: &[usize],
        shm: &SharedMemory,
    ) -> (r: Option<usize>)
        requires
            list_within(old(self).list.backends@, *shm),
            old(self).list.balance is Weighted && old(self).list.backends@.len() != 1
                ==> weight_sum(
                old(self).list.backends@,
                old(self).candidates(*shm, skip_ids@),
            ) <= u32::MAX,
        ensures
            final(self).list == old(self).list,
            final(self).rr_index == next_cursor(
                old(self).list,
                old(self).candidates(*shm, skip_ids@),
                old(self).rr_index,
            ),
            is_choice(
                old(self).list,
                old(self).candidates(*shm, skip_ids@),
                old(self).rr_index,
                *client_ip,
                url_path.spec_bytes(),
                *shm,
                (match r {
                    Some(p) => Some(p as int),
                    None => None,
                }),
            ),
            r matches Some(p) ==> p < old(self).list.backends@.len() && usable(
                old(self).list.backends@[p as int],
                *shm,
                skip_ids@,
            ),
    {
        let bs = self.list.backends.as_slice();
        let alive = alive_backends(bs, skip_ids, shm);
        let ghost c = candidates(bs@, *shm, skip_ids@);
        proof {
            lemma_candidates(bs@, *shm, skip_ids@);
            assert forall|k: int| 0 <= k < alive@.len() implies #[trigger] alive@[k] < bs@.len() by {
                assert(c[k] == alive@[k]);
            }
            assert forall|j: int, k: int| 0 <= j < k < alive@.len() implies #[trigger] alive@[j]
                < #[trigger] alive@[k] by {
                assert(c[j] < c[k]);
            }
        }
        let n: usize = alive.len();
        if n == 0 {
            return None;
        }
        if bs.len() == 1 {
            assert(c[0] == alive@[0]);
            return Some(alive[0]);
        }
        match self.list.balance {
            Balance::RoundRobin => {
                let k: usize = self.rr_index % n;
                assert(c[k as int] == alive@[k as int]);
                let p: usize = alive[k];
                self.rr_index = self.rr_index.wrapping_add(1);
                Some(p)
            },
            Balance::Random => {
                let k: usize = random_below(n as u64) as usize;
                assert(c[k as int] == alive@[k as int]);
                Some(alive[k])
            },
            Balance::First => {
                assert(c[0] == alive@[0]);
                Some(alive[0])
            },
            Balance::Leastconn => {
                let r = pick_least_loaded(bs, alive.as_slice(), shm);
                proof {
                    if let Some(p) = r {
                        let k = choose|k: int| 0 <= k < c.len() && c[k] == p;
                        assert(c[k] == p);
                    }
                }
                r
            },
            Balance::Weighted => {
                let total: u32 = total_weight(bs, alive.as_slice());
                if total == 0 {
                    assert(c[0] == alive@[0]);
                    return Some(alive[0]);
                }
                let r: u32 = random_below(total as u64) as u32;
                let p: usize = pick_weighted(bs, alive.as_slice(), r);
                proof {
                    let k = choose|k: int| 0 <= k < c.len() && c[k] == p;
                    assert(c[k] == p);
                    assert(weighted_pick(bs@, c, r as int) == p);
                }
                Some(p)
            },
            Balance::Iphash => {
                let mut key: Vec<u8> = Vec::new();
                match *client_ip {
                    IpAddr::V4(a) => {
                        push_le(&mut key, 0, 8);
                        push_be(&mut key, a as u128, 4);
                    },
                    IpAddr::V6(a) => {
                        push_le(&mut key, 1, 8);
                        push_be(&mut key, a, 16);
                    },
                }
                assert(key@ =~= ip_key(*client_ip));
                let p: usize = pick_top_scored(bs, alive.as_slice(), key.as_slice());
                proof {
                    let k = choose|k: int| 0 <= k < c.len() && c[k] == p;
                    assert(c[k] == p);
                }
                Some(p)
            },
            Balance::Urlhash => {
                let mut key: Vec<u8> = Vec::new();
                push_bytes(&mut key, url_path.as_bytes());
                key.push(0xff);
                assert(key@ =~= url_key(url_path.spec_bytes()));
                let p: usize = pick_top_scored(bs, alive.as_slice(), key.as_slice());
                proof {
                    let k = choose|k: int| 0 <= k < c.len() && c[k] == p;
                    assert(c[k] == p);
                }
                Some(p)
            },
        }
    }

    /// The backend that serves a request, `None` where none can.
    pub fn select_backend<'a>(
        &'a mut self,
        client_ip: &IpAddr,
        url_path: &str,
        skip_ids: &[usize],
        shm: &SharedMemory,
    ) -> (r: Option<&'a Backend>)
        requires
            list_within(old(self).list.backends@, *shm),
            old(self).list.balance is Weighted && old(self).list.backends@.len() != 1
                ==> weight_sum(
                old(self).list.backends@,
                old(self).candidates(*shm, skip_ids@),
            ) <= u32::MAX,
        ensures
            final(self).list == old(self).list,
            final(self).rr_index == next_cursor(
                old(self).list,
                old(self).candidates(*shm, skip_ids@),
                old(self).rr_index,
            ),
            match r {
                Some(b) => exists|p: int|
                    0 <= p < old(self).list.backends@.len() && *b == old(self).list.backends@[p]
                        && #[trigger] is_choice(
                        old(self).list,
                        old(self).candidates(*shm, skip_ids@),
                        old(self).rr_index,
                        *client_ip,
                        url_path.spec_bytes(),
                        *shm,
                        Some(p),
                    ),
                None => is_choice(
                    old(self).list,
                    old(self).candidates(*shm, skip_ids@),
                    old(self).rr_index,
                    *client_ip,
                    url_path.spec_bytes(),
                    *shm,
                    None,
                ),
            },
            r matches Some(b) ==> usable(*b, *shm, skip_ids@),
    {
        match self.select_index(client_ip, url_path, skip_ids, shm) {
            Some(p) => Some(&self.list.backends[p]),
            None => None,
        }
    }
}

// ---------------------------------------------------------------------------
// What the balancer guarantees
// ---------------------------------------------------------------------------

proof fn lemma_weighted_pick(bs: Seq<Backend>, c: Seq<int>, r: int)
    requires
        0 <= r < weight_sum(bs, c),
    ensures
        c.contains(weighted_pick(bs, c, r)),
        bs[weighted_pick(bs, c, r)].weight > 0,
    decreases c.len(),
{
    if c.len() > 0 {
        lemma_weight_sum_front(bs, c);
        if r < bs[c[0]].weight {
            assert(c[0] == weighted_pick(bs, c, r));
        } else {
            let t = c.drop_first();
            lemma_weighted_pick(bs, t, r - bs[c[0]].weight);
            let k = choose|k: int| 0 <= k < t.len() && t[k] == weighted_pick(bs, c, r);
            assert(c[k + 1] == t[k]);
        }
    }
}

/// A backend that is picked is up and was not to be skipped, whatever the algorithm.
pub proof fn law_choice_is_usable(
    list: BackendList,
    rr_index: usize,
    client_ip: IpAddr,
    url_path: Seq<u8>,
    shm: SharedMemory,
    skip: Seq<usize>,
    p: int,
)
    requires
        is_choice(
            list,
            candidates(list.backends@, shm, skip),
            rr_index,
            client_ip,
            url_path,
            shm,
            Some(p),
        ),
    ensures
        0 <= p < list.backends@.len(),
        usable(list.backends@[p], shm, skip),
{
    let bs = list.backends@;
    let c = candidates(bs, shm, skip);
    lemma_candidates(bs, shm, skip);
    if list.balance is Weighted && bs.len() != 1 && weight_sum(bs, c) != 0 {
        let r = choose|r: int|
            0 <= r < weight_sum(bs, c) && Some(p) == Some(#[trigger] weighted_pick(bs, c, r));
        lemma_weighted_pick(bs, c, r);
    }
    if list.balance is RoundRobin && bs.len() != 1 {
        assert(0 <= (rr_index as int) % (c.len() as int) < c.len());
        assert(c[(rr_index as int) % (c.len() as int)] == p);
    }
    assert(c.contains(p));
    let k = choose|k: int| 0 <= k < c.len() && c[k] == p;
    assert(0 <= c[k] < bs.len());
}

/// A request goes unserved only where no backend can serve, or where connections are counted and
/// every count is exhausted.
pub proof fn law_unserved_only_without_candidates(
    list: BackendList,
    rr_index: usize,
    client_ip: IpAddr,
    url_path: Seq<u8>,
    shm: SharedMemory,
    skip: Seq<usize>,
)
    requires
        is_choice(
            list,
            candidates(list.backends@, shm, skip),
            rr_index,
            client_ip,
            url_path,
            shm,
            None,
        ),
    ensures
        forall|i: int|
            0 <= i < list.backends@.len() && usable(#[trigger] list.backends@[i], shm, skip)
                ==> list.balance is Leastconn && list.backends@.len() != 1
                && list.backends@[i].state.of(shm).active_connections == usize::MAX,
{
    let bs = list.backends@;
    let c = candidates(bs, shm, skip);
    lemma_candidates(bs, shm, skip);
    assert forall|i: int| 0 <= i < bs.len() && usable(#[trigger] bs[i], shm, skip) implies
        list.balance is Leastconn && bs.len() != 1 && bs[i].state.of(shm).active_connections
        == usize::MAX by {
        assert(c.contains(i));
        let k = choose|k: int| 0 <= k < c.len() && c[k] == i;
        assert(c[k] == i);
    }
}

/// Round robin goes round: within as many requests as there are candidates, no backend is picked
/// twice. (The cursor starts over at the end of its range; the requests around that point are
/// left out.)
pub proof fn law_round_robin_goes_round(
    list: BackendList,
    rr_index: usize,
    i: int,
    j: int,
    client_ip: IpAddr,
    url_path: Seq<u8>,
    shm: SharedMemory,
    skip: Seq<usize>,
    a: Option<int>,
    b: Option<int>,
)
    requires
        list.balance is RoundRobin,
        list.backends@.len() != 1,
        0 <= i < j < candidates(list.backends@, shm, skip).len(),
        rr_index + j <= usize::MAX,
        is_choice(
            list,
            candidates(list.backends@, shm, skip),
            (rr_index + i) as usize,
            client_ip,
            url_path,
            shm,
            a,
        ),
        is_choice(
            list,
            candidates(list.backends@, shm, skip),
            (rr_index + j) as usize,
            client_ip,
            url_path,
            shm,
            b,
        ),
    ensures
        a is Some,
        b is Some,
        a != b,
{
    let bs = list.backends@;
    let c = candidates(bs, shm, skip);
    lemma_candidates(bs, shm, skip);
    let n = c.len() as int;
    let x = (rr_index + i) % n;
    let y = (rr_index + j) % n;
    assert(x != y) by (nonlinear_arith)
        requires
            x == (rr_index + i) % n,
            y == (rr_index + j) % n,
            0 <= i < j < n,
    {
        let q1 = (rr_index + i) / n;
        let q2 = (rr_index + j) / n;
        assert(rr_index + i == n * q1 + x);
        assert(rr_index + j == n * q2 + y);
        if x == y {
            assert(j - i == n * (q2 - q1));
            assert(0 < j - i < n);
            assert(false);
        }
    }
    assert(0 <= x < n && 0 <= y < n);
    if x < y {
        assert(c[x] < c[y]);
    } else {
        assert(c[y] < c[x]);
    }
}

/// The bytes by which a hashing balancer picks.
pub open spec fn affinity_key(list: BackendList, client_ip: IpAddr, url_path: Seq<u8>) -> Seq<u8> {
    if list.balance is Iphash {
        ip_key(client_ip)
    } else {
        url_key(url_path)
    }
}

/// A key stays with its backend. Between two situations that differ in which backends are up or
/// skipped, the pick changes only where the backend itself is lost or another one has joined: as
/// long as it can still serve and the candidates are among those of before, it is picked again.
/// The cursor and, for `urlhash`, the address do not matter.
pub proof fn law_hash_affinity(
    list: BackendList,
    rr1: usize,
    rr2: usize,
    ip1: IpAddr,
    ip2: IpAddr,
    path1: Seq<u8>,
    path2: Seq<u8>,
    shm1: SharedMemory,
    shm2: SharedMemory,
    skip1: Seq<usize>,
    skip2: Seq<usize>,
    p: int,
    choice: Option<int>,
)
    requires
        list.balance is Iphash || list.balance is Urlhash,
        affinity_key(list, ip1, path1) == affinity_key(list, ip2, path2),
        is_choice(list, candidates(list.backends@, shm1, skip1), rr1, ip1, path1, shm1, Some(p)),
        is_choice(list, candidates(list.backends@, shm2, skip2), rr2, ip2, path2, shm2, choice),
        usable(list.backends@[p], shm2, skip2),
        forall|i: int|
            0 <= i < list.backends@.len() && usable(#[trigger] list.backends@[i], shm2, skip2)
                ==> usable(list.backends@[i], shm1, skip1),
    ensures
        choice == Some(p),
{
    let bs = list.backends@;
    let c1 = candidates(bs, shm1, skip1);
    let c2 = candidates(bs, shm2, skip2);
    lemma_candidates(bs, shm1, skip1);
    lemma_candidates(bs, shm2, skip2);
    law_choice_is_usable(list, rr1, ip1, path1, shm1, skip1, p);
    assert(c2.contains(p));
    let k2 = choose|k: int| 0 <= k < c2.len() && c2[k] == p;
    assert(c2[k2] == p);
    if let Some(q) = choice {
        law_choice_is_usable(list, rr2, ip2, path2, shm2, skip2, q);
        assert(c1.contains(q));
        let k1 = choose|k: int| 0 <= k < c1.len() && c1[k] == q;
        assert(c1[k1] == q);
    }
}

/// A weighted pick never falls on a backend without weight while another one has some.
pub proof fn law_weighted_pick_has_weight(
    list: BackendList,
    rr_index: usize,
    client_ip: IpAddr,
    url_path: Seq<u8>,
    shm: SharedMemory,
    skip: Seq<usize>,
    p: int,
)
    requires
        list.balance is Weighted,
        list.backends@.len() != 1,
        weight_sum(list.backends@, candidates(list.backends@, shm, skip)) > 0,
        is_choice(
            list,
            candidates(list.backends@, shm, skip),
            rr_index,
            client_ip,
            url_path,
            shm,
            Some(p),
        ),
    ensures
        list.backends@[p].weight > 0,
{
    let bs = list.backends@;
    let c = candidates(bs, shm, skip);
    let r = choose|r: int|
        0 <= r < weight_sum(bs, c) && Some(p) == Some(#[trigger] weighted_pick(bs, c, r));
    lemma_weighted_pick(bs, c, r);
}

} // verus!
