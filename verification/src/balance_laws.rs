//! How requests are shared among backends.

use vstd::prelude::*;

use crate::balancer;
use crate::config::{Backend, BackendList, Balance};
use crate::net;
use crate::net::IpAddr;
use crate::shared::SharedMemory;

verus! {

/// Whether a backend can serve: it is marked as up, and it is none of those to be skipped.
pub open spec fn can_serve(b: Backend, shm: SharedMemory, skip: Seq<usize>) -> bool {
    &&& shm.backends@[b.state.slot()].up != 0
    &&& forall|k: int| 0 <= k < skip.len() ==> #[trigger] skip[k] != b.id
}

/// The connections that a backend has.
pub open spec fn connections(b: Backend, shm: SharedMemory) -> usize {
    shm.backends@[b.state.slot()].active_connections
}

proof fn lemma_can_serve(b: Backend, shm: SharedMemory, skip: Seq<usize>)
    ensures
        balancer::usable(b, shm, skip) == can_serve(b, shm, skip),
{
    if can_serve(b, shm, skip) && skip.contains(b.id) {
        let k = choose|k: int| 0 <= k < skip.len() && skip[k] == b.id;
        assert(skip[k] != b.id);
    }
    if balancer::usable(b, shm, skip) {
        assert forall|k: int| 0 <= k < skip.len() implies #[trigger] skip[k] != b.id by {
            if skip[k] == b.id {
                assert(skip.contains(b.id));
            }
        }
    }
}

/// Whatever the way to balance, a request goes to a backend that is up and not to be skipped, and to
/// none only where there is no such backend or all of them are full.
pub proof fn law_only_serving_backends_are_picked(
    list: BackendList,
    rr_index: usize,
    client_ip: IpAddr,
    url_path: Seq<u8>,
    shm: SharedMemory,
    skip: Seq<usize>,
    choice: Option<int>,
)
    requires
        balancer::is_choice(
            list,
            balancer::candidates(list.backends@, shm, skip),
            rr_index,
            client_ip,
            url_path,
            shm,
            choice,
        ),
    ensures
        choice matches Some(p) ==> 0 <= p < list.backends@.len() && can_serve(
            list.backends@[p],
            shm,
            skip,
        ),
        choice is None ==> forall|i: int|
            0 <= i < list.backends@.len() && can_serve(#[trigger] list.backends@[i], shm, skip)
                ==> list.balance == Balance::Leastconn && connections(list.backends@[i], shm)
                == usize::MAX,
{
    assert forall|i: int| 0 <= i < list.backends@.len() implies can_serve(
        #[trigger] list.backends@[i],
        shm,
        skip,
    ) == balancer::usable(list.backends@[i], shm, skip) by {
        lemma_can_serve(list.backends@[i], shm, skip);
    }
    match choice {
        Some(p) => balancer::law_choice_is_usable(
            list,
            rr_index,
            client_ip,
            url_path,
            shm,
            skip,
            p,
        ),
        None => balancer::law_unserved_only_without_candidates(
            list,
            rr_index,
            client_ip,
            url_path,
            shm,
            skip,
        ),
    }
}

/// `first` picks the first backend of the list that can serve.
pub proof fn law_first_picks_the_first(
    list: BackendList,
    rr_index: usize,
    client_ip: IpAddr,
    url_path: Seq<u8>,
    shm: SharedMemory,
    skip: Seq<usize>,
    p: int,
)
    requires
        list.balance == Balance::First,
        balancer::is_choice(
            list,
            balancer::candidates(list.backends@, shm, skip),
            rr_index,
            client_ip,
            url_path,
            shm,
            Some(p),
        ),
    ensures
        forall|i: int| 0 <= i < p ==> !can_serve(#[trigger] list.backends@[i], shm, skip),
{
    let bs = list.backends@;
    let c = balancer::candidates(bs, shm, skip);
    balancer::lemma_candidates(bs, shm, skip);
    assert(c[0] == p);
    assert forall|i: int| 0 <= i < p implies !can_serve(#[trigger] bs[i], shm, skip) by {
        lemma_can_serve(bs[i], shm, skip);
        if balancer::usable(bs[i], shm, skip) {
            assert(c.contains(i));
            let k = choose|k: int| 0 <= k < c.len() && c[k] == i;
            if k > 0 {
                assert(c[0] < c[k]);
            }
        }
    }
}

/// `leastconn` picks a backend that no other one that can serve undercuts in connections, and of
/// several such the first.
pub proof fn law_leastconn_picks_the_least_busy(
    list: BackendList,
    rr_index: usize,
    client_ip: IpAddr,
    url_path: Seq<u8>,
    shm: SharedMemory,
    skip: Seq<usize>,
    p: int,
    i: int,
)
    requires
        list.balance == Balance::Leastconn,
        balancer::is_choice(
            list,
            balancer::candidates(list.backends@, shm, skip),
            rr_index,
            client_ip,
            url_path,
            shm,
            Some(p),
        ),
        0 <= i < list.backends@.len(),
        can_serve(list.backends@[i], shm, skip),
    ensures
        connections(list.backends@[p], shm) <= connections(list.backends@[i], shm),
        i < p ==> connections(list.backends@[p], shm) < connections(list.backends@[i], shm),
{
    let bs = list.backends@;
    let c = balancer::candidates(bs, shm, skip);
    balancer::lemma_candidates(bs, shm, skip);
    lemma_can_serve(bs[i], shm, skip);
    assert(c.contains(i));
    let k = choose|k: int| 0 <= k < c.len() && c[k] == i;
    assert(c[k] == i);
    if bs.len() == 1 {
        assert(c[0] == p);
        assert(0 <= c[0] < bs.len());
    }
}

/// The weight of the first `k` candidates together.
pub open spec fn weight_before(bs: Seq<Backend>, c: Seq<int>, k: int) -> int
    decreases k,
{
    if k <= 0 {
        0
    } else {
        weight_before(bs, c, k - 1) + bs[c[k - 1]].weight
    }
}

proof fn lemma_weight_sum(bs: Seq<Backend>, c: Seq<int>)
    ensures
        balancer::weight_sum(bs, c) == weight_before(bs, c, c.len() as int),
    decreases c.len(),
{
    if c.len() > 0 {
        lemma_weight_sum(bs, c.drop_last());
        lemma_weight_before_take(bs, c.drop_last(), c, c.len() - 1);
    }
}

proof fn lemma_weight_before_take(bs: Seq<Backend>, a: Seq<int>, c: Seq<int>, k: int)
    requires
        0 <= k <= a.len(),
        k <= c.len(),
        forall|i: int| 0 <= i < k ==> #[trigger] a[i] == c[i],
    ensures
        weight_before(bs, a, k) == weight_before(bs, c, k),
    decreases k,
{
    if k > 0 {
        lemma_weight_before_take(bs, a, c, k - 1);
        assert(a[k - 1] == c[k - 1]);
    }
}

proof fn lemma_weight_before_first(bs: Seq<Backend>, c: Seq<int>, k: int)
    requires
        0 < k <= c.len(),
    ensures
        weight_before(bs, c, k) == bs[c[0]].weight + weight_before(bs, c.drop_first(), k - 1),
    decreases k,
{
    if k > 1 {
        lemma_weight_before_first(bs, c, k - 1);
        assert(c.drop_first()[k - 2] == c[k - 1]);
    } else {
        assert(weight_before(bs, c, 0) == 0);
        assert(weight_before(bs, c.drop_first(), 0) == 0);
    }
}

/// Of the numbers below the sum of all weights, each candidate is picked by as many as its own
/// weight says: those from the weights before it on.
pub proof fn law_weights_share_out(bs: Seq<Backend>, c: Seq<int>, k: int, r: int)
    requires
        0 <= k < c.len(),
        weight_before(bs, c, k) <= r < weight_before(bs, c, k) + bs[c[k]].weight,
    ensures
        balancer::weighted_pick(bs, c, r) == c[k],
        0 <= r < balancer::weight_sum(bs, c),
    decreases c.len(),
{
    lemma_weight_sum(bs, c);
    lemma_weight_before_grows(bs, c, 0, k);
    lemma_weight_before_grows(bs, c, k + 1, c.len() as int);
    if k > 0 {
        lemma_weight_before_first(bs, c, k);
        lemma_weight_before_grows(bs, c.drop_first(), 0, k - 1);
        assert(c.drop_first()[k - 1] == c[k]);
        law_weights_share_out(bs, c.drop_first(), k - 1, r - bs[c[0]].weight);
    }
}

proof fn lemma_weight_before_grows(bs: Seq<Backend>, c: Seq<int>, j: int, k: int)
    requires
        0 <= j <= k,
    ensures
        weight_before(bs, c, j) <= weight_before(bs, c, k),
    decreases k - j,
{
    if j < k {
        lemma_weight_before_grows(bs, c, j, k - 1);
    }
}

/// Where all weights are zero the first candidate serves; otherwise the pick is that of some number
/// below their sum.
pub proof fn law_weighted_pick_is_by_a_number(
    list: BackendList,
    rr_index: usize,
    client_ip: IpAddr,
    url_path: Seq<u8>,
    shm: SharedMemory,
    skip: Seq<usize>,
    p: int,
)
    requires
        list.balance == Balance::Weighted,
        list.backends@.len() != 1,
        balancer::is_choice(
            list,
            balancer::candidates(list.backends@, shm, skip),
            rr_index,
            client_ip,
            url_path,
            shm,
            Some(p),
        ),
    ensures
        ({
            let c = balancer::candidates(list.backends@, shm, skip);
            let sum = weight_before(list.backends@, c, c.len() as int);
            &&& sum == 0 ==> p == c[0]
            &&& sum > 0 ==> exists|r: int|
                0 <= r < sum && #[trigger] balancer::weighted_pick(list.backends@, c, r) == p
        }),
{
    let bs = list.backends@;
    let c = balancer::candidates(bs, shm, skip);
    lemma_weight_sum(bs, c);
    if balancer::weight_sum(bs, c) != 0 {
        let r = choose|r: int|
            0 <= r < balancer::weight_sum(bs, c) && Some(p) == Some(
                #[trigger] balancer::weighted_pick(bs, c, r),
            );
        assert(balancer::weighted_pick(bs, c, r) == p);
    }
}

/// Each request of a list in turn moves the cursor on by one, and no other way to balance moves it.
pub proof fn law_cursor_moves_on(list: BackendList, c: Seq<int>, rr_index: usize)
    requires
        rr_index < usize::MAX,
    ensures
        list.balance == Balance::RoundRobin && list.backends@.len() > 1 && c.len() > 0
            ==> balancer::next_cursor(list, c, rr_index) == rr_index + 1,
        list.balance != Balance::RoundRobin ==> balancer::next_cursor(list, c, rr_index) == rr_index,
        list.backends@.len() == 1 || c.len() == 0 ==> balancer::next_cursor(list, c, rr_index)
            == rr_index,
{
}

/// The hash of some bytes: FNV-1a with 64 bits.
pub proof fn law_hash_is_fnv1a(state: u64, bytes: Seq<u8>, b: u8)
    ensures
        balancer::fnv(state, seq![]) == state,
        balancer::fnv(state, bytes.push(b)) == (balancer::fnv(state, bytes) ^ (
        b as u64)).wrapping_mul(1099511628211u64),
        balancer::OFFSET_BASIS == 14695981039346656037u64,
{
    assert(bytes.push(b).drop_last() =~= bytes);
}

/// `iphash` picks a backend by the client's address alone, and `urlhash` by the target alone: the one
/// for which the hash of that and the backend's number is highest.
pub proof fn law_hash_picks_the_highest(
    list: BackendList,
    rr_index: usize,
    client_ip: IpAddr,
    url_path: Seq<u8>,
    shm: SharedMemory,
    skip: Seq<usize>,
    p: int,
    i: int,
)
    requires
        list.balance == Balance::Iphash || list.balance == Balance::Urlhash,
        balancer::is_choice(
            list,
            balancer::candidates(list.backends@, shm, skip),
            rr_index,
            client_ip,
            url_path,
            shm,
            Some(p),
        ),
        0 <= i < list.backends@.len(),
        can_serve(list.backends@[i], shm, skip),
    ensures
        ({
            let key = if list.balance == Balance::Iphash {
                balancer::ip_key(client_ip)
            } else {
                url_path.push(255)
            };
            let of = |b: Backend|
                balancer::fnv(14695981039346656037u64, key + net::le_bytes(b.id as nat, 8));
            of(list.backends@[i]) <= of(list.backends@[p])
        }),
{
    let bs = list.backends@;
    let c = balancer::candidates(bs, shm, skip);
    balancer::lemma_candidates(bs, shm, skip);
    lemma_can_serve(bs[i], shm, skip);
    assert(c.contains(i));
    let k = choose|k: int| 0 <= k < c.len() && c[k] == i;
    assert(c[k] == i);
    assert(url_path + seq![0xffu8] =~= url_path.push(255));
    if bs.len() == 1 {
        assert(c[0] == p);
        assert(0 <= c[0] < bs.len());
    }
}

/// Two clients, or two targets, have the same key only where they are the same.
pub proof fn law_hash_keys_are_distinct(a: IpAddr, b: IpAddr, x: Seq<u8>, y: Seq<u8>)
    ensures
        balancer::ip_key(a) == balancer::ip_key(b) <==> a == b,
        balancer::url_key(x) == balancer::url_key(y) <==> x == y,
{
    if balancer::url_key(x) == balancer::url_key(y) {
        let k = balancer::url_key(x);
        assert(k.drop_last() =~= x);
        assert(balancer::url_key(y).drop_last() =~= y);
    }
    if balancer::ip_key(a) == balancer::ip_key(b) {
        lemma_le_len(0, 8);
        lemma_le_len(1, 8);
        match (a, b) {
            (IpAddr::V4(p), IpAddr::V4(q)) => {
                lemma_be_len(p as nat, 4);
                lemma_be_len(q as nat, 4);
                assert(balancer::ip_key(a).skip(8) =~= net::be_bytes(p as nat, 4));
                assert(balancer::ip_key(b).skip(8) =~= net::be_bytes(q as nat, 4));
                lemma_be_value(p as nat, 4);
                lemma_be_value(q as nat, 4);
                assert(power_of_256(4) == 0x1_0000_0000) by {
                    reveal_with_fuel(power_of_256, 5);
                }
            },
            (IpAddr::V6(p), IpAddr::V6(q)) => {
                lemma_be_len(p as nat, 16);
                lemma_be_len(q as nat, 16);
                assert(balancer::ip_key(a).skip(8) =~= net::be_bytes(p as nat, 16));
                assert(balancer::ip_key(b).skip(8) =~= net::be_bytes(q as nat, 16));
                lemma_be_value(p as nat, 16);
                lemma_be_value(q as nat, 16);
                assert(power_of_256(16) == 0x1_0000_0000_0000_0000_0000_0000_0000_0000) by {
                    reveal_with_fuel(power_of_256, 17);
                }
            },
            (IpAddr::V4(p), IpAddr::V6(q)) => {
                lemma_be_len(p as nat, 4);
                lemma_be_len(q as nat, 16);
                assert(balancer::ip_key(a).len() != balancer::ip_key(b).len());
            },
            (IpAddr::V6(p), IpAddr::V4(q)) => {
                lemma_be_len(p as nat, 16);
                lemma_be_len(q as nat, 4);
                assert(balancer::ip_key(a).len() != balancer::ip_key(b).len());
            },
        }
    }
}

/// 256 to the power of `k`.
pub open spec fn power_of_256(k: nat) -> nat
    decreases k,
{
    if k == 0 {
        1
    } else {
        256 * power_of_256((k - 1) as nat)
    }
}

/// The number that some bytes are, the highest first.
pub open spec fn number_of(b: Seq<u8>) -> nat
    decreases b.len(),
{
    if b.len() == 0 {
        0
    } else {
        256 * number_of(b.drop_last()) + b.last() as nat
    }
}

proof fn lemma_be_len(n: nat, k: nat)
    ensures
        net::be_bytes(n, k).len() == k,
    decreases k,
{
    if k > 0 {
        lemma_be_len(n / 256, (k - 1) as nat);
    }
}

proof fn lemma_le_len(n: nat, k: nat)
    ensures
        net::le_bytes(n, k).len() == k,
    decreases k,
{
    if k > 0 {
        lemma_le_len(n / 256, (k - 1) as nat);
    }
}

proof fn lemma_be_value(n: nat, k: nat)
    ensures
        n < power_of_256(k) ==> number_of(net::be_bytes(n, k)) == n,
    decreases k,
{
    if k > 0 {
        lemma_be_value(n / 256, (k - 1) as nat);
        let b = net::be_bytes(n, k);
        assert(b.drop_last() =~= net::be_bytes(n / 256, (k - 1) as nat));
        if n < power_of_256(k) {
            let q = power_of_256((k - 1) as nat);
            assert(n / 256 < q) by (nonlinear_arith)
                requires
                    n < 256 * q,
            ;
        }
    }
}

/// An address is hashed by its family, 0 or 1 in eight bytes with the lowest first, and then its own
/// bytes with the highest first.
pub proof fn law_bytes_of_an_address(a: u32, b: u128)
    ensures
        balancer::ip_key(IpAddr::V4(a)) == seq![0u8, 0, 0, 0, 0, 0, 0, 0] + net::be_bytes(a as nat, 4),
        balancer::ip_key(IpAddr::V6(b)) == seq![1u8, 0, 0, 0, 0, 0, 0, 0] + net::be_bytes(
            b as nat,
            16,
        ),
{
    assert(net::le_bytes(0, 8) =~= seq![0u8, 0, 0, 0, 0, 0, 0, 0]) by {
        reveal_with_fuel(net::le_bytes, 9);
    }
    assert(net::le_bytes(1, 8) =~= seq![1u8, 0, 0, 0, 0, 0, 0, 0]) by {
        reveal_with_fuel(net::le_bytes, 9);
    }
}

} // verus!
