//! What is measured of calls.

use vstd::arithmetic::power2::*;
use vstd::bits::*;
use vstd::prelude::*;

use crate::cycles;
use crate::cycles::{Reading, SiteModel};

verus! {

/// One more call. It is counted once and its time added; its own time is what is left of that without
/// the calls within it; the extremes take it in; and of the buckets only its own has one more.
pub proof fn law_call_is_recorded(s: SiteModel, total: u64, child: u64, b: int)
    requires
        cycles::site_wf(s),
        s.count < u64::MAX,
        s.sum_total + total <= u64::MAX,
        s.self_sum + total <= u64::MAX,
        child <= total,
        0 <= b < 64,
        s.buckets[b] < u64::MAX,
    ensures
        ({
            let t = cycles::recorded(s, total, child);
            &&& t.count == s.count + 1
            &&& t.sum_total == s.sum_total + total
            &&& t.self_sum == s.self_sum + (total - child)
            &&& t.min <= total && t.min <= s.min && (t.min == total || t.min == s.min)
            &&& t.max >= total && t.max >= s.max && (t.max == total || t.max == s.max)
            &&& t.name == s.name
            &&& t.dropped_migrated == s.dropped_migrated
            &&& t.buckets[b] == s.buckets[b] + if total > 0 && pow2(b as nat) <= total < pow2(
                (b + 1) as nat,
            ) {
                1int
            } else if total == 0 && b == 0 {
                1
            } else {
                0
            }
        }),
{
    if total > 0 {
        cycles::law_sample_lies_in_its_bucket(total);
        let k = cycles::bucket_of(total);
        if b < k {
            if b + 1 < k {
                lemma_pow2_strictly_increases((b + 1) as nat, k as nat);
            }
        } else if b > k {
            if k + 1 < b {
                lemma_pow2_strictly_increases((k + 1) as nat, b as nat);
            }
        }
    }
}

/// A call that takes longer than all the calls within it has the rest for itself; otherwise nothing.
pub proof fn law_time_of_its_own(total: u64, child: u64)
    ensures
        child <= total ==> cycles::self_time(total, child) == total - child,
        child > total ==> cycles::self_time(total, child) == 0,
{
}

/// Samples in some buckets together.
pub open spec fn samples(buckets: Seq<u64>, n: int) -> nat
    decreases n,
{
    if n <= 0 {
        0
    } else {
        samples(buckets, n - 1) + buckets[n - 1] as nat
    }
}

/// The bucket of a rank is where that many samples are reached: all buckets before it have fewer
/// together, and with it they have as many, or it is the last.
pub proof fn law_bucket_of_a_rank(buckets: Seq<u64>, k: int, rank: u64)
    requires
        0 <= k < buckets.len(),
        samples(buckets, k) < rank,
    ensures
        ({
            let r = cycles::rank_bucket(buckets, k, samples(buckets, k), rank);
            &&& k <= r < buckets.len()
            &&& samples(buckets, r) < rank
            &&& samples(buckets, r + 1) >= rank || r == buckets.len() - 1
        }),
    decreases buckets.len() - k,
{
    reveal_with_fuel(cycles::rank_bucket, 2);
    if samples(buckets, k) + buckets[k] < rank && k + 1 < buckets.len() {
        law_bucket_of_a_rank(buckets, k + 1, rank);
    }
}

/// Bucket `b` goes from 2^b up to 2^(b+1), the last one as far as a counter does.
pub proof fn law_bounds_of_a_bucket(b: int)
    requires
        0 <= b < 64,
    ensures
        cycles::bounds_of(b).0 == pow2(b as nat),
        b < 63 ==> cycles::bounds_of(b).1 == pow2((b + 1) as nat),
        b == 63 ==> cycles::bounds_of(b).1 == u64::MAX,
{
    lemma2_to64();
    lemma2_to64_rest();
    lemma_pow2_strictly_increases(b as nat, 64);
    lemma_u64_shl_is_mul(1, b as u64);
    if b < 63 {
        lemma_pow2_strictly_increases((b + 1) as nat, 64);
        lemma_u64_shl_is_mul(1, (b + 1) as u64);
    }
}

/// Measuring is judged by the readings on one core that do not run backwards: each gives the span
/// between its two ends, and any other is left out.
pub proof fn law_spans_that_count(rs: Seq<Reading>, r: Reading)
    ensures
        r.start_core == r.end_core && r.start <= r.end ==> cycles::spans(rs.push(r)) == cycles::spans(
            rs,
        ).push((r.end - r.start) as u64),
        r.start_core != r.end_core || r.start > r.end ==> cycles::spans(rs.push(r)) == cycles::spans(
            rs,
        ),
        cycles::spans(seq![]).len() == 0,
{
    assert(rs.push(r).drop_last() =~= rs);
}

/// The least of some spans is one of them and no larger than any; their sum is that of all.
pub proof fn law_least_and_sum(s: Seq<u64>, x: u64)
    ensures
        forall|i: int| 0 <= i < s.len() ==> cycles::least(s) <= #[trigger] s[i],
        s.len() > 0 ==> s.contains(cycles::least(s)),
        cycles::span_sum(s.push(x)) == cycles::span_sum(s) + x,
        cycles::span_sum(seq![]) == 0,
    decreases s.len(),
{
    assert(s.push(x).drop_last() =~= s);
    if s.len() > 0 {
        let init = s.drop_last();
        law_least_and_sum(init, x);
        assert forall|i: int| 0 <= i < s.len() implies cycles::least(s) <= #[trigger] s[i] by {
            if i < s.len() - 1 {
                assert(init[i] == s[i]);
            }
        }
        if cycles::least(s) == s.last() {
            assert(s[s.len() - 1] == cycles::least(s));
        } else if init.len() > 0 {
            let i = choose|i: int| 0 <= i < init.len() && init[i] == cycles::least(init);
            assert(s[i] == cycles::least(s));
        } else {
            assert(cycles::least(init) == u64::MAX);
        }
    }
}

} // verus!
