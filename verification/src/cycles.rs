//! What the calls of a function cost, in ticks of the time-stamp counter: totals, extremes, a
//! histogram and the latest samples.

use vstd::arithmetic::power2::*;
use vstd::prelude::*;

verus! {

/// Number of histogram buckets.
pub const NUM_BUCKETS: usize = 64;

/// Number of latest samples that are kept.
pub const RING_LEN: usize = 1024;

// ---------------------------------------------------------------------------
// Self time
// ---------------------------------------------------------------------------

/// The measured calls that are under way, outermost first: for each, the ticks that measured calls
/// within it took.
pub struct Frames {
    pub stack: Vec<u64>,
}

impl Frames {
    /// No call under way.
    pub fn new() -> (r: Frames)
        ensures
            r.stack@ == Seq::<u64>::empty(),
    {
        Frames { stack: Vec::new() }
    }
}

/// A measured call begins.
pub fn push_frame(frames: &mut Frames)
    ensures
        final(frames).stack@ == old(frames).stack@.push(0),
{
    frames.stack.push(0);
}

/// A measured call ends. Returns the ticks that measured calls within it took.
pub fn pop_frame(frames: &mut Frames) -> (r: u64)
    ensures
        old(frames).stack@.len() > 0 ==> r == old(frames).stack@.last() && final(frames).stack@
            == old(frames).stack@.drop_last(),
        old(frames).stack@.len() == 0 ==> r == 0 && final(frames).stack@ == old(frames).stack@,
{
    match frames.stack.pop() {
        Some(v) => v,
        None => 0,
    }
}

/// The calls under way after one within them ended: its ticks go to the innermost.
pub open spec fn after_call(stack: Seq<u64>, cycles: u64) -> Seq<u64> {
    if stack.len() > 0 {
        stack.update(stack.len() - 1, (stack.last() + cycles) as u64)
    } else {
        stack
    }
}

/// Adds the ticks of a call that ended to the call around it, if there is one.
pub fn add_to_parent(frames: &mut Frames, cycles: u64)
    requires
        old(frames).stack@.len() > 0 ==> old(frames).stack@.last() + cycles <= u64::MAX,
    ensures
        final(frames).stack@ == after_call(old(frames).stack@, cycles),
{
    let n: usize = frames.stack.len();
    if n > 0 {
        let v: u64 = frames.stack[n - 1];
        frames.stack[n - 1] = v + cycles;
    }
}

// ---------------------------------------------------------------------------
// Sites
// ---------------------------------------------------------------------------

/// The place of the highest bit of a number; 0 for 0.
pub open spec fn log2(n: nat) -> nat
    decreases n,
{
    if n <= 1 {
        0
    } else {
        1 + log2(n / 2)
    }
}

/// The bucket of a sample: one for each power of two.
pub open spec fn bucket_of(total: u64) -> int {
    if log2(total as nat) < NUM_BUCKETS {
        log2(total as nat) as int
    } else {
        NUM_BUCKETS - 1
    }
}

fn bucket(total: u64) -> (r: usize)
    ensures
        r == bucket_of(total),
{
    let mut n: u64 = total;
    let mut b: u64 = 0;
    while n > 1
        invariant
            log2(total as nat) == b + log2(n as nat),
            b + n <= total,
        decreases n,
    {
        n = n / 2;
        b = b + 1;
    }
    if b < NUM_BUCKETS as u64 {
        b as usize
    } else {
        NUM_BUCKETS - 1
    }
}

/// What was measured of one function. A sum that would exceed its range starts over.
pub struct Site {
    name: &'static str,
    count: u64,
    sum_total: u64,
    self_sum: u64,
    min: u64,
    max: u64,
    dropped_migrated: u64,
    buckets: Vec<u64>,
    ring: Vec<u64>,
    ring_next: usize,
}

/// Mathematical content of a [`Site`].
#[verifier::ext_equal]
pub struct SiteModel {
    pub name: Seq<char>,
    pub count: u64,
    pub sum_total: u64,
    pub self_sum: u64,
    pub min: u64,
    pub max: u64,
    pub dropped_migrated: u64,
    pub buckets: Seq<u64>,
    pub ring: Seq<u64>,
    pub ring_next: usize,
}

impl View for Site {
    type V = SiteModel;

    closed spec fn view(&self) -> SiteModel {
        SiteModel {
            name: self.name@,
            count: self.count,
            sum_total: self.sum_total,
            self_sum: self.self_sum,
            min: self.min,
            max: self.max,
            dropped_migrated: self.dropped_migrated,
            buckets: self.buckets@,
            ring: self.ring@,
            ring_next: self.ring_next,
        }
    }
}

/// There are as many buckets and samples as there should be.
pub open spec fn site_wf(s: SiteModel) -> bool {
    s.buckets.len() == NUM_BUCKETS && s.ring.len() == RING_LEN
}

/// Nothing measured yet.
pub open spec fn fresh_site(name: Seq<char>) -> SiteModel {
    SiteModel {
        name,
        count: 0,
        sum_total: 0,
        self_sum: 0,
        min: u64::MAX,
        max: 0,
        dropped_migrated: 0,
        buckets: Seq::new(NUM_BUCKETS as nat, |i: int| 0u64),
        ring: Seq::new(RING_LEN as nat, |i: int| 0u64),
        ring_next: 0,
    }
}

/// What a call took by itself: less what measured calls within it took.
pub open spec fn self_time(total: u64, child: u64) -> u64 {
    if total >= child {
        (total - child) as u64
    } else {
        0
    }
}

/// What was measured after one more call.
pub open spec fn recorded(s: SiteModel, total: u64, child: u64) -> SiteModel {
    SiteModel {
        name: s.name,
        count: s.count.wrapping_add(1),
        sum_total: s.sum_total.wrapping_add(total),
        self_sum: s.self_sum.wrapping_add(self_time(total, child)),
        min: if total < s.min {
            total
        } else {
            s.min
        },
        max: if total > s.max {
            total
        } else {
            s.max
        },
        dropped_migrated: s.dropped_migrated,
        buckets: s.buckets.update(
            bucket_of(total),
            s.buckets[bucket_of(total)].wrapping_add(1),
        ),
        ring: s.ring.update(s.ring_next as int % RING_LEN as int, total),
        ring_next: s.ring_next.wrapping_add(1),
    }
}

/// What was measured after one more call that changed cores.
pub open spec fn dropped(s: SiteModel) -> SiteModel {
    SiteModel { dropped_migrated: s.dropped_migrated.wrapping_add(1), ..s }
}

/// The latest samples, oldest first.
pub open spec fn recent(s: SiteModel) -> Seq<u64> {
    let n = if s.count < RING_LEN {
        s.count as nat
    } else {
        RING_LEN as nat
    };
    let start = if s.ring_next >= RING_LEN {
        s.ring_next as int % RING_LEN as int
    } else {
        0
    };
    Seq::new(n, |i: int| s.ring[(start + i) % RING_LEN as int])
}

/// The bounds of a bucket: from a power of two up to the next.
pub open spec fn bounds_of(bucket: int) -> (u64, u64) {
    (
        1u64 << (bucket as u64),
        if bucket + 1 < 64 {
            1u64 << ((bucket + 1) as u64)
        } else {
            u64::MAX
        },
    )
}

/// The first bucket from `k` on up to which there are at least `rank` samples, `seen` of them below
/// `k`; the last one where there are fewer.
pub open spec fn rank_bucket(buckets: Seq<u64>, k: int, seen: nat, rank: u64) -> int
    decreases buckets.len() - k,
{
    if k < 0 || k >= buckets.len() {
        buckets.len() - 1
    } else if seen + buckets[k] >= rank {
        k
    } else {
        rank_bucket(buckets, k + 1, seen + buckets[k] as nat, rank)
    }
}

impl Site {
    /// Nothing measured yet.
    pub fn new(name: &'static str) -> (r: Site)
        ensures
            r@ == fresh_site(name@),
            site_wf(r@),
    {
        let mut buckets: Vec<u64> = Vec::new();
        buckets.resize(NUM_BUCKETS, 0);
        let mut ring: Vec<u64> = Vec::new();
        ring.resize(RING_LEN, 0);
        let r = Site {
            name,
            count: 0,
            sum_total: 0,
            self_sum: 0,
            min: u64::MAX,
            max: 0,
            dropped_migrated: 0,
            buckets,
            ring,
            ring_next: 0,
        };
        assert(r@ =~= fresh_site(name@));
        r
    }

    /// Records a call that took `total` ticks, `child` of them in measured calls within it.
    pub fn record(&mut self, total: u64, child: u64)
        requires
            site_wf(old(self)@),
        ensures
            final(self)@ == recorded(old(self)@, total, child),
            site_wf(final(self)@),
    {
        self.count = self.count.wrapping_add(1);
        self.sum_total = self.sum_total.wrapping_add(total);
        self.self_sum = self.self_sum.wrapping_add(total.saturating_sub(child));
        if total < self.min {
            self.min = total;
        }
        if total > self.max {
            self.max = total;
        }
        let b: usize = bucket(total);
        let n: u64 = self.buckets[b];
        self.buckets[b] = n.wrapping_add(1);
        let idx: usize = self.ring_next % RING_LEN;
        self.ring_next = self.ring_next.wrapping_add(1);
        self.ring[idx] = total;
        assert(self@ =~= recorded(old(self)@, total, child));
    }

    /// Notes a call that was not measured because it moved between cores.
    pub fn record_dropped_migration(&mut self)
        ensures
            final(self)@ == dropped(old(self)@),
    {
        self.dropped_migrated = self.dropped_migrated.wrapping_add(1);
    }

    /// The name of the site.
    pub fn name(&self) -> (r: &'static str)
        ensures
            r@ == self@.name,
    {
        self.name
    }

    /// Calls recorded.
    pub fn count(&self) -> (r: u64)
        ensures
            r == self@.count,
    {
        self.count
    }

    /// Their ticks together.
    pub fn sum_total(&self) -> (r: u64)
        ensures
            r == self@.sum_total,
    {
        self.sum_total
    }

    /// The same without measured calls within them.
    pub fn self_sum(&self) -> (r: u64)
        ensures
            r == self@.self_sum,
    {
        self.self_sum
    }

    /// The fewest ticks of a call.
    pub fn min(&self) -> (r: u64)
        ensures
            r == self@.min,
    {
        self.min
    }

    /// The most ticks of a call.
    pub fn max(&self) -> (r: u64)
        ensures
            r == self@.max,
    {
        self.max
    }

    /// Calls left out because they changed cores.
    pub fn dropped_migrated(&self) -> (r: u64)
        ensures
            r == self@.dropped_migrated,
    {
        self.dropped_migrated
    }

    /// Number of samples in the histogram.
    pub fn histogram_total(&self) -> (r: u128)
        requires
            site_wf(self@),
        ensures
            r == bucket_sum(self@.buckets, NUM_BUCKETS as int),
    {
        let mut sum: u128 = 0;
        for i in 0..NUM_BUCKETS
            invariant
                site_wf(self@),
                sum == bucket_sum(self@.buckets, i as int),
                sum <= i * u64::MAX,
        {
            sum = sum + self.buckets[i] as u128;
        }
        sum
    }

    /// The bounds of the bucket in which the sample of the given rank lies, counted from the
    /// smallest; those of the last bucket where there are fewer samples.
    pub fn bucket_of_rank(&self, rank: u64) -> (r: (u64, u64))
        requires
            site_wf(self@),
        ensures
            r == bounds_of(rank_bucket(self@.buckets, 0, 0, rank)),
    {
        let mut seen: u128 = 0;
        let mut k: usize = NUM_BUCKETS - 1;
        for i in 0..NUM_BUCKETS
            invariant
                site_wf(self@),
                k == NUM_BUCKETS - 1,
                seen <= i * u64::MAX,
                rank_bucket(self@.buckets, 0, 0, rank) == rank_bucket(
                    self@.buckets,
                    i as int,
                    seen as nat,
                    rank,
                ),
        {
            seen = seen + self.buckets[i] as u128;
            if seen >= rank as u128 {
                return bucket_bounds(i);
            }
        }
        bucket_bounds(k)
    }

    /// The latest samples, oldest first.
    pub fn recent_samples(&self) -> (r: Vec<u64>)
        requires
            site_wf(self@),
        ensures
            r@ == recent(self@),
    {
        let n: usize = if self.count < RING_LEN as u64 {
            self.count as usize
        } else {
            RING_LEN
        };
        let start: usize = if self.ring_next >= RING_LEN {
            self.ring_next % RING_LEN
        } else {
            0
        };
        let mut r: Vec<u64> = Vec::new();
        for i in 0..n
            invariant
                site_wf(self@),
                n <= RING_LEN,
                start < RING_LEN,
                r@.len() == i,
                forall|j: int|
                    0 <= j < i ==> #[trigger] r@[j] == self@.ring[(start + j) % RING_LEN as int],
        {
            r.push(self.ring[(start + i) % RING_LEN]);
        }
        assert(r@ =~= recent(self@));
        r
    }
}

/// The samples of the first `n` buckets.
pub open spec fn bucket_sum(buckets: Seq<u64>, n: int) -> nat
    decreases n,
{
    if n <= 0 {
        0
    } else {
        bucket_sum(buckets, n - 1) + buckets[n - 1] as nat
    }
}

fn bucket_bounds(i: usize) -> (r: (u64, u64))
    requires
        i < NUM_BUCKETS,
    ensures
        r == bounds_of(i as int),
{
    let upper: u64 = if i + 1 < 64 {
        1u64 << ((i + 1) as u64)
    } else {
        u64::MAX
    };
    (1u64 << (i as u64), upper)
}

// ---------------------------------------------------------------------------
// The end of a call
// ---------------------------------------------------------------------------

/// Two readings of the time-stamp counter, with the core of each.
#[derive(Clone, Copy, PartialEq, Eq, Structural, Debug)]
pub struct Reading {
    pub start: u64,
    pub start_core: u32,
    pub end: u64,
    pub end_core: u32,
}

/// The ticks between two readings; none where they are out of order.
pub open spec fn span_of(r: Reading) -> u64 {
    self_time(r.end, r.start)
}

/// The ticks that measured calls within the innermost call took.
pub open spec fn inner_ticks(stack: Seq<u64>) -> u64 {
    if stack.len() > 0 {
        stack.last()
    } else {
        0
    }
}

/// The calls around the innermost one.
pub open spec fn around(stack: Seq<u64>) -> Seq<u64> {
    if stack.len() > 0 {
        stack.drop_last()
    } else {
        stack
    }
}

/// What was measured of a function after the innermost call, one of that function, ended. A call
/// that changed cores is only noted: its span means nothing.
pub open spec fn site_after(s: SiteModel, stack: Seq<u64>, r: Reading) -> SiteModel {
    if r.start_core == r.end_core {
        recorded(s, span_of(r), inner_ticks(stack))
    } else {
        dropped(s)
    }
}

/// The calls under way after the innermost one ended. Its ticks go to the call around it, also where
/// it changed cores: with none at all they would count as that call's own time.
pub open spec fn frames_after(stack: Seq<u64>, r: Reading) -> Seq<u64> {
    after_call(around(stack), span_of(r))
}

/// The innermost measured call, one of the function of `site`, ends. `r` holds the readings at its
/// beginning and its end.
pub fn end_call(site: &mut Site, frames: &mut Frames, r: &Reading)
    requires
        site_wf(old(site)@),
        inner_ticks(around(old(frames).stack@)) + span_of(*r) <= u64::MAX,
    ensures
        final(site)@ == site_after(old(site)@, old(frames).stack@, *r),
        site_wf(final(site)@),
        final(frames).stack@ == frames_after(old(frames).stack@, *r),
{
    let child: u64 = pop_frame(frames);
    let total: u64 = r.end.saturating_sub(r.start);
    assert(frames.stack@ =~= around(old(frames).stack@));
    if r.start_core != r.end_core {
        site.record_dropped_migration();
    } else {
        site.record(total, child);
    }
    add_to_parent(frames, total);
}

// ---------------------------------------------------------------------------
// Calibration
// ---------------------------------------------------------------------------

/// Whether two readings can be compared: they are of one core, and in order.
pub open spec fn comparable(r: Reading) -> bool {
    r.start_core == r.end_core && r.end >= r.start
}

/// The spans of the readings that can be compared.
pub open spec fn spans(rs: Seq<Reading>) -> Seq<u64>
    decreases rs.len(),
{
    if rs.len() == 0 {
        seq![]
    } else if comparable(rs.last()) {
        spans(rs.drop_last()).push((rs.last().end - rs.last().start) as u64)
    } else {
        spans(rs.drop_last())
    }
}

/// The least of some spans.
pub open spec fn least(s: Seq<u64>) -> u64
    decreases s.len(),
{
    if s.len() == 0 {
        u64::MAX
    } else if s.last() < least(s.drop_last()) {
        s.last()
    } else {
        least(s.drop_last())
    }
}

/// The sum of some spans.
pub open spec fn span_sum(s: Seq<u64>) -> nat
    decreases s.len(),
{
    if s.len() == 0 {
        0
    } else {
        span_sum(s.drop_last()) + s.last() as nat
    }
}

/// What measuring itself costs: the least and the mean span between two readings.
pub fn calibrate(readings: &[Reading]) -> (r: (u64, u64))
    ensures
        r.0 == least(spans(readings@)),
        r.1 == if spans(readings@).len() == 0 {
            0
        } else {
            span_sum(spans(readings@)) / spans(readings@).len()
        },
{
    let mut min: u64 = u64::MAX;
    let mut sum: u128 = 0;
    let mut n: u64 = 0;
    let ghost mut ss: Seq<u64> = seq![];
    for i in 0..readings.len()
        invariant
            ss == spans(readings@.take(i as int)),
            min == least(ss),
            sum == span_sum(ss),
            n == ss.len(),
            n <= i,
            sum <= n * u64::MAX,
    {
        let x = readings[i];
        assert(readings@.take(i + 1).drop_last() =~= readings@.take(i as int));
        if x.start_core == x.end_core && x.end >= x.start {
            let d: u64 = x.end - x.start;
            if d < min {
                min = d;
            }
            assert(n * u64::MAX <= usize::MAX * u64::MAX) by (nonlinear_arith)
                requires
                    n <= usize::MAX,
            ;
            assert((n + 1) * u64::MAX == n * u64::MAX + u64::MAX) by (nonlinear_arith);
            sum = sum + d as u128;
            n = n + 1;
            proof {
                assert(ss.push(d).drop_last() =~= ss);
                ss = ss.push(d);
            }
        }
    }
    assert(readings@.take(readings@.len() as int) =~= readings@);
    if n == 0 {
        return (min, 0);
    }
    assert(sum / n as u128 <= u64::MAX) by (nonlinear_arith)
        requires
            sum <= n * u64::MAX,
            n > 0,
    ;
    (min, (sum / n as u128) as u64)
}

// ---------------------------------------------------------------------------
// Laws
// ---------------------------------------------------------------------------

/// Whether a site holds what a history of calls left: their number, and the latest of them.
pub open spec fn follows(s: SiteModel, history: Seq<u64>) -> bool {
    &&& site_wf(s)
    &&& history.len() < usize::MAX
    &&& s.count == history.len()
    &&& s.ring_next == history.len()
    &&& forall|i: int|
        0 <= i < history.len() && history.len() - RING_LEN <= i ==> s.ring[i % RING_LEN as int]
            == #[trigger] history[i]
}

/// A site holds the latest calls of its history, whatever their number, and one more call makes it
/// hold that of the longer history.
pub proof fn law_samples_are_the_latest(s: SiteModel, history: Seq<u64>, total: u64, child: u64)
    requires
        follows(s, history),
        history.len() + 1 < usize::MAX,
    ensures
        follows(recorded(s, total, child), history.push(total)),
        recent(s) == history.skip(
            if history.len() < RING_LEN {
                0
            } else {
                history.len() - RING_LEN
            },
        ),
{
    let n = history.len() as int;
    let len = RING_LEN as int;
    let h = history.push(total);
    let t = recorded(s, total, child);
    assert forall|i: int| 0 <= i < h.len() && h.len() - len <= i implies t.ring[i % len]
        == #[trigger] h[i] by {
        if i < n {
            assert(s.ring[i % len] == history[i]);
            assert(i % len != n % len) by (nonlinear_arith)
                requires
                    n - len < i < n,
                    0 <= i,
                    len == 1024,
            ;
        }
    }
    let start = if n >= len {
        n % len
    } else {
        0
    };
    let from = if n < len {
        0
    } else {
        n - len
    };
    assert forall|i: int| 0 <= i < recent(s).len() implies recent(s)[i] == history.skip(from)[i] by {
        assert((start + i) % len == (from + i) % len) by (nonlinear_arith)
            requires
                0 <= i < len,
                n >= len ==> start == n % len && from == n - len,
                n < len ==> start == 0 && from == 0,
                len == 1024,
                n >= 0,
        ;
        assert(s.ring[(from + i) % len] == history[from + i]);
    }
    assert(recent(s) =~= history.skip(from));
}

/// A site that has measured nothing has no history.
pub proof fn law_fresh_site_has_no_history(name: Seq<char>)
    ensures
        follows(fresh_site(name), Seq::<u64>::empty()),
        recent(fresh_site(name)) == Seq::<u64>::empty(),
{
    assert(recent(fresh_site(name)) =~= Seq::<u64>::empty());
}

/// The calls under way after several within the innermost of them ended, one after the other.
pub open spec fn after_calls(stack: Seq<u64>, calls: Seq<u64>) -> Seq<u64>
    decreases calls.len(),
{
    if calls.len() == 0 {
        stack
    } else {
        after_call(after_calls(stack, calls.drop_last()), calls.last())
    }
}

/// The ticks of several calls together.
pub open spec fn ticks(calls: Seq<u64>) -> nat
    decreases calls.len(),
{
    if calls.len() == 0 {
        0
    } else {
        ticks(calls.drop_last()) + calls.last() as nat
    }
}

/// A call that ends learns the ticks of all measured calls directly within it, each counted once,
/// and the calls around it have not changed.
pub proof fn law_inner_calls_are_counted_once(stack: Seq<u64>, calls: Seq<u64>)
    requires
        ticks(calls) <= u64::MAX,
    ensures
        after_calls(stack.push(0), calls) == stack.push(ticks(calls) as u64),
    decreases calls.len(),
{
    if calls.len() > 0 {
        law_inner_calls_are_counted_once(stack, calls.drop_last());
        assert(after_calls(stack.push(0), calls) =~= stack.push(ticks(calls) as u64));
    }
}

/// A call that changed cores leaves the statistics of its function alone, but the calls around it
/// see the same ticks as if it had not.
pub proof fn law_migrated_call_still_counts_around(
    s: SiteModel,
    stack: Seq<u64>,
    r: Reading,
    core: u32,
)
    requires
        r.start_core != r.end_core,
    ensures
        ({
            let stayed = Reading { start_core: core, end_core: core, ..r };
            let t = site_after(s, stack, r);
            &&& frames_after(stack, r) == frames_after(stack, stayed)
            &&& t == (SiteModel { dropped_migrated: t.dropped_migrated, ..s })
            &&& s.dropped_migrated < u64::MAX ==> t.dropped_migrated == s.dropped_migrated + 1
        }),
{
}

/// What a call spends by itself and what measured calls directly within it spend make up its span,
/// whether or not those changed cores.
pub proof fn law_self_time_leaves_out_inner_calls(
    s: SiteModel,
    stack: Seq<u64>,
    inner: Seq<Reading>,
    r: Reading,
)
    requires
        r.start_core == r.end_core,
        ticks(call_spans(inner)) <= span_of(r),
    ensures
        site_after(s, frames_after_all(stack.push(0), inner), r) == recorded(
            s,
            span_of(r),
            ticks(call_spans(inner)) as u64,
        ),
        self_time(span_of(r), ticks(call_spans(inner)) as u64) + ticks(call_spans(inner))
            == span_of(r),
{
    let calls = call_spans(inner);
    lemma_frames_after_all(stack.push(0), inner);
    law_inner_calls_are_counted_once(stack, calls);
    assert(after_calls(stack.push(0), calls).last() == ticks(calls) as u64);
}

/// The spans of some calls.
pub open spec fn call_spans(rs: Seq<Reading>) -> Seq<u64> {
    Seq::new(rs.len(), |i: int| span_of(rs[i]))
}

/// The calls under way after several measured calls within the innermost began and ended, one after
/// the other.
pub open spec fn frames_after_all(stack: Seq<u64>, inner: Seq<Reading>) -> Seq<u64>
    decreases inner.len(),
{
    if inner.len() == 0 {
        stack
    } else {
        frames_after(frames_after_all(stack, inner.drop_last()).push(0), inner.last())
    }
}

proof fn lemma_frames_after_all(stack: Seq<u64>, inner: Seq<Reading>)
    ensures
        frames_after_all(stack, inner) == after_calls(stack, call_spans(inner)),
    decreases inner.len(),
{
    if inner.len() > 0 {
        let before = frames_after_all(stack, inner.drop_last());
        lemma_frames_after_all(stack, inner.drop_last());
        assert(call_spans(inner).drop_last() =~= call_spans(inner.drop_last()));
        assert(around(before.push(0)) =~= before);
    }
}

proof fn lemma_log2(n: nat)
    requires
        n > 0,
    ensures
        pow2(log2(n)) <= n < pow2(log2(n) + 1),
    decreases n,
{
    lemma2_to64();
    if n > 1 {
        lemma_log2(n / 2);
        lemma_pow2_unfold(log2(n));
        lemma_pow2_unfold(log2(n) + 1);
    }
}

/// A sample lies within its bucket, which begins at a power of two and ends before the next.
pub proof fn law_sample_lies_in_its_bucket(total: u64)
    requires
        total > 0,
    ensures
        0 <= bucket_of(total) < NUM_BUCKETS,
        pow2(bucket_of(total) as nat) <= total < pow2((bucket_of(total) + 1) as nat),
{
    lemma_log2(total as nat);
    if log2(total as nat) >= NUM_BUCKETS {
        lemma2_to64();
        if log2(total as nat) > 64 {
            lemma_pow2_strictly_increases(64, log2(total as nat));
        }
    }
}

} // verus!
