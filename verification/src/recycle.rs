//! When a worker ends to make room for a fresh one.

use vstd::prelude::*;

use crate::balancer::random_below;
use crate::jwt::NANOS;

verus! {

/// Why a worker ends.
#[derive(Clone, Copy, PartialEq, Eq, Structural, Debug)]
pub enum Reason {
    Lifetime,
    MaxRequests,
}

/// Whether workers end at all before they are told to.
pub fn recycles(lifetime: Option<u64>, max_requests: Option<u64>) -> (r: bool)
    ensures
        r == (lifetime is Some || max_requests is Some),
{
    lifetime.is_some() || max_requests.is_some()
}

/// A chance addition to a lifetime, so that workers do not all end at once: up to a quarter of it,
/// in seconds.
pub fn jitter(lifetime: u64) -> (r: u64)
    ensures
        r <= lifetime / 4,
{
    if lifetime >= 4 {
        random_below(lifetime / 4 + 1)
    } else {
        0
    }
}

/// When a worker's lifetime is over, in nanoseconds, counted from `now`.
pub open spec fn end_of(lifetime: u64, jitter: u64, now: u64) -> int {
    now + (lifetime + jitter) * NANOS
}

/// When a worker's lifetime is over, in nanoseconds, counted from `now`.
pub fn deadline(lifetime: u64, jitter: u64, now: u64) -> (r: u128)
    ensures
        r == end_of(lifetime, jitter, now),
{
    assert(0 <= (lifetime + jitter) * NANOS <= (u64::MAX + u64::MAX) * NANOS) by (nonlinear_arith)
        requires
            0 <= lifetime <= u64::MAX,
            0 <= jitter <= u64::MAX,
            NANOS == 1_000_000_000,
    ;
    now as u128 + (lifetime as u128 + jitter as u128) * NANOS as u128
}

/// Whether a worker is to end, and why: its time is over, or it has served enough. The time comes
/// first.
pub open spec fn ends(
    deadline: Option<u128>,
    max_requests: Option<u64>,
    served: u64,
    now: u64,
) -> Option<Reason> {
    if deadline matches Some(d) && now >= d {
        Some(Reason::Lifetime)
    } else if max_requests matches Some(m) && served >= m {
        Some(Reason::MaxRequests)
    } else {
        None
    }
}

/// Whether a worker is to end, and why.
pub fn due(deadline: Option<u128>, max_requests: Option<u64>, served: u64, now: u64) -> (r: Option<
    Reason,
>)
    ensures
        r == ends(deadline, max_requests, served, now),
{
    if let Some(d) = deadline {
        if now as u128 >= d {
            return Some(Reason::Lifetime);
        }
    }
    if let Some(m) = max_requests {
        if served >= m {
            return Some(Reason::MaxRequests);
        }
    }
    None
}

impl Reason {
    /// The reason as it is logged.
    pub fn text(self) -> (r: &'static str)
        ensures
            r@ == match self {
                Reason::Lifetime => "lifetime"@,
                Reason::MaxRequests => "max_requests"@,
            },
    {
        match self {
            Reason::Lifetime => "lifetime",
            Reason::MaxRequests => "max_requests",
        }
    }
}

/// Whether a worker that is to end may do so: no request is under way, or it has waited long enough
/// for those that are.
pub fn drained(active: usize, now: u64, drain_deadline: u128) -> (r: bool)
    ensures
        r == (active == 0 || now >= drain_deadline),
{
    active == 0 || now as u128 >= drain_deadline
}

/// A worker that has served no more than it may lives at least as long as it is meant to, and any
/// worker at most a quarter longer.
pub proof fn law_lifetime_is_kept(
    lifetime: u64,
    added: u64,
    start: u64,
    deadline: u128,
    max_requests: Option<u64>,
    served: u64,
    now: u64,
)
    requires
        added <= lifetime / 4,
        deadline == end_of(lifetime, added, start),
    ensures
        now < start + lifetime * NANOS && (max_requests matches Some(m) ==> served < m) ==> ends(
            Some(deadline),
            max_requests,
            served,
            now,
        ) is None,
        now >= start + (lifetime + lifetime / 4) * NANOS ==> ends(
            Some(deadline),
            max_requests,
            served,
            now,
        ) == Some(Reason::Lifetime),
{
    assert(lifetime * NANOS <= (lifetime + added) * NANOS <= (lifetime + lifetime / 4) * NANOS)
        by (nonlinear_arith)
        requires
            0 <= added <= lifetime / 4,
            NANOS == 1_000_000_000,
    ;
}

/// A worker with a budget of requests ends once it has served them.
pub proof fn law_request_budget_is_kept(
    deadline: Option<u128>,
    max_requests: u64,
    served: u64,
    now: u64,
)
    requires
        served >= max_requests,
    ensures
        ends(deadline, Some(max_requests), served, now) is Some,
{
}

} // verus!
