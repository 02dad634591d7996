//! Rate limits, buffers, the end of workers, and the cost of calls.

use rproxy::buf_pool::{get_buf, put_buf, recycle, BufPool, PooledBuf, BUF_SIZE};
use rproxy::cycles::{
    add_to_parent, calibrate, end_call, pop_frame, push_frame, Frames, Reading, Site, RING_LEN,
};
use rproxy::net::IpAddr;
use rproxy::rate::RateLimiter;
use rproxy::recycle::{deadline, drained, due, jitter, recycles, Reason};

#[test]
fn a_second_lets_through_as_many_requests_as_the_limit_says() {
    let mut l = RateLimiter::new();
    let ip = IpAddr::v4(10, 0, 0, 1);
    assert!(l.allow(1, &ip, 2, 100));
    assert!(l.allow(1, &ip, 2, 100));
    assert!(!l.allow(1, &ip, 2, 100));
    assert!(!l.allow(1, &ip, 2, 100));
    assert!(l.allow(1, &ip, 2, 101));
    assert!(!l.allow(1, &ip, 0, 102));
}

#[test]
fn clients_and_routes_are_counted_apart() {
    let mut l = RateLimiter::new();
    let a = IpAddr::v4(10, 0, 0, 1);
    let b = IpAddr::v4(10, 0, 0, 2);
    let c = IpAddr::V6(0x0a00_0001);
    assert!(l.allow(1, &a, 1, 5));
    assert!(!l.allow(1, &a, 1, 5));
    assert!(l.allow(1, &b, 1, 5));
    assert!(l.allow(1, &c, 1, 5));
    assert!(l.allow(2, &a, 1, 5));
    assert!(l.allow(11, &IpAddr::v4(0, 0, 0, 1), 1, 5));
    assert!(l.allow(1, &IpAddr::V6(1 << 64), 1, 5));
    assert!(l.allow(1, &IpAddr::V6(1), 1, 5));
}

#[test]
fn too_many_counters_start_anew() {
    let mut l = RateLimiter::new();
    let ip = IpAddr::v4(1, 2, 3, 4);
    assert!(l.allow(0, &ip, 1, 5));
    for r in 1..100_001usize {
        assert!(l.allow(r, &ip, 1, 5));
    }
    assert!(l.allow(0, &ip, 1, 5));
    assert!(!l.allow(0, &ip, 1, 5));
}

#[test]
fn borrowed_buffers_are_blank() {
    let mut pool = BufPool::new();
    let mut a = get_buf(&mut pool);
    assert_eq!(a, vec![0u8; BUF_SIZE]);
    a[0] = 7;
    a.truncate(3);
    put_buf(&mut pool, a);
    assert_eq!(get_buf(&mut pool), vec![0u8; BUF_SIZE]);
}

#[test]
fn small_buffers_are_given_up() {
    let mut pool = BufPool::new();
    recycle(&mut pool, vec![1, 2, 3], 3);
    recycle(&mut pool, vec![1, 2, 3], BUF_SIZE);
    let held = PooledBuf::new(&mut pool);
    held.release(&mut pool);
    let mut g = PooledBuf::new(&mut pool);
    let b = g.take(&mut pool);
    assert_eq!(b.len(), BUF_SIZE);
    let other = g.take(&mut pool);
    assert_eq!(other.len(), BUF_SIZE);
    g.put(b);
    g.release(&mut pool);
}

#[test]
fn workers_end_by_time_or_by_requests() {
    assert!(!recycles(None, None));
    assert!(recycles(Some(1), None));
    assert!(recycles(None, Some(1)));
    assert_eq!(jitter(3), 0);
    for _ in 0..50 {
        assert!(jitter(100) <= 25);
    }
    assert_eq!(deadline(10, 2, 5), 5 + 12_000_000_000);
    assert_eq!(due(Some(100), Some(10), 10, 100), Some(Reason::Lifetime));
    assert_eq!(due(Some(100), Some(10), 10, 99), Some(Reason::MaxRequests));
    assert_eq!(due(Some(100), Some(10), 9, 99), None);
    assert_eq!(due(None, None, u64::MAX, u64::MAX), None);
    assert_eq!(Reason::Lifetime.text(), "lifetime");
    assert_eq!(Reason::MaxRequests.text(), "max_requests");
    assert!(drained(0, 0, 100));
    assert!(!drained(1, 99, 100));
    assert!(drained(1, 100, 100));
}

#[test]
fn self_time_leaves_out_measured_calls() {
    let mut f = Frames::new();
    push_frame(&mut f);
    push_frame(&mut f);
    assert_eq!(pop_frame(&mut f), 0);
    add_to_parent(&mut f, 30);
    add_to_parent(&mut f, 12);
    let child = pop_frame(&mut f);
    assert_eq!(child, 42);
    add_to_parent(&mut f, 1);
    assert_eq!(pop_frame(&mut f), 0);
    let mut s = Site::new("f");
    s.record(100, child);
    s.record(10, 20);
    s.record_dropped_migration();
    assert_eq!(s.name(), "f");
    assert_eq!(s.count(), 2);
    assert_eq!(s.sum_total(), 110);
    assert_eq!(s.self_sum(), 58);
    assert_eq!(s.min(), 10);
    assert_eq!(s.max(), 100);
    assert_eq!(s.dropped_migrated(), 1);
}

#[test]
fn migrated_call_still_counts_for_the_call_around_it() {
    let r = |start: u64, start_core: u32, end: u64, end_core: u32| Reading {
        start,
        start_core,
        end,
        end_core,
    };
    let mut f = Frames::new();
    let mut inner = Site::new("inner");
    let mut outer = Site::new("outer");
    push_frame(&mut f);
    push_frame(&mut f);
    end_call(&mut inner, &mut f, &r(100, 1, 130, 1));
    assert_eq!(f.stack, vec![30]);
    push_frame(&mut f);
    end_call(&mut inner, &mut f, &r(130, 1, 142, 2));
    assert_eq!(f.stack, vec![42]);
    push_frame(&mut f);
    end_call(&mut inner, &mut f, &r(9, 2, 3, 2));
    assert_eq!(f.stack, vec![42]);
    end_call(&mut outer, &mut f, &r(90, 1, 190, 1));
    assert!(f.stack.is_empty());
    assert_eq!(inner.count(), 2);
    assert_eq!(inner.sum_total(), 30);
    assert_eq!(inner.dropped_migrated(), 1);
    assert_eq!(inner.recent_samples(), vec![30, 0]);
    assert_eq!(outer.count(), 1);
    assert_eq!(outer.sum_total(), 100);
    assert_eq!(outer.self_sum(), 58);
    assert_eq!(outer.dropped_migrated(), 0);
    end_call(&mut outer, &mut f, &r(0, 0, 5, 0));
    assert!(f.stack.is_empty());
    assert_eq!(outer.self_sum(), 63);
}

#[test]
fn histogram_has_a_bucket_for_each_power_of_two() {
    let mut s = Site::new("f");
    for v in [0u64, 1, 2, 3, 4, 7, 8, u64::MAX] {
        s.record(v, 0);
    }
    assert_eq!(s.histogram_total(), 8);
    assert_eq!(s.bucket_of_rank(1), (1, 2));
    assert_eq!(s.bucket_of_rank(2), (1, 2));
    assert_eq!(s.bucket_of_rank(3), (2, 4));
    assert_eq!(s.bucket_of_rank(6), (4, 8));
    assert_eq!(s.bucket_of_rank(7), (8, 16));
    assert_eq!(s.bucket_of_rank(8), (1 << 63, u64::MAX));
    assert_eq!(s.bucket_of_rank(9), (1 << 63, u64::MAX));
}

#[test]
fn latest_samples_are_kept_in_order() {
    let mut s = Site::new("f");
    assert!(s.recent_samples().is_empty());
    for v in 0..5u64 {
        s.record(v, 0);
    }
    assert_eq!(s.recent_samples(), vec![0, 1, 2, 3, 4]);
    for v in 5..(RING_LEN as u64 + 3) {
        s.record(v, 0);
    }
    let recent = s.recent_samples();
    assert_eq!(recent.len(), RING_LEN);
    assert_eq!(recent[0], 3);
    assert_eq!(recent[RING_LEN - 1], RING_LEN as u64 + 2);
}

#[test]
fn calibration_leaves_out_what_cannot_be_compared() {
    let r = |start: u64, start_core: u32, end: u64, end_core: u32| Reading {
        start,
        start_core,
        end,
        end_core,
    };
    assert_eq!(calibrate(&[]), (u64::MAX, 0));
    let rs = [r(10, 0, 30, 0), r(30, 0, 40, 0), r(0, 0, 1, 1), r(9, 2, 3, 2)];
    assert_eq!(calibrate(&rs), (10, 15));
}
