//! Choosing a backend.

use rproxy::balancer::{BalancerState, Fnv1aHasher};
use rproxy::config::{Backend, BackendList, Balance};
use rproxy::net::IpAddr;
use rproxy::shared::{SharedMemory, SharedState};

fn make_backend(shm: &mut SharedMemory, id: usize, up: bool, weight: u32) -> Backend {
    let b = Backend {
        id,
        host: format!("host{}", id),
        port: 8080 + id as u16,
        addr: format!("127.0.0.1:{}", 8080 + id),
        weight,
        connect_to: 5,
        response_to: 10,
        tls: false,
        tls_skip_verify: false,
        state: shm.get_state(id),
    };
    if !up {
        b.state.set_up(shm, false);
    }
    b
}

fn set_active_conns(shm: &mut SharedMemory, state: &SharedState, n: usize) {
    for _ in 0..n {
        state.inc_conn(shm);
    }
}

fn make_balancer_with_balance(backends: Vec<Backend>, balance: Balance) -> BalancerState {
    BalancerState::new(BackendList { balance, backends })
}

fn run_selection(
    balance: Balance,
    ups: &[bool],
    weights: &[u32],
    skips: &[usize],
    count: usize,
) -> Vec<usize> {
    let mut shm = SharedMemory::new(16);
    let mut backends = Vec::new();
    for (i, (&up, &weight)) in ups.iter().zip(weights).enumerate() {
        backends.push(make_backend(&mut shm, i, up, weight));
    }
    let mut state = BalancerState::new(BackendList { balance, backends });
    let mut results = Vec::new();
    let ip = IpAddr::v4(192, 168, 0, 1);
    for i in 0..count {
        let path = format!("/path/{}", i);
        if let Some(b) = state.select_backend(&ip, &path, skips, &shm) {
            results.push(b.id);
        }
    }
    results
}

#[test]
fn test_fnv1a_golden_vectors_pin_affinity() {
    let golden = |bytes: &[u8]| {
        let mut h = Fnv1aHasher::new();
        h.write(bytes);
        h.finish()
    };
    assert_eq!(golden(b""), 0xcbf2_9ce4_8422_2325);
    assert_eq!(golden(b"a"), 0xaf63_dc4c_8601_ec8c);
    assert_eq!(golden(b"abc"), 0xe71f_a219_0541_574b);
    assert_eq!(golden(b"/api/users/42"), 0xfca7_db6b_4d10_164c);
}

#[test]
fn test_roundrobin() {
    let res = run_selection(Balance::RoundRobin, &[true, true, true], &[1, 1, 1], &[], 5);
    assert_eq!(res, vec![0, 1, 2, 0, 1]);

    let res = run_selection(
        Balance::RoundRobin,
        &[true, false, true],
        &[1, 1, 1],
        &[],
        5,
    );
    assert_eq!(res, vec![0, 2, 0, 2, 0]);

    let res = run_selection(
        Balance::RoundRobin,
        &[true, true, true],
        &[1, 1, 1],
        &[0],
        5,
    );
    assert_eq!(res, vec![1, 2, 1, 2, 1]);
}

#[test]
fn test_first() {
    let res = run_selection(Balance::First, &[true, true, true], &[1, 1, 1], &[], 3);
    assert_eq!(res, vec![0, 0, 0]);

    let res = run_selection(Balance::First, &[false, true, true], &[1, 1, 1], &[], 3);
    assert_eq!(res, vec![1, 1, 1]);

    let res = run_selection(Balance::First, &[true, true, true], &[1, 1, 1], &[0], 3);
    assert_eq!(res, vec![1, 1, 1]);
}

#[test]
fn test_leastconn() {
    let mut shm = SharedMemory::new(16);
    let b0 = make_backend(&mut shm, 0, true, 1);
    let b1 = make_backend(&mut shm, 1, true, 1);
    let b2 = make_backend(&mut shm, 2, true, 1);
    b0.state.inc_conn(&mut shm);
    b0.state.inc_conn(&mut shm);
    b1.state.inc_conn(&mut shm);

    let bl = BackendList {
        balance: Balance::Leastconn,
        backends: vec![b0, b1, b2],
    };
    let mut state = BalancerState::new(bl);
    let ip = IpAddr::v4(127, 0, 0, 1);

    let selected = state.select_backend(&ip, "/", &[], &shm).unwrap();
    assert_eq!(selected.id, 2);
}

#[test]
fn test_weighted() {
    let res = run_selection(Balance::Weighted, &[true, true], &[0, 0], &[], 3);
    assert_eq!(res, vec![0, 0, 0]);
}

#[test]
fn test_iphash() {
    let res = run_selection(
        Balance::Iphash,
        &[true, true, true, true],
        &[1, 1, 1, 1],
        &[],
        5,
    );
    let id = res[0];
    assert_eq!(res, vec![id, id, id, id, id]);

    let mut ups = vec![true, true, true, true];
    ups[id] = false;
    let res2 = run_selection(Balance::Iphash, &ups, &[1, 1, 1, 1], &[], 5);
    let id2 = res2[0];
    assert_ne!(id, id2);
    assert_eq!(res2, vec![id2, id2, id2, id2, id2]);
}

#[test]
fn test_urlhash() {
    let mut shm = SharedMemory::new(16);
    let b0 = make_backend(&mut shm, 0, true, 1);
    let b1 = make_backend(&mut shm, 1, true, 1);
    let bl = BackendList {
        balance: Balance::Urlhash,
        backends: vec![b0, b1],
    };
    let mut state = BalancerState::new(bl);
    let ip = IpAddr::v4(127, 0, 0, 1);

    let id_a1 = state.select_backend(&ip, "/a", &[], &shm).unwrap().id;
    let id_a2 = state.select_backend(&ip, "/a", &[], &shm).unwrap().id;
    assert_eq!(id_a1, id_a2);
}

#[test]
fn test_all_down() {
    let res = run_selection(Balance::RoundRobin, &[false, false], &[1, 1], &[], 1);
    assert!(res.is_empty());
}

#[test]
fn test_all_skipped() {
    let res = run_selection(Balance::Random, &[true, true], &[1, 1], &[0, 1], 1);
    assert!(res.is_empty());
}

#[test]
fn rr_distributes_evenly_across_backends() {
    let mut shm = SharedMemory::new(16);
    let backends = vec![
        make_backend(&mut shm, 0, true, 1),
        make_backend(&mut shm, 1, true, 1),
        make_backend(&mut shm, 2, true, 1),
    ];
    let mut balancer = make_balancer_with_balance(backends, Balance::RoundRobin);
    let ip = IpAddr::v4(192, 168, 0, 1);

    let mut counts = [0usize; 3];
    for _ in 0..30 {
        if let Some(b) = balancer.select_backend(&ip, "/path", &[], &shm) {
            counts[b.id] += 1;
        }
    }
    for (i, &c) in counts.iter().enumerate() {
        assert!(
            (8..=12).contains(&c),
            "backend {} got {} selections, expected ~10",
            i,
            c
        );
    }
}

#[test]
fn rr_skips_down_backends() {
    let mut shm = SharedMemory::new(16);
    let backends = vec![
        make_backend(&mut shm, 0, true, 1),
        make_backend(&mut shm, 1, false, 1),
        make_backend(&mut shm, 2, true, 1),
    ];
    let mut balancer = make_balancer_with_balance(backends, Balance::RoundRobin);
    let ip = IpAddr::v4(192, 168, 0, 1);

    let mut selected_ids = Vec::new();
    for _ in 0..20 {
        if let Some(b) = balancer.select_backend(&ip, "/path", &[], &shm) {
            selected_ids.push(b.id);
        }
    }
    assert!(
        !selected_ids.contains(&1),
        "down backend should not be selected"
    );
    for &id in &selected_ids {
        assert!(id == 0 || id == 2);
    }
}

#[test]
fn rr_single_backend_returns_it() {
    let mut shm = SharedMemory::new(16);
    let backends = vec![make_backend(&mut shm, 0, true, 1)];
    let mut balancer = make_balancer_with_balance(backends, Balance::RoundRobin);
    let ip = IpAddr::v4(192, 168, 0, 1);

    for _ in 0..10 {
        let b = balancer.select_backend(&ip, "/path", &[], &shm);
        assert!(b.is_some());
        assert_eq!(b.unwrap().id, 0);
    }
}

#[test]
fn rr_all_down_returns_none() {
    let mut shm = SharedMemory::new(16);
    let backends = vec![make_backend(&mut shm, 0, false, 1), make_backend(&mut shm, 1, false, 1)];
    let mut balancer = make_balancer_with_balance(backends, Balance::RoundRobin);
    let ip = IpAddr::v4(192, 168, 0, 1);

    for _ in 0..5 {
        assert!(balancer.select_backend(&ip, "/path", &[], &shm).is_none());
    }
}


#[test]
fn leastconn_selects_fewest_active() {
    let mut shm = SharedMemory::new(16);
    let backends = vec![
        make_backend(&mut shm, 0, true, 1),
        make_backend(&mut shm, 1, true, 1),
        make_backend(&mut shm, 2, true, 1),
    ];
    set_active_conns(&mut shm, &backends[1].state, 100);
    set_active_conns(&mut shm, &backends[0].state, 5);
    set_active_conns(&mut shm, &backends[2].state, 3);

    let mut balancer = make_balancer_with_balance(backends, Balance::Leastconn);
    let ip = IpAddr::v4(192, 168, 0, 1);

    let b = balancer.select_backend(&ip, "/path", &[], &shm);
    assert!(b.is_some());
    assert_eq!(
        b.unwrap().id,
        2,
        "leastconn should pick backend with fewest active conns"
    );
}

#[test]
fn leastconn_ignores_down_backends() {
    let mut shm = SharedMemory::new(16);
    let backends = vec![
        make_backend(&mut shm, 0, true, 1),
        make_backend(&mut shm, 1, false, 1),
        make_backend(&mut shm, 2, true, 1),
    ];
    set_active_conns(&mut shm, &backends[0].state, 50);
    set_active_conns(&mut shm, &backends[2].state, 3);

    let mut balancer = make_balancer_with_balance(backends, Balance::Leastconn);
    let ip = IpAddr::v4(192, 168, 0, 1);

    let b = balancer.select_backend(&ip, "/path", &[], &shm);
    assert!(b.is_some());
    assert_eq!(b.unwrap().id, 2);
}


#[test]
fn iphash_stable_for_same_client() {
    let mut shm = SharedMemory::new(16);
    let backends = vec![
        make_backend(&mut shm, 0, true, 1),
        make_backend(&mut shm, 1, true, 1),
        make_backend(&mut shm, 2, true, 1),
    ];
    let mut balancer = make_balancer_with_balance(backends, Balance::Iphash);
    let ip = IpAddr::v4(192, 168, 1, 42);

    let first = balancer.select_backend(&ip, "/path", &[], &shm).map(|b| b.id);
    for _ in 0..50 {
        let next = balancer.select_backend(&ip, "/path", &[], &shm).map(|b| b.id);
        assert_eq!(next, first, "iphash should be stable for same client IP");
    }
}

#[test]
fn iphash_different_clients_differ() {
    let mut shm = SharedMemory::new(16);
    let backends = vec![
        make_backend(&mut shm, 0, true, 1),
        make_backend(&mut shm, 1, true, 1),
        make_backend(&mut shm, 2, true, 1),
    ];
    let mut balancer = make_balancer_with_balance(backends, Balance::Iphash);

    let mut seen = std::collections::HashSet::new();
    for i in 0..200u32 {
        let ip = IpAddr::v4(10, 0, (i / 256) as u8, (i % 256) as u8);
        if let Some(b) = balancer.select_backend(&ip, "/path", &[], &shm) {
            seen.insert(b.id);
        }
    }
    assert!(
        seen.len() >= 2,
        "200 distinct client IPs should spread across backends, saw {:?}",
        seen
    );
}

#[test]
fn iphash_backend_drop_remaps_only_affected() {
    let mut shm = SharedMemory::new(16);
    let backends = vec![
        make_backend(&mut shm, 0, true, 1),
        make_backend(&mut shm, 1, true, 1),
        make_backend(&mut shm, 2, true, 1),
        make_backend(&mut shm, 3, true, 1),
    ];
    let mut balancer = make_balancer_with_balance(backends.clone(), Balance::Iphash);
    let ip = IpAddr::v4(172, 16, 0, 99);

    let _before = balancer.select_backend(&ip, "/path", &[], &shm).map(|b| b.id);

    backends[0].state.set_up(&mut shm, false);
    let mut balancer2 = make_balancer_with_balance(backends, Balance::Iphash);
    let after = balancer2.select_backend(&ip, "/path", &[], &shm).map(|b| b.id);

    assert!(
        after.is_some(),
        "should still have a backend after dropping one"
    );
}


#[test]
fn urlhash_stable_for_same_path() {
    let mut shm = SharedMemory::new(16);
    let backends = vec![
        make_backend(&mut shm, 0, true, 1),
        make_backend(&mut shm, 1, true, 1),
        make_backend(&mut shm, 2, true, 1),
    ];
    let mut balancer = make_balancer_with_balance(backends, Balance::Urlhash);
    let ip = IpAddr::v4(192, 168, 0, 1);

    let first = balancer
        .select_backend(&ip, "/api/users/42", &[], &shm)
        .map(|b| b.id);
    for _ in 0..50 {
        let next = balancer
            .select_backend(&ip, "/api/users/42", &[], &shm)
            .map(|b| b.id);
        assert_eq!(next, first, "urlhash should be stable for same path");
    }
}

#[test]
fn urlhash_different_paths_differ() {
    let mut shm = SharedMemory::new(16);
    let backends = vec![
        make_backend(&mut shm, 0, true, 1),
        make_backend(&mut shm, 1, true, 1),
        make_backend(&mut shm, 2, true, 1),
    ];
    let mut balancer = make_balancer_with_balance(backends, Balance::Urlhash);
    let ip = IpAddr::v4(192, 168, 0, 1);

    let mut seen = std::collections::HashSet::new();
    for i in 0..200u32 {
        let path = format!("/api/users/{i}");
        if let Some(b) = balancer.select_backend(&ip, &path, &[], &shm) {
            seen.insert(b.id);
        }
    }
    assert!(
        seen.len() >= 2,
        "200 distinct paths should spread across backends, saw {:?}",
        seen
    );
}


#[test]
fn weighted_distributes_proportional_to_weight() {
    let mut shm = SharedMemory::new(16);
    let backends = vec![make_backend(&mut shm, 0, true, 3), make_backend(&mut shm, 1, true, 1)];
    let mut balancer = make_balancer_with_balance(backends, Balance::Weighted);
    let ip = IpAddr::v4(192, 168, 0, 1);

    let mut counts = [0usize, 0usize];
    for _ in 0..400 {
        if let Some(b) = balancer.select_backend(&ip, "/path", &[], &shm) {
            counts[b.id] += 1;
        }
    }
    assert!(
        counts[0] > counts[1],
        "weighted: backend 0 (weight=3) should get more than backend 1 (weight=1)"
    );
    let ratio = counts[0] as f64 / counts[1] as f64;
    assert!(
        (2.0..=4.0).contains(&ratio),
        "weighted ratio should be ~3:1, got {:.2}:1",
        ratio
    );
}


#[test]
fn skip_ids_excludes_specific_backends() {
    let mut shm = SharedMemory::new(16);
    let backends = vec![
        make_backend(&mut shm, 0, true, 1),
        make_backend(&mut shm, 1, true, 1),
        make_backend(&mut shm, 2, true, 1),
    ];
    let mut balancer = make_balancer_with_balance(backends, Balance::RoundRobin);
    let ip = IpAddr::v4(192, 168, 0, 1);

    for _ in 0..30 {
        let b = balancer.select_backend(&ip, "/path", &[1], &shm);
        if let Some(b) = b {
            assert!(b.id != 1, "skipped backend should not be selected");
        }
    }
}

#[test]
fn skip_all_but_one_returns_the_last() {
    let mut shm = SharedMemory::new(16);
    let backends = vec![
        make_backend(&mut shm, 0, true, 1),
        make_backend(&mut shm, 1, true, 1),
        make_backend(&mut shm, 2, true, 1),
    ];
    let mut balancer = make_balancer_with_balance(backends, Balance::RoundRobin);
    let ip = IpAddr::v4(192, 168, 0, 1);

    for _ in 0..10 {
        let b = balancer.select_backend(&ip, "/path", &[0, 2], &shm);
        assert!(b.is_some());
        assert_eq!(b.unwrap().id, 1);
    }
}


#[test]
fn health_aware_routing_dynamically_excludes_down() {
    let mut shm = SharedMemory::new(16);
    let backends = vec![
        make_backend(&mut shm, 0, true, 1),
        make_backend(&mut shm, 1, true, 1),
        make_backend(&mut shm, 2, true, 1),
    ];
    let mut balancer = make_balancer_with_balance(backends.clone(), Balance::RoundRobin);
    let ip = IpAddr::v4(192, 168, 0, 1);

    let mut got_0 = false;
    for _ in 0..30 {
        if let Some(b) = balancer.select_backend(&ip, "/path", &[], &shm) {
            if b.id == 0 {
                got_0 = true;
            }
        }
    }
    assert!(got_0, "backend 0 should be selected when up");

    backends[0].state.set_up(&mut shm, false);
    let mut balancer2 = make_balancer_with_balance(backends, Balance::RoundRobin);

    let mut got_0_again = false;
    for _ in 0..30 {
        if let Some(b) = balancer2.select_backend(&ip, "/path", &[], &shm) {
            if b.id == 0 {
                got_0_again = true;
            }
        }
    }
    assert!(
        !got_0_again,
        "backend 0 should not be selected after going down"
    );
}


#[test]
fn first_returns_first_up_backend() {
    let mut shm = SharedMemory::new(16);
    let backends = vec![
        make_backend(&mut shm, 0, false, 1),
        make_backend(&mut shm, 1, true, 1),
        make_backend(&mut shm, 2, true, 1),
    ];
    let mut balancer = make_balancer_with_balance(backends, Balance::First);
    let ip = IpAddr::v4(192, 168, 0, 1);

    for _ in 0..10 {
        let b = balancer.select_backend(&ip, "/path", &[], &shm);
        assert!(b.is_some());
        assert_eq!(b.unwrap().id, 1, "first should return the first up backend");
    }
}

#[test]
fn first_with_first_down_skips_to_next() {
    let mut shm = SharedMemory::new(16);
    let backends = vec![
        make_backend(&mut shm, 0, false, 1),
        make_backend(&mut shm, 1, false, 1),
        make_backend(&mut shm, 2, true, 1),
    ];
    let mut balancer = make_balancer_with_balance(backends, Balance::First);
    let ip = IpAddr::v4(192, 168, 0, 1);

    for _ in 0..10 {
        let b = balancer.select_backend(&ip, "/path", &[], &shm);
        assert!(b.is_some());
        assert_eq!(b.unwrap().id, 2);
    }
}


#[test]
fn random_only_selects_up_backends() {
    let mut shm = SharedMemory::new(16);
    let backends = vec![
        make_backend(&mut shm, 0, true, 1),
        make_backend(&mut shm, 1, false, 1),
        make_backend(&mut shm, 2, true, 1),
    ];
    let mut balancer = make_balancer_with_balance(backends, Balance::Random);
    let ip = IpAddr::v4(192, 168, 0, 1);

    for _ in 0..50 {
        if let Some(b) = balancer.select_backend(&ip, "/path", &[], &shm) {
            assert!(
                b.id == 0 || b.id == 2,
                "random should only pick up backends"
            );
        }
    }
}

#[test]
fn random_selects_all_up_backends_over_many_trials() {
    let mut shm = SharedMemory::new(16);
    let backends = vec![
        make_backend(&mut shm, 0, true, 1),
        make_backend(&mut shm, 1, true, 1),
        make_backend(&mut shm, 2, true, 1),
    ];
    let mut balancer = make_balancer_with_balance(backends, Balance::Random);
    let ip = IpAddr::v4(192, 168, 0, 1);

    let mut seen = [false, false, false];
    for _ in 0..300 {
        if let Some(b) = balancer.select_backend(&ip, "/path", &[], &shm) {
            seen[b.id] = true;
        }
    }
    assert!(
        seen.iter().all(|&s| s),
        "random should eventually select all backends"
    );
}

#[test]
fn weights_out_of_range_are_noticed() {
    let mut shm = SharedMemory::new(16);
    let heavy = vec![
        make_backend(&mut shm, 0, true, u32::MAX),
        make_backend(&mut shm, 1, true, 1),
    ];
    let mut balancer = make_balancer_with_balance(heavy, Balance::Weighted);
    assert!(!balancer.weights_fit(&[], &shm));
    assert!(balancer.weights_fit(&[1], &shm));
    let ip = IpAddr::v4(192, 168, 0, 1);
    assert_eq!(balancer.select_backend(&ip, "/", &[1], &shm).unwrap().id, 0);
}

#[test]
fn losing_a_backend_moves_only_its_clients() {
    let mut shm = SharedMemory::new(16);
    let backends: Vec<Backend> = (0..4).map(|i| make_backend(&mut shm, i, true, 1)).collect();
    let mut balancer = make_balancer_with_balance(backends, Balance::Iphash);
    let mut before = Vec::new();
    for i in 0..100u8 {
        let ip = IpAddr::v4(10, 0, 0, i);
        before.push(balancer.select_backend(&ip, "/", &[], &shm).unwrap().id);
    }
    for i in 0..100u8 {
        let ip = IpAddr::v4(10, 0, 0, i);
        let after = balancer.select_backend(&ip, "/", &[2], &shm).unwrap().id;
        if before[i as usize] != 2 {
            assert_eq!(after, before[i as usize]);
        } else {
            assert_ne!(after, 2);
        }
    }
}
