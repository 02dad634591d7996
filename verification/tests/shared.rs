//! State shared by the processes.

use rproxy::shared::{
    add_bytes_rx, add_bytes_tx, dec_active_connections, global_metrics, inc_active_connections,
    inc_ip_drop, inc_jwt_drop, inc_qos_drop, inc_rate_limit_drop, inc_rule_drop, inc_status,
    worker_metrics, ConnGuard, SharedMemory, SharedState, SHM_LAYOUT_VERSION, STATUS_SLOTS,
    WORKER_SLOTS,
};

#[test]
fn test_shm_layout_contract() {
    assert!(!SHM_LAYOUT_VERSION.is_empty());
    let max_backends = 16;
    let shm = SharedMemory::new(max_backends);
    assert_eq!(shm.backends.len(), max_backends);
    assert_eq!(shm.metrics.workers.len(), WORKER_SLOTS);
    assert_eq!(shm.metrics.workers[0].req_status.len(), STATUS_SLOTS);
}

#[test]
fn test_shared_memory_up() {
    let mut shm = SharedMemory::new(4);
    let s = shm.get_state(0);
    assert!(s.is_up(&shm));
    s.set_up(&mut shm, false);
    assert!(!s.is_up(&shm));
}

#[test]
fn test_shared_state_conn_roundtrip() {
    let mut shm = SharedMemory::new(1);
    let s = SharedState::new_for_test();
    let before = s.active_conns(&shm);
    s.inc_conn(&mut shm);
    s.inc_conn(&mut shm);
    s.dec_conn(&mut shm);
    let after = s.active_conns(&shm);
    assert_eq!(after - before, 1);
}

#[test]
fn test_metrics_all_counters_delta() {
    let mut shm = SharedMemory::new(16);
    let w = 255;

    let b_qos = worker_metrics(&shm.metrics, w).req_qos_drop;
    inc_qos_drop(&mut shm.metrics, w);
    assert_eq!(worker_metrics(&shm.metrics, w).req_qos_drop - b_qos, 1);

    let b_rl = worker_metrics(&shm.metrics, w).req_rate_limit_drop;
    inc_rate_limit_drop(&mut shm.metrics, w);
    assert_eq!(worker_metrics(&shm.metrics, w).req_rate_limit_drop - b_rl, 1);

    let b_ip = worker_metrics(&shm.metrics, w).req_ip_drop;
    inc_ip_drop(&mut shm.metrics, w);
    assert_eq!(worker_metrics(&shm.metrics, w).req_ip_drop - b_ip, 1);

    let b_jwt = worker_metrics(&shm.metrics, w).req_jwt_drop;
    inc_jwt_drop(&mut shm.metrics, w);
    assert_eq!(worker_metrics(&shm.metrics, w).req_jwt_drop - b_jwt, 1);

    let b_rule = worker_metrics(&shm.metrics, w).req_rule_drop;
    inc_rule_drop(&mut shm.metrics, w);
    assert_eq!(worker_metrics(&shm.metrics, w).req_rule_drop - b_rule, 1);

    let b_rx = worker_metrics(&shm.metrics, w).bytes_rx;
    add_bytes_rx(&mut shm.metrics, w, 42);
    assert_eq!(worker_metrics(&shm.metrics, w).bytes_rx - b_rx, 42);

    let b_tx = worker_metrics(&shm.metrics, w).bytes_tx;
    add_bytes_tx(&mut shm.metrics, w, 99);
    assert_eq!(worker_metrics(&shm.metrics, w).bytes_tx - b_tx, 99);

    let b_active = worker_metrics(&shm.metrics, w).active_connections;
    inc_active_connections(&mut shm.metrics, w);
    assert_eq!(
        worker_metrics(&shm.metrics, w).active_connections - b_active,
        1
    );
    dec_active_connections(&mut shm.metrics, w);
    assert_eq!(
        worker_metrics(&shm.metrics, w).active_connections - b_active,
        0
    );
    assert_eq!(global_metrics(&shm).workers[254].bytes_rx, 0);
}

#[test]
fn statuses_out_of_range_are_not_counted() {
    let mut shm = SharedMemory::new(1);
    inc_status(&mut shm.metrics, 3, 404);
    inc_status(&mut shm.metrics, 3, 404);
    inc_status(&mut shm.metrics, 3, 600);
    inc_status(&mut shm.metrics, 3, 65535);
    let w = worker_metrics(&shm.metrics, 3);
    assert_eq!(w.req_status[404], 2);
    assert_eq!(w.req_status.iter().sum::<u64>(), 2);
}

#[test]
fn guard_counts_a_connection_while_it_is_held() {
    let mut shm = SharedMemory::new(2);
    let s = shm.get_state(1);
    let guard = ConnGuard::new(s, &mut shm);
    assert_eq!(s.active_conns(&shm), 1);
    assert_eq!(shm.get_state(0).active_conns(&shm), 0);
    guard.release(&mut shm);
    assert_eq!(s.active_conns(&shm), 0);
}
