//! State shared by the processes of the proxy: the health and load of the backends, and the
//! counters of the workers.
//!
//! The library works on plain values; the processes keep them in one memory region.

use vstd::prelude::*;

verus! {

/// Version of the layout of the shared values. It changes whenever one of them does.
pub const SHM_LAYOUT_VERSION: &'static str = "v1";

/// Number of response statuses that are counted.
pub const STATUS_SLOTS: usize = 600;

/// Number of workers that have counters.
pub const WORKER_SLOTS: usize = 256;

/// The counters of one worker. A counter that would exceed its range starts over.
pub struct WorkerMetrics {
    /// Responses by status.
    pub req_status: Vec<u64>,
    pub req_qos_drop: u64,
    pub req_rate_limit_drop: u64,
    pub req_ip_drop: u64,
    pub req_jwt_drop: u64,
    pub req_rule_drop: u64,
    pub bytes_rx: u64,
    pub bytes_tx: u64,
    pub active_connections: u64,
}

/// The counters of all workers and the load of the machine in percent.
pub struct SharedMetrics {
    pub workers: Vec<WorkerMetrics>,
    pub global_cpu_load: u8,
}

/// Health and load of one backend.
#[derive(Clone, Copy, PartialEq, Eq, Structural, Debug)]
pub struct SharedBackendState {
    /// 0 where the backend is down.
    pub up: u8,
    pub active_connections: usize,
}

/// The shared values.
pub struct SharedMemory {
    pub backends: Vec<SharedBackendState>,
    pub metrics: SharedMetrics,
}

impl WorkerMetrics {
    /// There is a counter for each status.
    pub open spec fn wf(self) -> bool {
        self.req_status@.len() == STATUS_SLOTS
    }

    /// No counter has counted anything.
    pub open spec fn is_zero(self) -> bool {
        &&& self.wf()
        &&& forall|i: int| 0 <= i < STATUS_SLOTS ==> self.req_status@[i] == 0
        &&& self.req_qos_drop == 0
        &&& self.req_rate_limit_drop == 0
        &&& self.req_ip_drop == 0
        &&& self.req_jwt_drop == 0
        &&& self.req_rule_drop == 0
        &&& self.bytes_rx == 0
        &&& self.bytes_tx == 0
        &&& self.active_connections == 0
    }

    /// Counters that have counted nothing.
    pub fn zero() -> (r: WorkerMetrics)
        ensures
            r.is_zero(),
    {
        let mut req_status: Vec<u64> = Vec::new();
        for i in 0..STATUS_SLOTS
            invariant
                req_status@.len() == i,
                forall|j: int| 0 <= j < i ==> req_status@[j] == 0,
        {
            req_status.push(0);
        }
        WorkerMetrics {
            req_status,
            req_qos_drop: 0,
            req_rate_limit_drop: 0,
            req_ip_drop: 0,
            req_jwt_drop: 0,
            req_rule_drop: 0,
            bytes_rx: 0,
            bytes_tx: 0,
            active_connections: 0,
        }
    }
}

impl SharedMetrics {
    /// There are counters for each worker.
    pub open spec fn wf(self) -> bool {
        &&& self.workers@.len() == WORKER_SLOTS
        &&& forall|i: int| 0 <= i < WORKER_SLOTS ==> (#[trigger] self.workers@[i]).wf()
    }

    /// Every worker's counters but those of `worker` are as in `before`, and so is the load.
    pub open spec fn changes_only(self, before: SharedMetrics, worker: int) -> bool {
        &&& self.workers@.len() == before.workers@.len()
        &&& forall|i: int|
            0 <= i < self.workers@.len() && i != worker ==> #[trigger] self.workers@[i]
                == before.workers@[i]
        &&& self.global_cpu_load == before.global_cpu_load
    }
}

impl SharedMemory {
    /// The counters are all there.
    pub open spec fn wf(self) -> bool {
        self.metrics.wf()
    }

    /// Shared values for `max_backends` backends: each of them up and without connections, all
    /// counters zero.
    pub fn new(max_backends: usize) -> (r: SharedMemory)
        ensures
            r.wf(),
            r.backends@.len() == max_backends,
            forall|i: int|
                0 <= i < max_backends ==> #[trigger] r.backends@[i] == (SharedBackendState {
                    up: 1,
                    active_connections: 0,
                }),
            forall|i: int| 0 <= i < WORKER_SLOTS ==> (#[trigger] r.metrics.workers@[i]).is_zero(),
            r.metrics.global_cpu_load == 0,
    {
        let mut backends: Vec<SharedBackendState> = Vec::new();
        for i in 0..max_backends
            invariant
                backends@.len() == i,
                forall|j: int|
                    0 <= j < i ==> #[trigger] backends@[j] == (SharedBackendState {
                        up: 1,
                        active_connections: 0,
                    }),
        {
            backends.push(SharedBackendState { up: 1, active_connections: 0 });
        }
        let mut workers: Vec<WorkerMetrics> = Vec::new();
        for i in 0..WORKER_SLOTS
            invariant
                workers@.len() == i,
                forall|j: int| 0 <= j < i ==> (#[trigger] workers@[j]).is_zero(),
        {
            workers.push(WorkerMetrics::zero());
        }
        SharedMemory { backends, metrics: SharedMetrics { workers, global_cpu_load: 0 } }
    }

    /// The handle of backend `id`.
    pub fn get_state(&self, id: usize) -> (r: SharedState)
        requires
            id < self.backends@.len(),
        ensures
            r.slot() == id,
    {
        SharedState { slot: id }
    }
}

/// Handle of the shared state of one backend.
#[derive(Clone, Copy, PartialEq, Eq, Structural, Debug)]
pub struct SharedState {
    slot: usize,
}

impl SharedState {
    /// The place of the backend among the shared values.
    pub closed spec fn slot(self) -> int {
        self.slot as int
    }

    /// The handle belongs to the given shared values.
    pub open spec fn within(self, shm: SharedMemory) -> bool {
        0 <= self.slot() < shm.backends@.len()
    }

    /// What the shared values hold of the backend.
    pub open spec fn of(self, shm: SharedMemory) -> SharedBackendState {
        shm.backends@[self.slot()]
    }

    /// The handle of the backend at a place, whether or not there is one.
    pub(crate) fn at(slot: usize) -> (r: SharedState)
        ensures
            r.slot() == slot,
    {
        SharedState { slot }
    }

    /// Whether the backend is up.
    pub fn is_up(&self, shm: &SharedMemory) -> (r: bool)
        requires
            self.within(*shm),
        ensures
            r == (self.of(*shm).up != 0),
    {
        shm.backends[self.slot].up != 0
    }

    /// Marks the backend up or down.
    pub fn set_up(&self, shm: &mut SharedMemory, up: bool)
        requires
            self.within(*old(shm)),
        ensures
            final(shm).backends@ == old(shm).backends@.update(
                self.slot(),
                SharedBackendState {
                    up: if up {
                        1
                    } else {
                        0
                    },
                    active_connections: self.of(*old(shm)).active_connections,
                },
            ),
            final(shm).metrics == old(shm).metrics,
    {
        let mut s = shm.backends[self.slot];
        s.up = if up {
            1
        } else {
            0
        };
        shm.backends[self.slot] = s;
    }

    /// Number of connections to the backend.
    pub fn active_conns(&self, shm: &SharedMemory) -> (r: usize)
        requires
            self.within(*shm),
        ensures
            r == self.of(*shm).active_connections,
    {
        shm.backends[self.slot].active_connections
    }

    /// Counts one connection more.
    pub fn inc_conn(&self, shm: &mut SharedMemory)
        requires
            self.within(*old(shm)),
        ensures
            final(shm).backends@ == with_conn(old(shm).backends@, self.slot()),
            final(shm).metrics == old(shm).metrics,
    {
        let mut s = shm.backends[self.slot];
        s.active_connections = s.active_connections.wrapping_add(1);
        shm.backends[self.slot] = s;
    }

    /// Counts one connection less.
    pub fn dec_conn(&self, shm: &mut SharedMemory)
        requires
            self.within(*old(shm)),
        ensures
            final(shm).backends@ == without_conn(old(shm).backends@, self.slot()),
            final(shm).metrics == old(shm).metrics,
    {
        let mut s = shm.backends[self.slot];
        s.active_connections = s.active_connections.wrapping_sub(1);
        shm.backends[self.slot] = s;
    }

    /// A handle of the only backend of `SharedMemory::new(1)`.
    pub fn new_for_test() -> (r: SharedState)
        ensures
            r.slot() == 0,
    {
        SharedState { slot: 0 }
    }
}

/// Holds one connection in the count of a backend, from [`ConnGuard::new`] to
/// [`ConnGuard::release`].
pub struct ConnGuard {
    state: SharedState,
}

impl ConnGuard {
    /// The backend whose connection is held.
    pub closed spec fn held(self) -> SharedState {
        self.state
    }

    /// Counts a connection to a backend.
    pub fn new(state: SharedState, shm: &mut SharedMemory) -> (r: ConnGuard)
        requires
            state.within(*old(shm)),
        ensures
            r.held() == state,
            final(shm).backends@ == with_conn(old(shm).backends@, state.slot()),
            final(shm).metrics == old(shm).metrics,
    {
        state.inc_conn(shm);
        ConnGuard { state }
    }

    /// Takes the connection out of the count.
    pub fn release(self, shm: &mut SharedMemory)
        requires
            self.held().within(*old(shm)),
        ensures
            final(shm).backends@ == without_conn(old(shm).backends@, self.held().slot()),
            final(shm).metrics == old(shm).metrics,
    {
        self.state.dec_conn(shm);
    }
}

/// The backends after one connection more to the one at `slot`.
pub open spec fn with_conn(b: Seq<SharedBackendState>, slot: int) -> Seq<SharedBackendState> {
    b.update(
        slot,
        SharedBackendState {
            up: b[slot].up,
            active_connections: b[slot].active_connections.wrapping_add(1),
        },
    )
}

/// The backends after one connection less to the one at `slot`.
pub open spec fn without_conn(b: Seq<SharedBackendState>, slot: int) -> Seq<SharedBackendState> {
    b.update(
        slot,
        SharedBackendState {
            up: b[slot].up,
            active_connections: b[slot].active_connections.wrapping_sub(1),
        },
    )
}

/// A connection that was counted and released leaves everything as it was.
pub proof fn law_conn_roundtrip(b: Seq<SharedBackendState>, slot: int)
    requires
        0 <= slot < b.len(),
    ensures
        without_conn(with_conn(b, slot), slot) == b,
{
    assert(without_conn(with_conn(b, slot), slot) =~= b);
}

/// The counters of all workers.
pub fn global_metrics(shm: &SharedMemory) -> (r: &SharedMetrics)
    ensures
        *r == shm.metrics,
{
    &shm.metrics
}

/// The counters of one worker.
pub fn worker_metrics(metrics: &SharedMetrics, worker: usize) -> (r: &WorkerMetrics)
    requires
        metrics.wf(),
        worker < WORKER_SLOTS,
    ensures
        *r == metrics.workers@[worker as int],
{
    &metrics.workers[worker]
}

/// Counts a response. A status beyond the counted ones changes nothing.
pub fn inc_status(metrics: &mut SharedMetrics, worker: usize, status: u16)
    requires
        old(metrics).wf(),
        worker < WORKER_SLOTS,
    ensures
        final(metrics).wf(),
        final(metrics).changes_only(*old(metrics), worker as int),
        ({
            let a = old(metrics).workers@[worker as int];
            let b = final(metrics).workers@[worker as int];
            &&& b.req_status@ == (if status < STATUS_SLOTS {
                a.req_status@.update(status as int, a.req_status@[status as int].wrapping_add(1))
            } else {
                a.req_status@
            })
            &&& b == (WorkerMetrics { req_status: b.req_status, ..a })
        }),
{
    if (status as usize) < STATUS_SLOTS {
        let w = &mut metrics.workers[worker];
        let v: u64 = w.req_status[status as usize];
        w.req_status[status as usize] = v.wrapping_add(1);
    }
}

/// Counts a request that was dropped because of load.
pub fn inc_qos_drop(metrics: &mut SharedMetrics, worker: usize)
    requires
        old(metrics).wf(),
        worker < WORKER_SLOTS,
    ensures
        final(metrics).wf(),
        final(metrics).changes_only(*old(metrics), worker as int),
        final(metrics).workers@[worker as int] == (WorkerMetrics {
            req_qos_drop: old(metrics).workers@[worker as int].req_qos_drop.wrapping_add(1),
            ..old(metrics).workers@[worker as int]
        }),
{
    let w = &mut metrics.workers[worker];
    w.req_qos_drop = w.req_qos_drop.wrapping_add(1);
}

/// Counts a request over its rate limit.
pub fn inc_rate_limit_drop(metrics: &mut SharedMetrics, worker: usize)
    requires
        old(metrics).wf(),
        worker < WORKER_SLOTS,
    ensures
        final(metrics).wf(),
        final(metrics).changes_only(*old(metrics), worker as int),
        final(metrics).workers@[worker as int] == (WorkerMetrics {
            req_rate_limit_drop: old(metrics).workers@[worker as int].req_rate_limit_drop.wrapping_add(1),
            ..old(metrics).workers@[worker as int]
        }),
{
    let w = &mut metrics.workers[worker];
    w.req_rate_limit_drop = w.req_rate_limit_drop.wrapping_add(1);
}

/// Counts a request from an address that is not let in.
pub fn inc_ip_drop(metrics: &mut SharedMetrics, worker: usize)
    requires
        old(metrics).wf(),
        worker < WORKER_SLOTS,
    ensures
        final(metrics).wf(),
        final(metrics).changes_only(*old(metrics), worker as int),
        final(metrics).workers@[worker as int] == (WorkerMetrics {
            req_ip_drop: old(metrics).workers@[worker as int].req_ip_drop.wrapping_add(1),
            ..old(metrics).workers@[worker as int]
        }),
{
    let w = &mut metrics.workers[worker];
    w.req_ip_drop = w.req_ip_drop.wrapping_add(1);
}

/// Counts a request without a valid token.
pub fn inc_jwt_drop(metrics: &mut SharedMetrics, worker: usize)
    requires
        old(metrics).wf(),
        worker < WORKER_SLOTS,
    ensures
        final(metrics).wf(),
        final(metrics).changes_only(*old(metrics), worker as int),
        final(metrics).workers@[worker as int] == (WorkerMetrics {
            req_jwt_drop: old(metrics).workers@[worker as int].req_jwt_drop.wrapping_add(1),
            ..old(metrics).workers@[worker as int]
        }),
{
    let w = &mut metrics.workers[worker];
    w.req_jwt_drop = w.req_jwt_drop.wrapping_add(1);
}

/// Counts a request that failed a rule.
pub fn inc_rule_drop(metrics: &mut SharedMetrics, worker: usize)
    requires
        old(metrics).wf(),
        worker < WORKER_SLOTS,
    ensures
        final(metrics).wf(),
        final(metrics).changes_only(*old(metrics), worker as int),
        final(metrics).workers@[worker as int] == (WorkerMetrics {
            req_rule_drop: old(metrics).workers@[worker as int].req_rule_drop.wrapping_add(1),
            ..old(metrics).workers@[worker as int]
        }),
{
    let w = &mut metrics.workers[worker];
    w.req_rule_drop = w.req_rule_drop.wrapping_add(1);
}

/// Counts bytes received.
pub fn add_bytes_rx(metrics: &mut SharedMetrics, worker: usize, bytes: u64)
    requires
        old(metrics).wf(),
        worker < WORKER_SLOTS,
    ensures
        final(metrics).wf(),
        final(metrics).changes_only(*old(metrics), worker as int),
        final(metrics).workers@[worker as int] == (WorkerMetrics {
            bytes_rx: old(metrics).workers@[worker as int].bytes_rx.wrapping_add(bytes),
            ..old(metrics).workers@[worker as int]
        }),
{
    let w = &mut metrics.workers[worker];
    w.bytes_rx = w.bytes_rx.wrapping_add(bytes);
}

/// Counts bytes sent.
pub fn add_bytes_tx(metrics: &mut SharedMetrics, worker: usize, bytes: u64)
    requires
        old(metrics).wf(),
        worker < WORKER_SLOTS,
    ensures
        final(metrics).wf(),
        final(metrics).changes_only(*old(metrics), worker as int),
        final(metrics).workers@[worker as int] == (WorkerMetrics {
            bytes_tx: old(metrics).workers@[worker as int].bytes_tx.wrapping_add(bytes),
            ..old(metrics).workers@[worker as int]
        }),
{
    let w = &mut metrics.workers[worker];
    w.bytes_tx = w.bytes_tx.wrapping_add(bytes);
}

/// Counts a client connection.
pub fn inc_active_connections(metrics: &mut SharedMetrics, worker: usize)
    requires
        old(metrics).wf(),
        worker < WORKER_SLOTS,
    ensures
        final(metrics).wf(),
        final(metrics).changes_only(*old(metrics), worker as int),
        final(metrics).workers@[worker as int] == (WorkerMetrics {
            active_connections: old(metrics).workers@[worker as int].active_connections.wrapping_add(1),
            ..old(metrics).workers@[worker as int]
        }),
{
    let w = &mut metrics.workers[worker];
    w.active_connections = w.active_connections.wrapping_add(1);
}

/// Takes a client connection out of the count.
pub fn dec_active_connections(metrics: &mut SharedMetrics, worker: usize)
    requires
        old(metrics).wf(),
        worker < WORKER_SLOTS,
    ensures
        final(metrics).wf(),
        final(metrics).changes_only(*old(metrics), worker as int),
        final(metrics).workers@[worker as int] == (WorkerMetrics {
            active_connections: old(metrics).workers@[worker as int].active_connections.wrapping_sub(1),
            ..old(metrics).workers@[worker as int]
        }),
{
    let w = &mut metrics.workers[worker];
    w.active_connections = w.active_connections.wrapping_sub(1);
}

} // verus!
