//! A pool of buffers of one size, so that requests do not allocate.

use vstd::prelude::*;

verus! {

/// Bytes of a pooled buffer.
pub const BUF_SIZE: usize = 16384;

/// Buffers that a pool keeps at most.
pub const BUF_POOL_MAX: usize = 10_000;

/// Buffers that are free.
pub struct BufPool {
    free: Vec<Vec<u8>>,
}

/// `Vec::capacity`: how many bytes a vector can hold without allocating, which is no fewer than it
/// holds. How many more is up to the allocator.
#[verifier::external_body]
fn capacity_of(buf: &Vec<u8>) -> (r: usize)
    ensures
        r >= buf@.len(),
{
    buf.capacity()
}

/// A buffer of the size of a pooled one, all zeros.
pub open spec fn blank() -> Seq<u8> {
    Seq::new(BUF_SIZE as nat, |i: int| 0u8)
}

impl BufPool {
    /// Number of free buffers.
    pub closed spec fn free(self) -> int {
        self.free@.len() as int
    }

    /// Well-formed: every free buffer is blank, and there are not too many.
    pub closed spec fn wf(self) -> bool {
        &&& self.free@.len() <= BUF_POOL_MAX
        &&& forall|i: int| 0 <= i < self.free@.len() ==> (#[trigger] self.free@[i])@ == blank()
    }

    /// An empty pool.
    pub fn new() -> (r: BufPool)
        ensures
            r.wf(),
            r.free() == 0,
    {
        BufPool { free: Vec::new() }
    }
}

fn blank_buf() -> (r: Vec<u8>)
    ensures
        r@ == blank(),
{
    let mut v: Vec<u8> = Vec::new();
    v.resize(BUF_SIZE, 0);
    assert(v@ =~= blank());
    v
}

/// Takes a buffer out of the pool, or makes one where the pool is empty. Either way it is blank.
pub fn get_buf(pool: &mut BufPool) -> (r: Vec<u8>)
    requires
        old(pool).wf(),
    ensures
        final(pool).wf(),
        r@ == blank(),
        final(pool).free() == if old(pool).free() > 0 {
            old(pool).free() - 1
        } else {
            0
        },
{
    match pool.free.pop() {
        Some(b) => b,
        None => blank_buf(),
    }
}

/// Puts a buffer of the given capacity back, blank again. It is given up where it is too small, or
/// the pool is full.
pub fn recycle(pool: &mut BufPool, buf: Vec<u8>, capacity: usize)
    requires
        old(pool).wf(),
    ensures
        final(pool).wf(),
        final(pool).free() == if capacity >= BUF_SIZE && old(pool).free() < BUF_POOL_MAX {
            old(pool).free() + 1
        } else {
            old(pool).free()
        },
{
    if capacity >= BUF_SIZE && pool.free.len() < BUF_POOL_MAX {
        let mut b = buf;
        b.clear();
        b.resize(BUF_SIZE, 0);
        assert(b@ =~= blank());
        pool.free.push(b);
    }
}

/// Puts a buffer back, if it is large enough to be used again. One that holds as much as a pooled
/// one is.
pub fn put_buf(pool: &mut BufPool, buf: Vec<u8>)
    requires
        old(pool).wf(),
    ensures
        final(pool).wf(),
        old(pool).free() <= final(pool).free() <= old(pool).free() + 1,
        old(pool).free() >= BUF_POOL_MAX ==> final(pool).free() == old(pool).free(),
        buf@.len() >= BUF_SIZE && old(pool).free() < BUF_POOL_MAX ==> final(pool).free() == old(
            pool,
        ).free() + 1,
{
    let capacity: usize = capacity_of(&buf);
    recycle(pool, buf, capacity);
}

/// A buffer that a request has borrowed from a pool, from [`PooledBuf::new`] to
/// [`PooledBuf::release`].
pub struct PooledBuf {
    buf: Option<Vec<u8>>,
}

impl PooledBuf {
    /// What it holds: nothing while the buffer is taken.
    pub closed spec fn held(self) -> Option<Seq<u8>> {
        match self.buf {
            Some(b) => Some(b@),
            None => None,
        }
    }

    /// Borrows a buffer.
    pub fn new(pool: &mut BufPool) -> (r: PooledBuf)
        requires
            old(pool).wf(),
        ensures
            final(pool).wf(),
            r.held() == Some(blank()),
            final(pool).free() == if old(pool).free() > 0 {
                old(pool).free() - 1
            } else {
                0
            },
    {
        PooledBuf { buf: Some(get_buf(pool)) }
    }

    /// Takes the buffer, or another one where it is taken already.
    pub fn take(&mut self, pool: &mut BufPool) -> (r: Vec<u8>)
        requires
            old(pool).wf(),
        ensures
            final(pool).wf(),
            final(self).held() is None,
            r@ == match old(self).held() {
                Some(b) => b,
                None => blank(),
            },
            final(pool).free() == if old(self).held() is None && old(pool).free() > 0 {
                old(pool).free() - 1
            } else {
                old(pool).free()
            },
    {
        match self.buf.take() {
            Some(b) => b,
            None => get_buf(pool),
        }
    }

    /// Gives the buffer back to the borrower's keeping.
    pub fn put(&mut self, b: Vec<u8>)
        ensures
            final(self).held() == Some(b@),
    {
        self.buf = Some(b);
    }

    /// Returns the buffer, if it is there, to the pool.
    pub fn release(self, pool: &mut BufPool)
        requires
            old(pool).wf(),
        ensures
            final(pool).wf(),
            self.held() is None ==> final(pool).free() == old(pool).free(),
            old(pool).free() <= final(pool).free() <= old(pool).free() + 1,
            self.held() matches Some(b) ==> (b.len() >= BUF_SIZE && old(pool).free() < BUF_POOL_MAX
                ==> final(pool).free() == old(pool).free() + 1),
    {
        match self.buf {
            Some(b) => put_buf(pool, b),
            None => {},
        }
    }
}

} // verus!
