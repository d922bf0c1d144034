use vstd::prelude::*;

verus! {

/// Largest number of slots a pool holds.
pub const MAX_SLOTS: usize = 0x1000_0000;

/// Striped buffers of observed key hashes. A stripe that fills up is handed
/// back whole, in arrival order, to be fed to the frequency sketch, and
/// starts over empty.
pub struct Pool {
    slots: Vec<u64>,
    fill: Vec<usize>,
    buffer_size: usize,
}

impl Pool {
    pub closed spec fn spec_pool_size(&self) -> int {
        self.fill@.len() as int
    }

    pub closed spec fn spec_buffer_size(&self) -> int {
        self.buffer_size as int
    }

    /// The hashes waiting in a stripe, oldest first.
    pub closed spec fn buffered(&self, stripe: int) -> Seq<u64> {
        let start = stripe * self.buffer_size;
        self.slots@.subrange(start, start + self.fill@[stripe])
    }

    pub closed spec fn wf(&self) -> bool {
        &&& self.fill@.len() > 0
        &&& self.buffer_size > 0
        &&& self.slots@.len() == self.fill@.len() * self.buffer_size
        &&& self.slots@.len() <= MAX_SLOTS
        &&& forall|i: int| 0 <= i < self.fill@.len() ==> #[trigger] self.fill@[i] < self.buffer_size
    }

    /// The stripe a hash goes to.
    pub open spec fn stripe_of(&self, hash: u64) -> int {
        hash as int % self.spec_pool_size()
    }

    pub fn new(pool_size: usize, buffer_size: usize) -> (r: Self)
        requires
            pool_size > 0,
            buffer_size > 0,
            pool_size * buffer_size <= MAX_SLOTS,
        ensures
            r.wf(),
            r.spec_pool_size() == pool_size,
            r.spec_buffer_size() == buffer_size,
            forall|i: int| 0 <= i < pool_size ==> #[trigger] r.buffered(i).len() == 0,
    {
        let total = pool_size * buffer_size;
        let mut slots: Vec<u64> = Vec::new();
        while slots.len() < total
            invariant
                slots@.len() <= total,
            decreases total - slots@.len(),
        {
            slots.push(0);
        }
        let mut fill: Vec<usize> = Vec::new();
        while fill.len() < pool_size
            invariant
                fill@.len() <= pool_size,
                forall|i: int| 0 <= i < fill@.len() ==> #[trigger] fill@[i] == 0,
            decreases pool_size - fill@.len(),
        {
            fill.push(0);
        }
        let r = Pool { slots, fill, buffer_size };
        assert forall|i: int| 0 <= i < pool_size implies #[trigger] r.buffered(i).len() == 0 by {
            assert(r.fill@[i] == 0);
            assert(0 <= i * buffer_size <= pool_size * buffer_size) by (nonlinear_arith)
                requires 0 <= i < pool_size, buffer_size > 0;
        }
        r
    }

    /// Buffers one observed hash in its stripe. When that fills the stripe,
    /// its contents are returned and the stripe is emptied.
    pub fn add(&mut self, hash: u64) -> (r: Option<Vec<u64>>)
        requires
            old(self).wf(),
        ensures
            final(self).wf(),
            final(self).spec_pool_size() == old(self).spec_pool_size(),
            final(self).spec_buffer_size() == old(self).spec_buffer_size(),
            ({
                let s = old(self).stripe_of(hash);
                let filled = old(self).buffered(s).push(hash);
                &&& forall|i: int| 0 <= i < old(self).spec_pool_size() && i != s ==> #[trigger] final(self).buffered(i)
                    == old(self).buffered(i)
                &&& if filled.len() == old(self).spec_buffer_size() {
                    r is Some && r->0@ == filled && final(self).buffered(s).len() == 0
                } else {
                    r is None && final(self).buffered(s) == filled
                }
            }),
    {
        let ghost before = *self;
        let pool_size = self.fill.len();
        let stripe = (hash % (pool_size as u64)) as usize;
        let b = self.buffer_size;
        let n = self.fill[stripe];
        proof {
            assert(stripe * b + n < pool_size * b) by (nonlinear_arith)
                requires stripe < pool_size, n < b;
            assert(stripe * b + b <= pool_size * b) by (nonlinear_arith)
                requires stripe < pool_size;
            assert(0 <= stripe * b) by (nonlinear_arith)
                requires stripe >= 0, b > 0;
        }
        let start = stripe * b;
        self.slots.set(start + n, hash);
        proof {
            assert(self.slots@.subrange(start as int, start + n + 1) =~= before.buffered(stripe as int).push(hash));
            assert forall|i: int| 0 <= i < pool_size && i != stripe implies #[trigger] self.slots@.subrange(i * b, i * b + before.fill@[i])
                == before.buffered(i) by {
                assert(i * b + b <= stripe * b || stripe * b + b <= i * b) by (nonlinear_arith)
                    requires i != stripe, i >= 0, stripe >= 0, b > 0;
                assert(i * b + b <= pool_size * b) by (nonlinear_arith)
                    requires i < pool_size, b > 0;
                assert(0 <= i * b) by (nonlinear_arith)
                    requires i >= 0, b > 0;
                assert(self.slots@.subrange(i * b, i * b + before.fill@[i]) =~= before.buffered(i));
            }
        }
        if n + 1 == b {
            let mut batch: Vec<u64> = Vec::new();
            let mut k: usize = 0;
            while k < b
                invariant
                    k <= b,
                    b == self.buffer_size,
                    start + b <= self.slots@.len(),
                    self.slots@.len() <= MAX_SLOTS,
                    batch@ == self.slots@.subrange(start as int, start + k),
                decreases b - k,
            {
                batch.push(self.slots[start + k]);
                proof {
                    assert(self.slots@.subrange(start as int, start + k + 1) =~= self.slots@.subrange(start as int, start + k).push(
                        self.slots@[start + k],
                    ));
                }
                k = k + 1;
            }
            self.fill.set(stripe, 0);
            Some(batch)
        } else {
            self.fill.set(stripe, n + 1);
            None
        }
    }
}

} // verus!
