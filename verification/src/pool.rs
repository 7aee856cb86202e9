//! A pool of equally sized blocks addressed by byte offset.
//!
//! The pool is carved into `pool_size / block_size` blocks whose offsets are
//! multiples of the block size. Allocation hands out a free offset and
//! records it; deallocation validates the offset (inside the pool, aligned,
//! and currently allocated) and returns it to the free list. An offset is
//! never handed out twice without being freed in between.

use vstd::prelude::*;

verus! {

pub struct MemoryPool {
    pool_size: usize,
    free_blocks: Vec<usize>,
    block_size: usize,
    allocated_blocks: Vec<usize>,
}

impl MemoryPool {
    /// The offsets currently free, in hand-out order (last first).
    pub closed spec fn free_spec(&self) -> Seq<usize> {
        self.free_blocks@
    }

    /// The offsets currently allocated.
    pub closed spec fn allocated_spec(&self) -> Seq<usize> {
        self.allocated_blocks@
    }

    pub closed spec fn spec_block_size(&self) -> usize {
        self.block_size
    }

    pub closed spec fn spec_pool_size(&self) -> usize {
        self.pool_size
    }

    /// Every tracked offset is aligned and inside the pool; no offset is
    /// both free and allocated, or listed twice.
    pub closed spec fn well_formed(&self) -> bool {
        &&& self.block_size > 0
        &&& (forall|i: int|
            0 <= i < self.free_blocks@.len() ==> (#[trigger] self.free_blocks@[i])
                < self.pool_size && self.free_blocks@[i] % self.block_size == 0)
        &&& (forall|i: int|
            0 <= i < self.allocated_blocks@.len() ==> (#[trigger] self.allocated_blocks@[i])
                < self.pool_size && self.allocated_blocks@[i] % self.block_size == 0)
        &&& (forall|i: int, j: int|
            0 <= i < j < self.free_blocks@.len() ==> self.free_blocks@[i] != self.free_blocks@[j])
        &&& (forall|i: int, j: int|
            0 <= i < j < self.allocated_blocks@.len() ==> self.allocated_blocks@[i]
                != self.allocated_blocks@[j])
        &&& (forall|i: int, j: int|
            0 <= i < self.free_blocks@.len() && 0 <= j < self.allocated_blocks@.len()
                ==> self.free_blocks@[i] != self.allocated_blocks@[j])
    }

    pub fn new(pool_size: usize, block_size: usize) -> (p: Self)
        requires
            block_size > 0,
        ensures
            p.well_formed(),
            p.spec_block_size() == block_size,
            p.spec_pool_size() == pool_size,
            p.allocated_spec() == Seq::<usize>::empty(),
            p.free_spec().len() == pool_size / block_size,
    {
        let num_blocks = pool_size / block_size;
        let mut free_blocks: Vec<usize> = Vec::new();
        let mut i: usize = 0;
        while i < num_blocks
            invariant
                block_size > 0,
                num_blocks == pool_size / block_size,
                i <= num_blocks,
                free_blocks@.len() == i,
                forall|k: int|
                    0 <= k < i ==> (#[trigger] free_blocks@[k]) == k * block_size,
                forall|k: int|
                    0 <= k < i ==> (#[trigger] free_blocks@[k]) < pool_size && free_blocks@[k]
                        % block_size == 0,
            decreases num_blocks - i,
        {
            proof {
                let bs = block_size as int;
                let ps = pool_size as int;
                let ii = i as int;
                assert(ii * bs + bs <= ps) by (nonlinear_arith)
                    requires
                        bs > 0,
                        0 <= ii < ps / bs,
                ;
                assert((ii * bs) % bs == 0) by (nonlinear_arith)
                    requires
                        bs > 0,
                        ii >= 0,
                ;
            }
            free_blocks.push(i * block_size);
            i = i + 1;
        }
        proof {
            assert forall|a: int, b: int|
                0 <= a < b < free_blocks@.len() implies free_blocks@[a] != free_blocks@[b] by {
                assert(free_blocks@[a] == a * block_size);
                assert(free_blocks@[b] == b * block_size);
                assert(a * block_size < b * block_size) by (nonlinear_arith)
                    requires
                        0 <= a < b,
                        block_size > 0,
                ;
            }
        }
        MemoryPool { pool_size, free_blocks, block_size, allocated_blocks: Vec::new() }
    }

    /// Hands out the most recently freed (or highest remaining) offset, or
    /// nothing when the pool is exhausted.
    pub fn allocate(&mut self) -> (r: Option<usize>)
        requires
            old(self).well_formed(),
        ensures
            final(self).well_formed(),
            final(self).spec_block_size() == old(self).spec_block_size(),
            final(self).spec_pool_size() == old(self).spec_pool_size(),
            match r {
                Some(offset) => {
                    &&& old(self).free_spec().len() > 0
                    &&& offset == old(self).free_spec().last()
                    &&& final(self).free_spec() == old(self).free_spec().drop_last()
                    &&& final(self).allocated_spec() == old(self).allocated_spec().push(offset)
                },
                None => old(self).free_spec().len() == 0 && final(self).free_spec() == old(
                    self,
                ).free_spec() && final(self).allocated_spec() == old(self).allocated_spec(),
            },
    {
        match self.free_blocks.pop() {
            None => None,
            Some(offset) => {
                proof {
                    assert(old(self).free_spec().last() == offset);
                }
                self.allocated_blocks.push(offset);
                proof {
                    let prefree = old(self).free_spec();
                    let prealloc = old(self).allocated_spec();
                    let n = prefree.len() as int;
                    assert(self.free_blocks@ =~= prefree.drop_last());
                    assert(self.allocated_blocks@ =~= prealloc.push(offset));
                    assert(prefree[n - 1] == offset);
                    assert forall|a: int, b: int|
                        0 <= a < b < self.allocated_blocks@.len() implies self.allocated_blocks@[a]
                            != self.allocated_blocks@[b] by {
                        if b == self.allocated_blocks@.len() - 1 {
                            assert(self.allocated_blocks@[a] == prealloc[a]);
                            assert(prealloc[a] != prefree[n - 1]);
                        }
                    }
                    assert forall|a: int, b: int|
                        0 <= a < self.free_blocks@.len() && 0 <= b
                            < self.allocated_blocks@.len() implies self.free_blocks@[a]
                            != self.allocated_blocks@[b] by {
                        assert(self.free_blocks@[a] == prefree[a]);
                        if b == self.allocated_blocks@.len() - 1 {
                            assert(prefree[a] != prefree[n - 1]);
                        } else {
                            assert(self.allocated_blocks@[b] == prealloc[b]);
                        }
                    }
                }
                Some(offset)
            },
        }
    }

    /// Returns an offset to the free list. Fails on an offset outside the
    /// pool, on one that is not block-aligned, and on one that is not
    /// currently allocated.
    pub fn deallocate(&mut self, ptr: usize) -> (r: Result<(), &'static str>)
        requires
            old(self).well_formed(),
        ensures
            final(self).well_formed(),
            final(self).spec_block_size() == old(self).spec_block_size(),
            final(self).spec_pool_size() == old(self).spec_pool_size(),
            match r {
                Ok(_) => {
                    &&& ptr < old(self).spec_pool_size()
                    &&& ptr % old(self).spec_block_size() == 0
                    &&& old(self).allocated_spec().contains(ptr)
                    &&& final(self).free_spec() == old(self).free_spec().push(ptr)
                    &&& final(self).allocated_spec().len() == old(self).allocated_spec().len() - 1
                    &&& !final(self).allocated_spec().contains(ptr)
                },
                Err(_) => {
                    &&& *final(self) == *old(self)
                    &&& (ptr >= old(self).spec_pool_size() || ptr % old(self).spec_block_size()
                        != 0 || !old(self).allocated_spec().contains(ptr))
                },
            },
    {
        if ptr >= self.pool_size {
            return Err("Pointer not from this pool");
        }
        if ptr % self.block_size != 0 {
            return Err("Invalid alignment");
        }
        let mut i: usize = 0;
        while i < self.allocated_blocks.len()
            invariant
                *self == *old(self),
                self.well_formed(),
                ptr < self.pool_size,
                ptr % self.block_size == 0,
                i <= self.allocated_blocks@.len(),
                forall|k: int| 0 <= k < i ==> self.allocated_blocks@[k] != ptr,
            decreases self.allocated_blocks@.len() - i,
        {
            if self.allocated_blocks[i] == ptr {
                let ghost pre = *self;
                self.allocated_blocks.remove(i);
                self.free_blocks.push(ptr);
                proof {
                    pre.allocated_blocks@.remove_ensures(i as int);
                    assert(pre.allocated_spec()[i as int] == ptr);
                    assert(pre.allocated_spec().contains(ptr));
                    assert forall|k: int|
                        0 <= k < self.allocated_blocks@.len() implies self.allocated_blocks@[k]
                            != ptr by {
                        if k < i {
                            assert(self.allocated_blocks@[k] == pre.allocated_spec()[k]);
                        } else {
                            assert(self.allocated_blocks@[k] == pre.allocated_spec()[k + 1]);
                        }
                    }
                    assert(!self.allocated_spec().contains(ptr)) by {
                        if self.allocated_spec().contains(ptr) {
                            let w = choose|w: int|
                                0 <= w < self.allocated_spec().len() && self.allocated_spec()[w]
                                    == ptr;
                        }
                    }
                }
                return Ok(());
            }
            i = i + 1;
        }
        proof {
            assert(!self.allocated_spec().contains(ptr)) by {
                if self.allocated_spec().contains(ptr) {
                    let w = choose|w: int|
                        0 <= w < self.allocated_spec().len() && self.allocated_spec()[w] == ptr;
                }
            }
        }
        Err("Block not allocated")
    }

    /// How many blocks the pool was carved into.
    pub fn total_blocks(&self) -> (r: usize)
        requires
            self.spec_block_size() > 0,
        ensures
            r == self.spec_pool_size() / self.spec_block_size(),
    {
        self.pool_size / self.block_size
    }

    /// How many blocks are currently handed out.
    pub fn allocated_count(&self) -> (r: usize)
        ensures
            r == self.allocated_spec().len(),
    {
        self.allocated_blocks.len()
    }

    /// How many blocks are currently free.
    pub fn free_count(&self) -> (r: usize)
        ensures
            r == self.free_spec().len(),
    {
        self.free_blocks.len()
    }
}

} // verus!
