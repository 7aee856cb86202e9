//! Named byte buffers and a fixed-block pool behind a managing front end.
//!
//! A buffer owns its bytes and tracks a nominal capacity; writes replace the
//! contents and appends extend them, whatever the capacity says, exactly as
//! a raw write to the block would. Reads are clamped: past the end of the
//! contents they return the bytes that are there, or nothing. The pool hands
//! out block offsets in order and treats freeing as a no-op apart from
//! validation, so offsets are never reissued.

use crate::assoc::StringTable;
use crate::strutil::utf8_string;
use vstd::prelude::*;
use vstd::string::StringSliceAdditionalSpecFns;

verus! {

/// What a clamped read of `length` bytes at `offset` yields.
pub open spec fn read_spec(data: Seq<u8>, offset: int, length: int) -> Seq<u8> {
    if offset + length > data.len() {
        if offset < data.len() {
            data.subrange(offset, data.len() as int)
        } else {
            Seq::empty()
        }
    } else {
        data.subrange(offset, offset + length)
    }
}

pub struct Buffer {
    data: Vec<u8>,
    capacity: usize,
}

impl View for Buffer {
    type V = Seq<u8>;

    closed spec fn view(&self) -> Seq<u8> {
        self.data@
    }
}

impl Buffer {
    pub closed spec fn spec_capacity(&self) -> usize {
        self.capacity
    }

    /// Allocation of the backing store never fails here, so the result is
    /// always the empty buffer of the asked-for capacity.
    pub fn new(capacity: usize) -> (r: Result<Buffer, String>)
        ensures
            match r {
                Ok(b) => b@ == Seq::<u8>::empty() && b.spec_capacity() == capacity,
                Err(_) => false,
            },
    {
        let mut data: Vec<u8> = Vec::new();
        data.reserve(capacity);
        Ok(Buffer { data, capacity })
    }

    /// Replaces the contents with `data`, regardless of the nominal
    /// capacity.
    pub fn write(&mut self, data: &[u8]) -> (r: Result<(), String>)
        ensures
            r is Ok,
            final(self)@ == data@,
            final(self).spec_capacity() == old(self).spec_capacity(),
    {
        let mut copied: Vec<u8> = Vec::new();
        let mut i: usize = 0;
        while i < data.len()
            invariant
                i <= data@.len(),
                copied@ == data@.subrange(0, i as int),
            decreases data@.len() - i,
        {
            copied.push(data[i]);
            proof {
                assert(copied@ =~= data@.subrange(0, i + 1));
            }
            i = i + 1;
        }
        proof {
            assert(copied@ =~= data@);
        }
        self.data = copied;
        Ok(())
    }

    /// Appends `data` to the contents.
    pub fn append(&mut self, data: &[u8]) -> (r: Result<(), String>)
        ensures
            r is Ok,
            final(self)@ == old(self)@ + data@,
            final(self).spec_capacity() == old(self).spec_capacity(),
    {
        let ghost pre = self.data@;
        let mut i: usize = 0;
        while i < data.len()
            invariant
                i <= data@.len(),
                self.data@ == pre + data@.subrange(0, i as int),
                self.capacity == old(self).capacity,
            decreases data@.len() - i,
        {
            self.data.push(data[i]);
            proof {
                assert(self.data@ =~= pre + data@.subrange(0, i + 1));
            }
            i = i + 1;
        }
        proof {
            assert(self.data@ =~= pre + data@);
        }
        Ok(())
    }

    /// Reads up to `length` bytes starting at `offset`, clamped to the
    /// contents that are there.
    pub fn read(&self, offset: usize, length: usize) -> (r: Result<Vec<u8>, String>)
        requires
            offset + length <= usize::MAX,
        ensures
            match r {
                Ok(bytes) => bytes@ == read_spec(self@, offset as int, length as int),
                Err(_) => false,
            },
    {
        let end: usize = if offset + length > self.data.len() {
            self.data.len()
        } else {
            offset + length
        };
        let start: usize = if offset < self.data.len() {
            offset
        } else {
            end
        };
        let mut bytes: Vec<u8> = Vec::new();
        let mut i: usize = start;
        while i < end
            invariant
                start <= i <= end <= self.data@.len(),
                bytes@ == self.data@.subrange(start as int, i as int),
            decreases end - i,
        {
            bytes.push(self.data[i]);
            proof {
                assert(bytes@ =~= self.data@.subrange(start as int, i + 1));
            }
            i = i + 1;
        }
        proof {
            assert(bytes@ =~= read_spec(self@, offset as int, length as int));
        }
        Ok(bytes)
    }

    pub fn size(&self) -> (r: usize)
        ensures
            r == self@.len(),
    {
        self.data.len()
    }
}

pub struct MemoryPool {
    blocks: Vec<usize>,
    block_size: usize,
    total_blocks: usize,
    used_blocks: usize,
}

impl MemoryPool {
    /// Block offsets in order, the fixed block size, and how many blocks
    /// have been handed out.
    pub closed spec fn well_formed(&self) -> bool {
        &&& self.blocks@.len() == self.total_blocks
        &&& self.used_blocks <= self.total_blocks
        &&& forall|i: int|
            0 <= i < self.blocks@.len() ==> #[trigger] self.blocks@[i] == i * self.block_size
    }

    pub closed spec fn spec_total(&self) -> usize {
        self.total_blocks
    }

    pub closed spec fn spec_used(&self) -> usize {
        self.used_blocks
    }

    pub closed spec fn spec_block_size(&self) -> usize {
        self.block_size
    }

    /// Fails exactly when the pool would not fit in the address space.
    pub fn new(block_size: usize, total_blocks: usize) -> (r: Result<MemoryPool, String>)
        ensures
            match r {
                Ok(p) => {
                    &&& p.well_formed()
                    &&& block_size * total_blocks <= usize::MAX
                    &&& p.spec_total() == total_blocks
                    &&& p.spec_used() == 0
                    &&& p.spec_block_size() == block_size
                },
                Err(_) => block_size * total_blocks > usize::MAX,
            },
    {
        match block_size.checked_mul(total_blocks) {
            None => Err(String::from_str("Failed to allocate memory pool")),
            Some(_) => {
                let mut blocks: Vec<usize> = Vec::new();
                let mut i: usize = 0;
                while i < total_blocks
                    invariant
                        i <= total_blocks,
                        block_size * total_blocks <= usize::MAX,
                        blocks@.len() == i,
                        forall|k: int|
                            0 <= k < i ==> #[trigger] blocks@[k] == k * block_size,
                    decreases total_blocks - i,
                {
                    proof {
                        assert(i * block_size <= total_blocks * block_size) by (nonlinear_arith)
                            requires
                                0 <= i <= total_blocks,
                                0 <= block_size,
                        ;
                    }
                    blocks.push(i * block_size);
                    i = i + 1;
                }
                Ok(MemoryPool { blocks, block_size, total_blocks, used_blocks: 0 })
            },
        }
    }

    /// Hands out the next unused block's offset; fails exactly when all
    /// blocks are in use.
    pub fn allocate_block(&mut self) -> (r: Result<usize, String>)
        requires
            old(self).well_formed(),
        ensures
            final(self).well_formed(),
            final(self).spec_total() == old(self).spec_total(),
            final(self).spec_block_size() == old(self).spec_block_size(),
            match r {
                Ok(offset) => {
                    &&& old(self).spec_used() < old(self).spec_total()
                    &&& offset == old(self).spec_used() * old(self).spec_block_size()
                    &&& final(self).spec_used() == old(self).spec_used() + 1
                },
                Err(_) => {
                    &&& old(self).spec_used() >= old(self).spec_total()
                    &&& *final(self) == *old(self)
                },
            },
    {
        if self.used_blocks >= self.total_blocks {
            return Err(String::from_str("No free blocks available"));
        }
        let block = self.blocks[self.used_blocks];
        self.used_blocks = self.used_blocks + 1;
        Ok(block)
    }

    /// Validates the offset but releases nothing: the pool never reissues a
    /// block.
    pub fn free_block(&mut self, block: usize) -> (r: Result<(), String>)
        requires
            old(self).well_formed(),
        ensures
            *final(self) == *old(self),
            r is Ok,
    {
        Ok(())
    }
}

pub struct MemoryManager {
    buffers: StringTable<Buffer>,
    memory_pool: MemoryPool,
}

impl MemoryManager {
    pub closed spec fn well_formed(&self) -> bool {
        self.buffers.well_formed() && self.memory_pool.well_formed()
    }

    pub closed spec fn has_buffer(&self, name: Seq<char>) -> bool {
        self.buffers.contains_key(name)
    }

    /// The bytes held by the named buffer.
    pub closed spec fn buffer_contents(&self, name: Seq<char>) -> Seq<u8> {
        self.buffers.value_of(name)@
    }

    pub closed spec fn buffer_count(&self) -> nat {
        self.buffers.keys().len()
    }

    pub closed spec fn pool_used(&self) -> usize {
        self.memory_pool.spec_used()
    }

    pub closed spec fn pool_total(&self) -> usize {
        self.memory_pool.spec_total()
    }

    pub closed spec fn pool_block_size(&self) -> usize {
        self.memory_pool.spec_block_size()
    }

    pub fn new() -> (r: Result<MemoryManager, String>)
        ensures
            match r {
                Ok(m) => m.well_formed() && m.buffer_count() == 0,
                Err(_) => false,
            },
    {
        let memory_pool = match MemoryPool::new(1024, 100) {
            Ok(p) => p,
            Err(e) => {
                return Err(e);
            },
        };
        Ok(MemoryManager { buffers: StringTable::new(), memory_pool })
    }

    /// Creates (or replaces) the named buffer, empty, with the given
    /// capacity.
    pub fn create_buffer(&mut self, name: &str, capacity: usize) -> (r: Result<(), String>)
        requires
            old(self).well_formed(),
        ensures
            final(self).well_formed(),
            r is Ok,
            final(self).has_buffer(name@),
            final(self).buffer_contents(name@) == Seq::<u8>::empty(),
            final(self).buffer_count() == old(self).buffer_count() + (if old(self).has_buffer(
                name@,
            ) {
                0int
            } else {
                1int
            }),
            forall|n: Seq<char>|
                n != name@ ==> final(self).has_buffer(n) == old(self).has_buffer(n) && (old(self).has_buffer(n) ==> final(self).buffer_contents(n) == old(self).buffer_contents(n)),
    {
        let buffer = match Buffer::new(capacity) {
            Ok(b) => b,
            Err(e) => {
                return Err(e);
            },
        };
        self.buffers.insert(name, buffer);
        Ok(())
    }

    pub fn get_buffer(&self, name: &str) -> (r: Option<&Buffer>)
        requires
            self.well_formed(),
        ensures
            match r {
                Some(b) => self.has_buffer(name@) && b@ == self.buffer_contents(name@),
                None => !self.has_buffer(name@),
            },
    {
        self.buffers.get(name)
    }

    /// The named buffers themselves, in table order alongside
    /// `buffer_names`.
    pub closed spec fn buffer_seq(&self) -> Seq<Buffer> {
        self.buffers.vals()
    }

    /// The buffer names, in table order.
    pub closed spec fn buffer_names(&self) -> Seq<Seq<char>> {
        self.buffers.keys()
    }

    /// The named buffer's position in the table.
    pub closed spec fn buffer_index(&self, name: Seq<char>) -> int {
        self.buffers.index_of(name)
    }

    /// A mutable borrow of the named buffer: the manager afterwards holds,
    /// in the same place, exactly the buffer the caller left behind the
    /// borrow.
    pub fn get_buffer_mut(&mut self, name: &str) -> (r: Option<&mut Buffer>)
        requires
            old(self).well_formed(),
        ensures
            match r {
                Some(b) => {
                    &&& old(self).has_buffer(name@)
                    &&& b@ == old(self).buffer_contents(name@)
                    &&& final(self).well_formed()
                    &&& final(self).buffer_names() =~= old(self).buffer_names()
                    &&& final(self).buffer_seq() =~= old(self).buffer_seq().update(
                        old(self).buffer_index(name@),
                        *final(b),
                    )
                },
                None => !old(self).has_buffer(name@) && *final(self) == *old(self),
            },
    {
        proof {
            if self.buffers.contains_key(name@) {
                self.buffers.lemma_index_props(name@);
            }
        }
        self.buffers.get_mut(name)
    }

    /// Replaces the named buffer's contents with `data`.
    pub fn write_to_buffer(&mut self, name: &str, data: &[u8]) -> (r: Result<(), String>)
        requires
            old(self).well_formed(),
        ensures
            final(self).well_formed(),
            match r {
                Ok(_) => {
                    &&& old(self).has_buffer(name@)
                    &&& final(self).has_buffer(name@)
                    &&& final(self).buffer_contents(name@) == data@
                    &&& forall|n: Seq<char>|
                        n != name@ ==> final(self).has_buffer(n) == old(self).has_buffer(n) && (old(self).has_buffer(n) ==> final(self).buffer_contents(n) == old(self).buffer_contents(n))
                },
                Err(_) => !old(self).has_buffer(name@) && *final(self) == *old(self),
            },
    {
        match self.buffers.remove(name) {
            None => Err(String::from_str("Buffer not found")),
            Some(mut buffer) => {
                let _ = buffer.write(data);
                self.buffers.insert(name, buffer);
                Ok(())
            },
        }
    }

    /// Reads from the named buffer, clamped to its contents.
    pub fn read_from_buffer(&self, name: &str, offset: usize, length: usize) -> (r: Result<
        Vec<u8>,
        String,
    >)
        requires
            self.well_formed(),
            offset + length <= usize::MAX,
        ensures
            match r {
                Ok(bytes) => self.has_buffer(name@) && bytes@ == read_spec(
                    self.buffer_contents(name@),
                    offset as int,
                    length as int,
                ),
                Err(_) => !self.has_buffer(name@),
            },
    {
        match self.buffers.get(name) {
            None => Err(String::from_str("Buffer not found")),
            Some(buffer) => buffer.read(offset, length),
        }
    }

    /// Drops the named buffer; reports whether one was there.
    pub fn delete_buffer(&mut self, name: &str) -> (r: Result<bool, String>)
        requires
            old(self).well_formed(),
        ensures
            final(self).well_formed(),
            match r {
                Ok(existed) => {
                    &&& existed == old(self).has_buffer(name@)
                    &&& !final(self).has_buffer(name@)
                    &&& forall|n: Seq<char>|
                        n != name@ ==> final(self).has_buffer(n) == old(self).has_buffer(n) && (old(self).has_buffer(n) ==> final(self).buffer_contents(n) == old(self).buffer_contents(n))
                },
                Err(_) => false,
            },
    {
        match self.buffers.remove(name) {
            Some(_) => Ok(true),
            None => Ok(false),
        }
    }

    pub fn allocate_from_pool(&mut self) -> (r: Result<usize, String>)
        requires
            old(self).well_formed(),
        ensures
            final(self).well_formed(),
            final(self).buffer_count() == old(self).buffer_count(),
            forall|n: Seq<char>|
                final(self).has_buffer(n) == old(self).has_buffer(n) && (old(self).has_buffer(n)
                    ==> final(self).buffer_contents(n) == old(self).buffer_contents(n)),
            match r {
                Ok(offset) => {
                    &&& old(self).pool_used() < old(self).pool_total()
                    &&& offset == old(self).pool_used() * old(self).pool_block_size()
                    &&& final(self).pool_used() == old(self).pool_used() + 1
                },
                Err(_) => old(self).pool_used() >= old(self).pool_total() && *final(self) == *old(self),
            },
    {
        self.memory_pool.allocate_block()
    }

    pub fn free_to_pool(&mut self, block: usize) -> (r: Result<(), String>)
        requires
            old(self).well_formed(),
        ensures
            *final(self) == *old(self),
            r is Ok,
    {
        self.memory_pool.free_block(block)
    }

    /// Replaces the named buffer's contents with the text's bytes.
    pub fn write_string(&mut self, name: &str, text: &str) -> (r: Result<(), String>)
        requires
            old(self).well_formed(),
        ensures
            final(self).well_formed(),
            match r {
                Ok(_) => {
                    &&& old(self).has_buffer(name@)
                    &&& final(self).has_buffer(name@)
                    &&& final(self).buffer_contents(name@) == text.spec_bytes()
                },
                Err(_) => !old(self).has_buffer(name@) && *final(self) == *old(self),
            },
    {
        self.write_to_buffer(name, text.as_bytes())
    }

    /// Decodes the named buffer's contents as UTF-8.
    pub fn read_string(&self, name: &str) -> (r: Result<String, String>)
        requires
            self.well_formed(),
        ensures
            match r {
                Ok(s) => {
                    &&& self.has_buffer(name@)
                    &&& vstd::utf8::valid_utf8(self.buffer_contents(name@))
                    &&& s@ == vstd::utf8::decode_utf8(self.buffer_contents(name@))
                },
                Err(_) => !self.has_buffer(name@) || !vstd::utf8::valid_utf8(
                    self.buffer_contents(name@),
                ),
            },
    {
        match self.buffers.get(name) {
            None => Err(String::from_str("Buffer not found")),
            Some(buffer) => {
                let size = buffer.size();
                let bytes = match buffer.read(0, size) {
                    Ok(b) => b,
                    Err(e) => {
                        return Err(e);
                    },
                };
                proof {
                    assert(bytes@ =~= self.buffer_contents(name@));
                }
                match utf8_string(bytes) {
                    Some(s) => Ok(s),
                    None => Err(String::from_str("invalid utf-8 sequence")),
                }
            },
        }
    }

    /// Drops every buffer.
    pub fn cleanup(&mut self) -> (r: Result<(), String>)
        requires
            old(self).well_formed(),
        ensures
            final(self).well_formed(),
            final(self).buffer_count() == 0,
            r is Ok,
    {
        self.buffers.clear();
        Ok(())
    }

    /// How many named buffers the manager holds.
    pub fn buffer_count_exec(&self) -> (r: usize)
        ensures
            r == self.buffer_count(),
    {
        self.buffers.len()
    }
}

} // verus!
