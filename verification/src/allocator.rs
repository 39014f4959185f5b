//! Size-class memory pools and an arena allocator.
//!
//! Blocks and arena space are addressed by byte offsets into the owned
//! buffers, so every bookkeeping step is plain integer arithmetic.

use vstd::prelude::*;

verus! {

/// Memory allocation strategy.
#[derive(Debug, Clone, Copy, PartialEq, Eq, Hash, Structural)]
pub enum AllocationStrategy {
    /// Stack allocation (for small, short-lived objects).
    Stack,
    /// Pool allocation (for medium-sized objects).
    Pool,
    /// Heap allocation (for large objects).
    Heap,
    /// Arena allocation (for objects with similar lifetimes).
    Arena,
}

/// Statistics for a memory pool.
#[derive(Debug, Clone, PartialEq, Eq, Structural)]
pub struct PoolStats {
    pub total_blocks: usize,
    pub free_blocks: usize,
    pub used_blocks: usize,
    pub block_size: usize,
    pub total_size: usize,
}

/// A fixed-size block pool: a buffer carved into equally sized blocks and
/// a free list of block indexes.
pub struct MemoryPool {
    size: usize,
    free_blocks: Vec<usize>,
    buffer: Vec<u8>,
    block_size: usize,
    num_blocks: usize,
}

impl MemoryPool {
    /// The block size the pool was built with.
    pub closed spec fn spec_block_size(&self) -> usize {
        self.block_size
    }

    /// The total byte size the pool was built with.
    pub closed spec fn spec_size(&self) -> usize {
        self.size
    }

    /// The number of blocks carved out of the buffer.
    pub closed spec fn spec_num_blocks(&self) -> usize {
        self.num_blocks
    }

    /// The free list, as block indexes; allocation pops from its end.
    pub closed spec fn free_seq(&self) -> Seq<usize> {
        self.free_blocks@
    }

    /// Well-formedness: the block count is the buffer size over the block
    /// size, every free index names a block, and no block is free twice
    /// (so the free list never exceeds the block count).
    pub closed spec fn wf(&self) -> bool {
        &&& self.block_size >= 1
        &&& self.num_blocks == self.size as int / self.block_size as int
        &&& self.buffer@.len() == self.size
        &&& self.free_blocks@.len() <= self.num_blocks
        &&& forall|i: int|
            0 <= i < self.free_blocks@.len() ==> #[trigger] self.free_blocks@[i]
                < self.num_blocks
        &&& forall|i: int, j: int|
            0 <= i < j < self.free_blocks@.len() ==> self.free_blocks@[i]
                != self.free_blocks@[j]
    }

    /// Builds a pool of `size` bytes carved into `block_size`-byte
    /// blocks; every block starts free, lowest index on top of the free
    /// list.
    pub fn new(size: usize, block_size: usize) -> (r: Self)
        requires
            block_size >= 1,
        ensures
            r.wf(),
            r.spec_block_size() == block_size,
            r.spec_size() == size,
            r.spec_num_blocks() == size as int / block_size as int,
            r.free_seq().len() == r.spec_num_blocks(),
            forall|i: int|
                0 <= i < r.free_seq().len() ==> #[trigger] r.free_seq()[i] == r.free_seq().len()
                    - 1 - i,
    {
        let num_blocks = size / block_size;
        let mut free_blocks: Vec<usize> = Vec::new();
        let mut j: usize = num_blocks;
        while j > 0
            invariant
                j <= num_blocks,
                free_blocks@.len() == num_blocks - j,
                forall|i: int|
                    0 <= i < free_blocks@.len() ==> #[trigger] free_blocks@[i] == num_blocks - 1
                        - i,
            decreases j,
        {
            free_blocks.push(j - 1);
            j = j - 1;
        }
        let mut buffer: Vec<u8> = Vec::new();
        let mut k: usize = 0;
        while k < size
            invariant
                k <= size,
                buffer@.len() == k,
            decreases size - k,
        {
            buffer.push(0);
            k = k + 1;
        }
        proof {
            vstd::arithmetic::div_mod::lemma_fundamental_div_mod(size as int, block_size as int);
        }
        MemoryPool { size, free_blocks, buffer, block_size, num_blocks }
    }

    /// Allocates a block: pops the top free index and returns the block's
    /// byte offset into the buffer, or `None` when the pool is full.
    pub fn allocate(&mut self) -> (r: Option<usize>)
        requires
            old(self).wf(),
        ensures
            final(self).wf(),
            final(self).spec_block_size() == old(self).spec_block_size(),
            final(self).spec_size() == old(self).spec_size(),
            final(self).spec_num_blocks() == old(self).spec_num_blocks(),
            old(self).free_seq().len() == 0 ==> r is None && final(self).free_seq() == old(self).free_seq(),
            old(self).free_seq().len() > 0 ==> (r matches Some(offset) && offset == old(self).free_seq().last() * old(self).spec_block_size() && offset + old(self).spec_block_size() <= old(self).spec_size()) && final(self).free_seq() == old(self).free_seq().drop_last(),
    {
        match self.free_blocks.pop() {
            Some(block_index) => {
                proof {
                    vstd::arithmetic::div_mod::lemma_fundamental_div_mod(
                        self.size as int,
                        self.block_size as int,
                    );
                    assert(block_index < self.num_blocks);
                    assert((block_index + 1) * self.block_size <= self.num_blocks
                        * self.block_size) by (nonlinear_arith)
                        requires
                            block_index + 1 <= self.num_blocks,
                            self.block_size >= 1,
                    ;
                    assert(block_index * self.block_size + self.block_size == (block_index + 1)
                        * self.block_size) by (nonlinear_arith);
                }
                Some(block_index * self.block_size)
            },
            None => None,
        }
    }

    /// Frees the block at a byte offset: its index returns to the free
    /// list.  An offset outside the pool, and a release of a block that is
    /// already free, are ignored.
    pub fn free(&mut self, offset: usize)
        requires
            old(self).wf(),
        ensures
            final(self).wf(),
            final(self).spec_block_size() == old(self).spec_block_size(),
            final(self).spec_size() == old(self).spec_size(),
            final(self).spec_num_blocks() == old(self).spec_num_blocks(),
            ({
                let idx = offset as int / old(self).spec_block_size() as int;
                if idx < old(self).spec_num_blocks() && !old(self).free_seq().contains(
                    idx as usize,
                ) {
                    final(self).free_seq() == old(self).free_seq().push(idx as usize)
                } else {
                    final(self).free_seq() == old(self).free_seq()
                }
            }),
    {
        let block_index = offset / self.block_size;
        if block_index >= self.num_blocks {
            return ;
        }
        let n = self.free_blocks.len();
        let mut i: usize = 0;
        while i < n
            invariant
                self == old(self),
                old(self).wf(),
                block_index == offset as int / old(self).spec_block_size() as int,
                n == self.free_blocks@.len(),
                i <= n,
                forall|j: int| 0 <= j < i ==> self.free_blocks@[j] != block_index,
            decreases n - i,
        {
            if self.free_blocks[i] == block_index {
                proof {
                    assert(old(self).free_seq()[i as int] == block_index);
                    assert(old(self).free_seq().contains(block_index));
                }
                return ;
            }
            i = i + 1;
        }
        proof {
            assert(!self.free_blocks@.contains(block_index));
            assert(self.free_blocks@.len() < self.num_blocks) by {
                if self.free_blocks@.len() >= self.num_blocks {
                    lemma_full_distinct_free_list_contains(
                        self.free_blocks@,
                        self.num_blocks,
                        block_index,
                    );
                }
            }
        }
        self.free_blocks.push(block_index);
    }

    /// The pool's statistics.
    pub fn stats(&self) -> (r: PoolStats)
        requires
            self.wf(),
        ensures
            r == (PoolStats {
                total_blocks: self.spec_num_blocks(),
                free_blocks: self.free_seq().len() as usize,
                used_blocks: (self.spec_num_blocks() - self.free_seq().len()) as usize,
                block_size: self.spec_block_size(),
                total_size: self.spec_size(),
            }),
    {
        PoolStats {
            total_blocks: self.num_blocks,
            free_blocks: self.free_blocks.len(),
            used_blocks: self.num_blocks - self.free_blocks.len(),
            block_size: self.block_size,
            total_size: self.size,
        }
    }
}

/// A pool never holds more free blocks than it carved out, so the free
/// and used counts its statistics report always add up to the block
/// count.
pub proof fn lemma_pool_stats_balance(p: MemoryPool)
    requires
        p.wf(),
    ensures
        p.free_seq().len() <= p.spec_num_blocks(),
{
}

/// A duplicate-free list of block indexes below the block count that is
/// already at full length holds every such index.
proof fn lemma_full_distinct_free_list_contains(s: Seq<usize>, num: usize, idx: usize)
    requires
        s.len() >= num,
        idx < num,
        forall|i: int| 0 <= i < s.len() ==> #[trigger] s[i] < num,
        forall|i: int, j: int| 0 <= i < j < s.len() ==> s[i] != s[j],
    ensures
        s.contains(idx),
{
    broadcast use vstd::set::group_set_axioms;

    let si = s.map(|i: int, b: usize| b as int);
    assert(si.no_duplicates()) by {
        assert forall|i: int, j: int|
            0 <= i < si.len() && 0 <= j < si.len() && i != j implies si[i] != si[j] by {
            if i < j {
                assert(s[i] != s[j]);
            } else {
                assert(s[j] != s[i]);
            }
        }
    }
    si.unique_seq_to_set();
    let held = si.to_set();
    let all = vstd::set_lib::set_int_range(0, num as int);
    vstd::set_lib::lemma_int_range(0, num as int);
    if !s.contains(idx) {
        assert(!held.contains(idx as int)) by {
            if held.contains(idx as int) {
                let i = choose|i: int| 0 <= i < si.len() && si[i] == idx as int;
                assert(s[i] == idx);
                assert(s.contains(idx));
            }
        }
        let rest = all.remove(idx as int);
        assert(held.subset_of(rest)) by {
            assert forall|b: int| held.contains(b) implies rest.contains(b) by {
                let i = choose|i: int| 0 <= i < si.len() && si[i] == b;
                assert(s[i] < num);
                assert(b != idx as int);
            }
        }
        assert(rest.len() == num - 1);
        vstd::set_lib::lemma_len_subset(held, rest);
        assert(false);
    }
}

/// An arena allocator: bump allocation in a current arena, with filled
/// arenas kept until the arena is reset.
pub struct ArenaAllocator {
    current_arena: Vec<u8>,
    arena_size: usize,
    current_pos: usize,
    completed_arenas: Vec<Vec<u8>>,
}

/// A size rounded up to a multiple of eight bytes.
pub open spec fn align8(size: int) -> int {
    ((size + 7) / 8) * 8
}

impl ArenaAllocator {
    /// The arena size the allocator was built with.
    pub closed spec fn spec_arena_size(&self) -> usize {
        self.arena_size
    }

    /// The bump position in the current arena.
    pub closed spec fn spec_pos(&self) -> usize {
        self.current_pos
    }

    /// The number of filled arenas kept aside.
    pub closed spec fn spec_completed(&self) -> int {
        self.completed_arenas@.len() as int
    }

    /// Well-formedness: the current arena is either still the fresh empty
    /// one or exactly one arena long.
    pub closed spec fn wf(&self) -> bool {
        self.current_arena@.len() == 0 || self.current_arena@.len() == self.arena_size
    }

    /// A fresh allocator; nothing is allocated yet.
    pub fn new(arena_size: usize) -> (r: Self)
        ensures
            r.wf(),
            r.spec_arena_size() == arena_size,
            r.spec_pos() == 0,
            r.spec_completed() == 0,
    {
        ArenaAllocator {
            current_arena: Vec::with_capacity(arena_size),
            arena_size,
            current_pos: 0,
            completed_arenas: Vec::new(),
        }
    }

    /// Allocates `size` bytes, eight-byte aligned, and returns the byte
    /// offset into the current arena.  When the current arena cannot hold
    /// the request it is set aside and a fresh one begins, so the offset
    /// is then zero.
    pub fn allocate(&mut self, size: usize) -> (r: usize)
        requires
            old(self).wf(),
            old(self).spec_arena_size() >= 1,
            1 <= size,
            size + 7 <= usize::MAX,
        ensures
            final(self).wf(),
            final(self).spec_arena_size() == old(self).spec_arena_size(),
            ({
                let aligned = align8(size as int);
                if old(self).spec_pos() < old(self).current_len() && aligned <= old(self).current_len() - old(self).spec_pos() {
                    r == old(self).spec_pos() && final(self).spec_pos() == r + aligned && final(self).spec_completed() == old(self).spec_completed()
                } else {
                    r == 0 && final(self).spec_pos() == aligned && final(self).spec_completed()
                        == old(self).spec_completed() + 1
                }
            }),
    {
        let aligned = (size + 7) / 8 * 8;
        proof {
            assert(aligned >= 1);
        }
        if self.current_pos >= self.current_arena.len() || aligned > self.current_arena.len()
            - self.current_pos {
            let mut fresh: Vec<u8> = Vec::new();
            let mut k: usize = 0;
            while k < self.arena_size
                invariant
                    k <= self.arena_size,
                    fresh@.len() == k,
                decreases self.arena_size - k,
            {
                fresh.push(0);
                k = k + 1;
            }
            core::mem::swap(&mut self.current_arena, &mut fresh);
            self.completed_arenas.push(fresh);
            self.current_pos = 0;
        }
        let offset = self.current_pos;
        self.current_pos = self.current_pos + aligned;
        offset
    }

    /// The length of the current arena's buffer (zero until first use).
    pub closed spec fn current_len(&self) -> int {
        self.current_arena@.len() as int
    }

    /// Resets the arena: every allocation is discarded and the position
    /// returns to zero.
    pub fn reset(&mut self)
        ensures
            final(self).wf(),
            final(self).spec_arena_size() == old(self).spec_arena_size(),
            final(self).spec_pos() == 0,
            final(self).spec_completed() == 0,
            final(self).current_len() == 0,
    {
        self.current_arena.clear();
        self.completed_arenas.clear();
        self.current_pos = 0;
    }
}

} // verus!
