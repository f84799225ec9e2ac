//! Paged KV cache: a pool of fixed-size physical blocks and, per sequence, a
//! page table mapping logical blocks to physical ones.
use std::collections::{HashMap, HashSet, VecDeque};
use vstd::prelude::*;
use vstd::set_lib::{lemma_int_range, lemma_len_subset, set_int_range};

use crate::error::MemoryError;
use crate::types::{
    collect_block_table, fully_mapped, lemma_mapped_blocks_all_some, mapped_blocks,
    physical_indices, BlockIdx, LogicalBlock, MemoryStats, PhysicalBlockRef, SeqId,
};

verus! {

/// `ceil(n / d)`.
pub open spec fn ceil_div(n: int, d: int) -> int {
    (n + d - 1) / d
}

/// `ceil_div` in terms of the quotient and the remainder.
pub proof fn lemma_ceil_div(n: int, d: int)
    requires
        n >= 0,
        d > 0,
    ensures
        n % d == 0 ==> ceil_div(n, d) == n / d,
        n % d != 0 ==> ceil_div(n, d) == n / d + 1 && d >= 2 && n / d + 1 <= n,
        ceil_div(n, d) >= 0,
        ceil_div(n, d) * d >= n,
{
    let q = n / d;
    let r = n % d;
    vstd::arithmetic::div_mod::lemma_fundamental_div_mod(n, d);
    assert(n == d * q + r);
    assert(0 <= r < d);
    assert(q >= 0) by {
        vstd::arithmetic::div_mod::lemma_div_pos_is_pos(n, d);
    }
    if r == 0 {
        vstd::arithmetic::div_mod::lemma_fundamental_div_mod_converse(n + d - 1, d, q, d - 1);
        assert(q * d >= n) by (nonlinear_arith)
            requires
                n == d * q + r,
                r == 0,
        ;
    } else {
        assert(n + d - 1 == (q + 1) * d + (r - 1)) by (nonlinear_arith)
            requires
                n == d * q + r,
        ;
        vstd::arithmetic::div_mod::lemma_fundamental_div_mod_converse(n + d - 1, d, q + 1, r - 1);
        assert(q + 1 <= n) by (nonlinear_arith)
            requires
                n == d * q + r,
                r >= 1,
                r < d,
                q >= 0,
        ;
        assert((q + 1) * d >= n) by (nonlinear_arith)
            requires
                n == d * q + r,
                r < d,
        ;
    }
}

/// A sequence of distinct values below `n` has at most `n` elements.
pub proof fn lemma_distinct_below_len(s: Seq<u32>, n: nat)
    requires
        s.no_duplicates(),
        forall|j: int| 0 <= j < s.len() ==> s[j] < n,
    ensures
        s.len() <= n,
{
    let f = |x: u32| x as int;
    let t = s.map_values(f);
    assert forall|a: int, b: int| 0 <= a < t.len() && 0 <= b < t.len() && a != b implies t[a] != t[b] by {
        assert(s[a] != s[b]);
    }
    assert(t.no_duplicates());
    t.unique_seq_to_set();
    assert forall|x: int| t.to_set().contains(x) implies set_int_range(0, n as int).contains(x) by {
        let j = choose|j: int| 0 <= j < t.len() && t[j] == x;
        assert(s[j] < n);
    }
    lemma_int_range(0, n as int);
    lemma_len_subset(t.to_set(), set_int_range(0, n as int));
}

/// A sequence of distinct values below `n` that holds every value below `n`
/// has exactly `n` elements.
pub proof fn lemma_distinct_covering_len(s: Seq<u32>, n: nat)
    requires
        s.no_duplicates(),
        forall|j: int| 0 <= j < s.len() ==> s[j] < n,
        forall|x: u32| x < n ==> s.contains(x),
        n <= u32::MAX + 1,
    ensures
        s.len() == n,
{
    let f = |x: u32| x as int;
    let t = s.map_values(f);
    assert forall|a: int, b: int| 0 <= a < t.len() && 0 <= b < t.len() && a != b implies t[a] != t[b] by {
        assert(s[a] != s[b]);
    }
    assert(t.no_duplicates());
    t.unique_seq_to_set();
    assert forall|x: int| t.to_set().contains(x) <==> set_int_range(0, n as int).contains(x) by {
        if t.to_set().contains(x) {
            let j = choose|j: int| 0 <= j < t.len() && t[j] == x;
            assert(s[j] < n);
        }
        if 0 <= x < n {
            let y = x as u32;
            assert(s.contains(y));
            let j = choose|j: int| 0 <= j < s.len() && s[j] == y;
            assert(t[j] == x);
        }
    }
    assert(t.to_set() =~= set_int_range(0, n as int));
    lemma_int_range(0, n as int);
}

/// One physical block of GPU memory.
#[derive(Debug, Clone, Copy, PartialEq, Eq, Structural)]
pub struct PhysicalBlock {
    /// Index of this block in the pool.
    pub block_idx: BlockIdx,
    /// Number of holders of the block.
    pub ref_count: u32,
    /// Whether the block is handed out.
    pub is_allocated: bool,
}

impl PhysicalBlock {
    /// A free block.
    pub fn new(block_idx: BlockIdx) -> (b: Self)
        ensures
            b == (PhysicalBlock { block_idx, ref_count: 0, is_allocated: false }),
    {
        Self { block_idx, ref_count: 0, is_allocated: false }
    }
}

/// A pool of physical blocks with a FIFO free list.
#[derive(Debug)]
pub struct BlockPool {
    blocks: Vec<PhysicalBlock>,
    free_list: VecDeque<BlockIdx>,
    block_size: u32,
}

impl BlockPool {
    /// Number of blocks in the pool.
    pub closed spec fn total(&self) -> nat {
        self.blocks@.len()
    }

    /// The free list, front first.
    pub closed spec fn free_seq(&self) -> Seq<BlockIdx> {
        self.free_list@
    }

    /// Tokens per block.
    pub closed spec fn spec_block_size(&self) -> u32 {
        self.block_size
    }

    /// A block of the pool that is handed out.
    pub open spec fn is_allocated(&self, b: BlockIdx) -> bool {
        b < self.total() && !self.free_seq().contains(b)
    }

    /// The pool's invariant: each block knows its index and whether it is
    /// handed out, and the free list holds exactly the other blocks, once each.
    pub closed spec fn wf(&self) -> bool {
        &&& self.blocks@.len() <= u32::MAX
        &&& forall|i: int| 0 <= i < self.blocks@.len() ==> (#[trigger] self.blocks@[i]).block_idx == i
        &&& forall|i: int|
            0 <= i < self.blocks@.len() ==> (#[trigger] self.blocks@[i]).is_allocated
                == !self.free_list@.contains(i as u32)
        &&& forall|i: int|
            0 <= i < self.blocks@.len() ==> (#[trigger] self.blocks@[i]).ref_count == (if self.blocks@[i].is_allocated { 1u32 } else { 0u32 })
        &&& forall|j: int| 0 <= j < self.free_list@.len() ==> #[trigger] self.free_list@[j] < self.blocks@.len()
        &&& self.free_list@.no_duplicates()
    }

    /// The pool's facts that hold of every well-formed pool.
    pub proof fn lemma_wf_facts(&self)
        requires
            self.wf(),
        ensures
            self.total() <= u32::MAX,
            self.free_seq().no_duplicates(),
            forall|j: int| 0 <= j < self.free_seq().len() ==> #[trigger] self.free_seq()[j] < self.total(),
            self.free_seq().len() <= self.total(),
    {
        lemma_distinct_below_len(self.free_list@, self.blocks@.len());
    }

    /// Creates a pool of `num_blocks` free blocks, listed in index order.
    pub fn new(num_blocks: u32, block_size: u32) -> (pool: Self)
        ensures
            pool.wf(),
            pool.total() == num_blocks,
            pool.spec_block_size() == block_size,
            pool.free_seq() == Seq::new(num_blocks as nat, |i: int| i as u32),
    {
        let mut blocks: Vec<PhysicalBlock> = Vec::with_capacity(num_blocks as usize);
        let mut free_list: VecDeque<BlockIdx> = VecDeque::with_capacity(num_blocks as usize);
        let mut i: u32 = 0;
        while i < num_blocks
            invariant
                i <= num_blocks,
                blocks@.len() == i,
                free_list@ == Seq::new(i as nat, |k: int| k as u32),
                forall|k: int| 0 <= k < i ==> (#[trigger] blocks@[k]) == PhysicalBlock::new_spec(k as u32),
            decreases num_blocks - i,
        {
            blocks.push(PhysicalBlock::new(i));
            free_list.push_back(i);
            proof {
                assert(free_list@ =~= Seq::new((i + 1) as nat, |k: int| k as u32));
            }
            i = i + 1;
        }
        let pool = Self { blocks, free_list, block_size };
        proof {
            assert forall|k: int| 0 <= k < pool.blocks@.len() implies (#[trigger] pool.blocks@[k]).is_allocated
                == !pool.free_list@.contains(k as u32) by {
                assert(pool.free_list@[k] == k as u32);
            }
            assert forall|a: int, b: int|
                0 <= a < pool.free_list@.len() && 0 <= b < pool.free_list@.len() && a != b implies
                pool.free_list@[a] != pool.free_list@[b] by {}
        }
        pool
    }

    /// Takes the block at the front of the free list.
    pub fn allocate(&mut self) -> (r: Result<PhysicalBlockRef, MemoryError>)
        requires
            old(self).wf(),
        ensures
            final(self).wf(),
            final(self).total() == old(self).total(),
            final(self).spec_block_size() == old(self).spec_block_size(),
            match r {
                Ok(b) => {
                    &&& old(self).free_seq().len() > 0
                    &&& b.block_idx == old(self).free_seq()[0]
                    &&& final(self).free_seq() == old(self).free_seq().drop_first()
                },
                Err(e) => {
                    &&& old(self).free_seq().len() == 0
                    &&& e == MemoryError::OutOfBlocks
                    &&& final(self).free_seq() == old(self).free_seq()
                },
            },
    {
        match self.free_list.pop_front() {
            Some(block_idx) => {
                proof {
                    assert(old(self).free_list@[0] == block_idx);
                    assert(block_idx < self.blocks@.len());
                }
                self.blocks.set(
                    block_idx as usize,
                    PhysicalBlock { block_idx, ref_count: 1, is_allocated: true },
                );
                proof {
                    let old_free = old(self).free_list@;
                    assert(self.free_list@ =~= old_free.drop_first());
                    assert forall|k: int| 0 <= k < self.blocks@.len() implies (#[trigger] self.blocks@[k]).is_allocated
                        == !self.free_list@.contains(k as u32) by {
                        if k == block_idx as int {
                            if self.free_list@.contains(k as u32) {
                                let j = choose|j: int| 0 <= j < self.free_list@.len() && self.free_list@[j] == k as u32;
                                assert(old_free[j + 1] == old_free[0]);
                            }
                        } else {
                            assert(self.blocks@[k] == old(self).blocks@[k]);
                            if old_free.contains(k as u32) {
                                let j = choose|j: int| 0 <= j < old_free.len() && old_free[j] == k as u32;
                                assert(j != 0);
                                assert(self.free_list@[j - 1] == k as u32);
                            }
                            if self.free_list@.contains(k as u32) {
                                let j = choose|j: int| 0 <= j < self.free_list@.len() && self.free_list@[j] == k as u32;
                                assert(old_free[j + 1] == k as u32);
                            }
                        }
                    }
                }
                Ok(PhysicalBlockRef { block_idx })
            },
            None => Err(MemoryError::OutOfBlocks),
        }
    }

    /// Returns a block to the pool. Freeing a block that is already free
    /// changes nothing.
    pub fn free(&mut self, block_ref: PhysicalBlockRef) -> (r: Result<(), MemoryError>)
        requires
            old(self).wf(),
        ensures
            final(self).wf(),
            final(self).total() == old(self).total(),
            final(self).spec_block_size() == old(self).spec_block_size(),
            block_ref.block_idx >= old(self).total() ==> {
                &&& r == Err::<(), MemoryError>(MemoryError::InvalidBlockIndex(block_ref.block_idx))
                &&& final(self).free_seq() == old(self).free_seq()
            },
            block_ref.block_idx < old(self).total() ==> r is Ok,
            old(self).is_allocated(block_ref.block_idx) ==> final(self).free_seq()
                == old(self).free_seq().push(block_ref.block_idx),
            !old(self).is_allocated(block_ref.block_idx) ==> final(self).free_seq()
                == old(self).free_seq(),
    {
        let block_idx = block_ref.block_idx;
        if block_idx as usize >= self.blocks.len() {
            return Err(MemoryError::InvalidBlockIndex(block_idx));
        }
        let block = self.blocks[block_idx as usize];
        if !block.is_allocated {
            return Ok(());
        }
        let ref_count = block.ref_count.saturating_sub(1);
        if ref_count == 0 {
            self.blocks.set(
                block_idx as usize,
                PhysicalBlock { block_idx, ref_count: 0, is_allocated: false },
            );
            self.free_list.push_back(block_idx);
            proof {
                let old_free = old(self).free_list@;
                assert forall|k: int| 0 <= k < self.blocks@.len() implies (#[trigger] self.blocks@[k]).is_allocated
                    == !self.free_list@.contains(k as u32) by {
                    if k == block_idx as int {
                        assert(self.free_list@[old_free.len() as int] == block_idx);
                    } else {
                        assert(self.blocks@[k] == old(self).blocks@[k]);
                        if old_free.contains(k as u32) {
                            let j = choose|j: int| 0 <= j < old_free.len() && old_free[j] == k as u32;
                            assert(self.free_list@[j] == k as u32);
                        }
                        if self.free_list@.contains(k as u32) {
                            let j = choose|j: int| 0 <= j < self.free_list@.len() && self.free_list@[j] == k as u32;
                            assert(j < old_free.len());
                            assert(old_free[j] == k as u32);
                        }
                    }
                }
                assert forall|a: int, b: int|
                    0 <= a < self.free_list@.len() && 0 <= b < self.free_list@.len() && a != b implies
                    self.free_list@[a] != self.free_list@[b] by {
                    if a == old_free.len() as int {
                        assert(!old_free.contains(block_idx));
                        assert(old_free[b] == self.free_list@[b]);
                    } else if b == old_free.len() as int {
                        assert(!old_free.contains(block_idx));
                        assert(old_free[a] == self.free_list@[a]);
                    }
                }
            }
        } else {
            self.blocks.set(
                block_idx as usize,
                PhysicalBlock { block_idx, ref_count, is_allocated: true },
            );
        }
        Ok(())
    }

    /// Whether `num_blocks` blocks are free.
    pub fn can_allocate(&self, num_blocks: u32) -> (r: bool)
        requires
            self.wf(),
        ensures
            r == (self.free_seq().len() >= num_blocks),
    {
        self.free_list.len() >= num_blocks as usize
    }

    /// Number of free blocks.
    pub fn num_free_blocks(&self) -> (r: u32)
        requires
            self.wf(),
        ensures
            r == self.free_seq().len(),
    {
        proof {
            self.lemma_wf_facts();
        }
        self.free_list.len() as u32
    }

    /// Number of blocks in the pool.
    pub fn total_blocks(&self) -> (r: u32)
        requires
            self.wf(),
        ensures
            r == self.total(),
    {
        self.blocks.len() as u32
    }

    /// Number of blocks handed out.
    pub fn num_used_blocks(&self) -> (r: u32)
        requires
            self.wf(),
        ensures
            r == self.total() - self.free_seq().len(),
    {
        proof {
            self.lemma_wf_facts();
        }
        self.total_blocks() - self.num_free_blocks()
    }

    /// Tokens per block.
    pub fn block_size(&self) -> (r: u32)
        ensures
            r == self.spec_block_size(),
    {
        self.block_size
    }
}

impl PhysicalBlock {
    /// The value `new` returns.
    pub open spec fn new_spec(block_idx: BlockIdx) -> Self {
        PhysicalBlock { block_idx, ref_count: 0, is_allocated: false }
    }
}


/// The page table of one sequence: its logical blocks, in order.
#[derive(Debug, Clone)]
pub struct PageTable {
    /// The sequence this table belongs to.
    pub seq_id: SeqId,
    /// The logical blocks with their physical mappings.
    pub logical_blocks: Vec<LogicalBlock>,
}

impl PageTable {
    /// An empty page table.
    pub fn new(seq_id: SeqId) -> (pt: Self)
        ensures
            pt.seq_id == seq_id,
            pt.logical_blocks@ == Seq::<LogicalBlock>::empty(),
    {
        Self { seq_id, logical_blocks: Vec::new() }
    }

    /// Appends a logical block mapped to `physical_ref`, numbered by its position.
    pub fn add_block(&mut self, physical_ref: PhysicalBlockRef)
        ensures
            final(self).seq_id == old(self).seq_id,
            final(self).logical_blocks@ == old(self).logical_blocks@.push(
                LogicalBlock {
                    block_idx: old(self).logical_blocks@.len() as u32,
                    physical_block: Some(physical_ref),
                },
            ),
    {
        let logical_idx = self.logical_blocks.len() as u32;
        self.logical_blocks.push(LogicalBlock::with_physical(logical_idx, physical_ref));
    }

    /// The physical block of logical block `logical_idx`, if it exists and is mapped.
    pub fn get_physical(&self, logical_idx: u32) -> (r: Option<PhysicalBlockRef>)
        ensures
            r == (if logical_idx < self.logical_blocks@.len() {
                self.logical_blocks@[logical_idx as int].physical_block
            } else {
                None
            }),
    {
        if (logical_idx as usize) < self.logical_blocks.len() {
            self.logical_blocks[logical_idx as usize].physical_block
        } else {
            None
        }
    }

    /// The physical block indices, in logical order.
    pub fn get_block_table(&self) -> (r: Vec<BlockIdx>)
        ensures
            r@ == mapped_blocks(self.logical_blocks@),
    {
        collect_block_table(&self.logical_blocks)
    }

    /// Number of logical blocks.
    pub fn num_blocks(&self) -> (r: u32)
        ensures
            r == self.logical_blocks@.len() as u32,
    {
        self.logical_blocks.len() as u32
    }
}

/// The operations of a paged KV cache.
pub trait KVCacheManagerTrait {
    /// The cache's invariant.
    spec fn cache_inv(&self) -> bool;

    /// Tokens per block.
    spec fn tokens_per_block(&self) -> u32;

    /// Allocates blocks for `num_tokens` tokens of a new sequence.
    fn allocate_sequence(&mut self, seq_id: SeqId, num_tokens: u32) -> (r: Result<(), MemoryError>)
        requires
            old(self).cache_inv(),
            old(self).tokens_per_block() > 0,
        ensures
            final(self).cache_inv(),
            final(self).tokens_per_block() == old(self).tokens_per_block(),
    ;

    /// Appends one block to a sequence.
    fn allocate_block(&mut self, seq_id: SeqId) -> (r: Result<PhysicalBlockRef, MemoryError>)
        requires
            old(self).cache_inv(),
        ensures
            final(self).cache_inv(),
            final(self).tokens_per_block() == old(self).tokens_per_block(),
    ;

    /// Returns all blocks of a sequence to the pool.
    fn free_sequence(&mut self, seq_id: SeqId)
        requires
            old(self).cache_inv(),
        ensures
            final(self).cache_inv(),
            final(self).tokens_per_block() == old(self).tokens_per_block(),
    ;

    /// The physical block indices of a sequence.
    fn get_block_table(&self, seq_id: SeqId) -> Option<Vec<BlockIdx>>
        requires
            self.cache_inv(),
    ;

    /// Occupancy of the pool.
    fn get_memory_stats(&self) -> MemoryStats
        requires
            self.cache_inv(),
    ;

    /// Whether `num_blocks` blocks are free.
    fn can_allocate(&self, num_blocks: u32) -> bool
        requires
            self.cache_inv(),
    ;

    /// Tokens per block.
    fn block_size(&self) -> (r: u32)
        requires
            self.cache_inv(),
        ensures
            r == self.tokens_per_block(),
    ;
}

/// A paged KV cache: a block pool and one page table per active sequence.
pub struct KVCacheManager {
    block_pool: BlockPool,
    page_tables: HashMap<SeqId, PageTable>,
    active_sequences: HashSet<SeqId>,
    /// For each handed-out block, the sequence and position that hold it.
    owners: Ghost<Map<BlockIdx, (SeqId, int)>>,
}

impl KVCacheManager {
    /// The block pool.
    pub closed spec fn pool(&self) -> BlockPool {
        self.block_pool
    }

    /// Each active sequence's physical blocks, in logical order.
    pub closed spec fn tables(&self) -> Map<SeqId, Seq<BlockIdx>> {
        Map::new(
            |s: SeqId| self.page_tables@.contains_key(s),
            |s: SeqId| physical_indices(self.page_tables@[s].logical_blocks@),
        )
    }

    /// The block at position `i` of sequence `s`.
    pub closed spec fn blk(&self, s: SeqId, i: int) -> BlockIdx {
        self.page_tables@[s].logical_blocks@[i].physical_block.unwrap().block_idx
    }

    /// The cache's invariant: the active set is the set of page tables; each
    /// table is fully mapped; and every handed-out block of the pool is held
    /// by exactly one position of one table, while no table holds a free block.
    pub closed spec fn wf(&self) -> bool {
        &&& self.block_pool.wf()
        &&& self.page_tables@.dom() == self.active_sequences@
        &&& forall|s: SeqId|
            #[trigger] self.page_tables@.contains_key(s) ==> self.page_tables@[s].seq_id == s
                && fully_mapped(self.page_tables@[s].logical_blocks@)
        &&& forall|b: BlockIdx| #[trigger]
            self.owners@.contains_key(b) <==> self.block_pool.is_allocated(b)
        &&& forall|b: BlockIdx| #[trigger]
            self.owners@.contains_key(b) ==> {
                let (s, i) = self.owners@[b];
                &&& self.page_tables@.contains_key(s)
                &&& 0 <= i < self.page_tables@[s].logical_blocks@.len()
                &&& self.blk(s, i) == b
            }
        &&& forall|s: SeqId, i: int|
            self.page_tables@.contains_key(s) && 0 <= i < self.page_tables@[s].logical_blocks@.len()
                ==> self.owners@.contains_key(#[trigger] self.blk(s, i)) && self.owners@[self.blk(
                s,
                i,
            )] == (s, i)
    }

    /// Facts that follow from the invariant.
    pub proof fn lemma_wf_facts(&self)
        requires
            self.wf(),
        ensures
            self.pool().wf(),
            self.pool().total() <= u32::MAX,
            forall|s: SeqId| #[trigger]
                self.tables().contains_key(s) ==> self.tables()[s].len() <= self.pool().total(),
            forall|s: SeqId, i: int|
                #![trigger self.tables()[s][i]]
                self.tables().contains_key(s) && 0 <= i < self.tables()[s].len()
                    ==> self.pool().is_allocated(self.tables()[s][i]),
    {
        self.block_pool.lemma_wf_facts();
        assert forall|s: SeqId| #[trigger] self.tables().contains_key(s) implies self.tables()[s].len()
            <= self.pool().total() by {
            self.lemma_table_bound(s);
        }
        assert forall|s: SeqId, i: int|
            #![trigger self.tables()[s][i]]
            self.tables().contains_key(s) && 0 <= i < self.tables()[s].len() implies self.pool().is_allocated(
            self.tables()[s][i],
        ) by {
            assert(self.tables()[s][i] == self.blk(s, i));
        }
    }

    proof fn lemma_table_bound(&self, s: SeqId)
        requires
            self.wf(),
            self.page_tables@.contains_key(s),
        ensures
            self.page_tables@[s].logical_blocks@.len() <= self.block_pool.total(),
            self.tables()[s].len() == self.page_tables@[s].logical_blocks@.len(),
    {
        let t = self.tables()[s];
        assert forall|a: int, b: int| 0 <= a < t.len() && 0 <= b < t.len() && a != b implies t[a] != t[b] by {
            assert(t[a] == self.blk(s, a));
            assert(t[b] == self.blk(s, b));
        }
        assert forall|j: int| 0 <= j < t.len() implies t[j] < self.block_pool.total() by {
            assert(t[j] == self.blk(s, j));
        }
        lemma_distinct_below_len(t, self.block_pool.total());
    }

    /// An empty cache over a pool of `num_blocks` blocks.
    pub fn new(num_blocks: u32, block_size: u32) -> (m: Self)
        ensures
            m.wf(),
            m.tables() == Map::<SeqId, Seq<BlockIdx>>::empty(),
            m.pool().total() == num_blocks,
            m.pool().spec_block_size() == block_size,
            m.pool().free_seq() == Seq::new(num_blocks as nat, |i: int| i as u32),
    {
        let m = Self {
            block_pool: BlockPool::new(num_blocks, block_size),
            page_tables: HashMap::new(),
            active_sequences: HashSet::new(),
            owners: Ghost(Map::empty()),
        };
        proof {
            assert forall|b: BlockIdx| #[trigger] m.owners@.contains_key(b) <==> m.block_pool.is_allocated(b) by {
                if b < num_blocks {
                    assert(m.block_pool.free_seq()[b as int] == b);
                }
            }
            assert(m.tables() =~= Map::<SeqId, Seq<BlockIdx>>::empty());
        }
        m
    }

    /// Number of blocks that `num_tokens` tokens occupy: `ceil(num_tokens / block_size)`.
    pub fn blocks_for_tokens(&self, num_tokens: u32) -> (r: u32)
        requires
            self.pool().spec_block_size() > 0,
        ensures
            r == ceil_div(num_tokens as int, self.pool().spec_block_size() as int),
    {
        let bs = self.block_pool.block_size();
        let q = num_tokens / bs;
        proof {
            lemma_ceil_div(num_tokens as int, bs as int);
        }
        if num_tokens % bs == 0 {
            q
        } else {
            q + 1
        }
    }

    /// Whether the sequence has a page table.
    pub fn has_sequence(&self, seq_id: SeqId) -> (r: bool)
        requires
            self.wf(),
        ensures
            r == self.tables().contains_key(seq_id),
    {
        self.active_sequences.contains(&seq_id)
    }

    /// Number of blocks of the sequence, 0 when it has none.
    pub fn get_sequence_blocks(&self, seq_id: SeqId) -> (r: u32)
        requires
            self.wf(),
        ensures
            r == (if self.tables().contains_key(seq_id) {
                self.tables()[seq_id].len()
            } else {
                0
            }),
    {
        match self.page_tables.get(&seq_id) {
            Some(pt) => {
                proof {
                    self.lemma_table_bound(seq_id);
                    self.block_pool.lemma_wf_facts();
                }
                pt.num_blocks()
            },
            None => 0,
        }
    }
}


/// The positions `(sequence, logical index)` that the page tables hold.
pub open spec fn held_positions(tables: Map<SeqId, Seq<BlockIdx>>) -> Set<(SeqId, int)> {
    Set::new(|p: (SeqId, int)| tables.contains_key(p.0) && 0 <= p.1 < tables[p.0].len())
}

impl KVCacheManager {
    /// No block is held twice: two positions of the page tables that hold the
    /// same block are the same position of the same sequence.
    pub proof fn law_blocks_exclusive(&self, s1: SeqId, i: int, s2: SeqId, j: int)
        requires
            self.wf(),
            self.tables().contains_key(s1),
            self.tables().contains_key(s2),
            0 <= i < self.tables()[s1].len(),
            0 <= j < self.tables()[s2].len(),
            self.tables()[s1][i] == self.tables()[s2][j],
        ensures
            s1 == s2,
            i == j,
    {
        self.lemma_table_bound(s1);
        self.lemma_table_bound(s2);
        assert(self.tables()[s1][i] == self.blk(s1, i));
        assert(self.tables()[s2][j] == self.blk(s2, j));
        assert(self.owners@[self.blk(s1, i)] == (s1, i));
        assert(self.owners@[self.blk(s2, j)] == (s2, j));
    }

    /// With no active sequence the whole pool is free: memory returns to its
    /// baseline once every sequence has finished.
    pub proof fn law_idle_pool_free(&self)
        requires
            self.wf(),
            self.tables().dom() == Set::<SeqId>::empty(),
        ensures
            self.pool().free_seq().len() == self.pool().total(),
    {
        self.pool().lemma_wf_facts();
        assert forall|x: u32| x < self.pool().total() implies self.pool().free_seq().contains(x) by {
            self.law_pool_partition(x);
            if self.pool().is_allocated(x) {
                let (s, i) = choose|s: SeqId, i: int|
                    #![trigger self.tables()[s][i]]
                    self.tables().contains_key(s) && 0 <= i < self.tables()[s].len() && self.tables()[s][i] == x;
                assert(self.tables().dom().contains(s));
            }
        }
        lemma_distinct_covering_len(self.pool().free_seq(), self.pool().total());
    }

    /// The used blocks are exactly as many as the positions the live page
    /// tables hold, that is the sum of the tables' lengths.
    pub proof fn law_used_blocks_are_held(&self)
        requires
            self.wf(),
        ensures
            held_positions(self.tables()).finite(),
            held_positions(self.tables()).len() == self.pool().total() - self.pool().free_seq().len(),
    {
        self.lemma_wf_facts();
        let total = self.pool().total();
        let free = self.pool().free_seq();
        let range = set_int_range(0, total as int);
        let free_ints = free.to_set().map(|b: u32| b as int);
        let used_ints = Set::new(|i: int| 0 <= i < total && !free.contains(i as u32));
        lemma_int_range(0, total as int);
        free.unique_seq_to_set();
        vstd::set_lib::lemma_map_size(free.to_set(), free_ints, |b: u32| b as int);
        assert forall|i: int| free_ints.contains(i) implies range.contains(i) by {
            let b = choose|b: u32| free.to_set().contains(b) && b as int == i;
            let j = choose|j: int| 0 <= j < free.len() && free[j] == b;
        }
        assert(used_ints + free_ints =~= range) by {
            assert forall|i: int| range.contains(i) && !used_ints.contains(i) implies free_ints.contains(i) by {
                assert(free.to_set().contains(i as u32));
            }
        }
        lemma_len_subset(used_ints, range);
        vstd::set_lib::lemma_set_disjoint_lens(used_ints, free_ints);
        assert(used_ints.disjoint(free_ints));
        let place = |i: int| self.owners@[i as u32];
        let held = held_positions(self.tables());
        assert forall|i1: int, i2: int|
            used_ints.contains(i1) && used_ints.contains(i2) && #[trigger] place(i1) == #[trigger] place(i2) implies i1
            == i2 by {
            assert(self.pool().is_allocated(i1 as u32));
            assert(self.pool().is_allocated(i2 as u32));
            assert(self.owners@.contains_key(i1 as u32));
            assert(self.owners@.contains_key(i2 as u32));
        }
        assert(used_ints.map(place) =~= held) by {
            assert forall|p: (SeqId, int)| held.contains(p) implies used_ints.map(place).contains(p) by {
                let (s, k) = p;
                self.lemma_table_bound(s);
                let b = self.blk(s, k);
                assert(self.tables()[s][k] == b);
                assert(self.owners@.contains_key(b));
                assert(used_ints.contains(b as int));
                assert(place(b as int) == p);
            }
            assert forall|p: (SeqId, int)| used_ints.map(place).contains(p) implies held.contains(p) by {
                let i = choose|i: int| used_ints.contains(i) && place(i) == p;
                assert(self.pool().is_allocated(i as u32));
                assert(self.owners@.contains_key(i as u32));
                let (s, k) = self.owners@[i as u32];
                self.lemma_table_bound(s);
            }
        }
        vstd::set_lib::lemma_map_size(used_ints, held, place);
    }

    /// The pool is split between the free list and the page tables: a block
    /// that a table holds is handed out, and every handed-out block is held
    /// by some position of some table.
    pub proof fn law_pool_partition(&self, b: BlockIdx)
        requires
            self.wf(),
        ensures
            self.pool().is_allocated(b) <==> exists|s: SeqId, i: int|
                #![trigger self.tables()[s][i]]
                self.tables().contains_key(s) && 0 <= i < self.tables()[s].len() && self.tables()[s][i] == b,
    {
        self.lemma_wf_facts();
        if self.pool().is_allocated(b) {
            assert(self.owners@.contains_key(b));
            let (s, i) = self.owners@[b];
            self.lemma_table_bound(s);
            assert(self.tables()[s][i] == self.blk(s, i));
            assert(self.tables().contains_key(s) && 0 <= i < self.tables()[s].len() && self.tables()[s][i] == b);
        }
    }
}

impl KVCacheManagerTrait for KVCacheManager {
    open spec fn cache_inv(&self) -> bool {
        self.wf()
    }

    open spec fn tokens_per_block(&self) -> u32 {
        self.pool().spec_block_size()
    }

    /// An already active sequence is left as it is. Otherwise the sequence
    /// receives the first `ceil(num_tokens / block_size)` blocks of the free
    /// list, or nothing changes when there are not that many.
    fn allocate_sequence(&mut self, seq_id: SeqId, num_tokens: u32) -> (r: Result<(), MemoryError>)
        ensures
            final(self).pool().total() == old(self).pool().total(),
            final(self).pool().spec_block_size() == old(self).pool().spec_block_size(),
            ({
                let nb = ceil_div(num_tokens as int, old(self).pool().spec_block_size() as int);
                let free = old(self).pool().free_seq();
                if old(self).tables().contains_key(seq_id) {
                    &&& r is Ok
                    &&& final(self).tables() == old(self).tables()
                    &&& final(self).pool().free_seq() == free
                } else if free.len() < nb {
                    &&& r == Err::<(), MemoryError>(MemoryError::OutOfBlocks)
                    &&& final(self).tables() == old(self).tables()
                    &&& final(self).pool().free_seq() == free
                } else {
                    &&& r is Ok
                    &&& final(self).tables() == old(self).tables().insert(seq_id, free.take(nb))
                    &&& final(self).pool().free_seq() == free.skip(nb)
                }
            }),
    {
        if self.active_sequences.contains(&seq_id) {
            return Ok(());
        }
        let num_blocks = self.blocks_for_tokens(num_tokens);
        if !self.block_pool.can_allocate(num_blocks) {
            return Err(MemoryError::OutOfBlocks);
        }
        let ghost free0 = self.block_pool.free_seq();
        let ghost owners0 = self.owners@;
        let ghost tables0 = self.tables();
        let mut page_table = PageTable::new(seq_id);
        let mut k: u32 = 0;
        while k < num_blocks
            invariant
                k <= num_blocks,
                num_blocks <= free0.len(),
                self.block_pool.wf(),
                self.block_pool.total() == old(self).block_pool.total(),
                self.block_pool.spec_block_size() == old(self).block_pool.spec_block_size(),
                self.block_pool.free_seq() == free0.skip(k as int),
                free0 == old(self).block_pool.free_seq(),
                old(self).block_pool.wf(),
                page_table.seq_id == seq_id,
                fully_mapped(page_table.logical_blocks@),
                page_table.logical_blocks@.len() == k,
                physical_indices(page_table.logical_blocks@) == free0.take(k as int),
                self.page_tables == old(self).page_tables,
                self.active_sequences == old(self).active_sequences,
                self.owners == old(self).owners,
            decreases num_blocks - k,
        {
            proof {
                self.block_pool.lemma_wf_facts();
            }
            let physical_ref = match self.block_pool.allocate() {
                Ok(b) => b,
                Err(e) => {
                    proof {
                        assert(false);
                    }
                    return Err(e);
                },
            };
            let ghost before = page_table.logical_blocks@;
            page_table.add_block(physical_ref);
            proof {
                assert(before.len() == k);
                assert(physical_indices(page_table.logical_blocks@) =~= free0.take(k + 1));
                assert(free0.skip(k as int).drop_first() =~= free0.skip(k + 1));
            }
            k = k + 1;
        }
        proof {
            old(self).block_pool.lemma_wf_facts();
        }
        let ghost new_blocks = free0.take(num_blocks as int);
        self.page_tables.insert(seq_id, page_table);
        self.active_sequences.insert(seq_id);
        proof {
            let new_owners = Map::new(
                |b: BlockIdx| owners0.contains_key(b) || new_blocks.contains(b),
                |b: BlockIdx|
                    if owners0.contains_key(b) {
                        owners0[b]
                    } else {
                        (seq_id, choose|j: int| 0 <= j < new_blocks.len() && new_blocks[j] == b)
                    },
            );
            self.owners = Ghost(new_owners);
            // Blocks taken from the free list were free, hence owned by no one.
            assert forall|j: int| 0 <= j < new_blocks.len() implies !owners0.contains_key(
                #[trigger] new_blocks[j],
            ) by {
                assert(free0[j] == new_blocks[j]);
                assert(free0.contains(new_blocks[j]));
            }
            assert forall|b: BlockIdx| #[trigger]
                self.owners@.contains_key(b) <==> self.block_pool.is_allocated(b) by {
                if new_blocks.contains(b) {
                    let j = choose|j: int| 0 <= j < new_blocks.len() && new_blocks[j] == b;
                    assert(free0[j] == b);
                    if self.block_pool.free_seq().contains(b) {
                        let m = choose|m: int| 0 <= m < self.block_pool.free_seq().len() && self.block_pool.free_seq()[m] == b;
                        assert(free0[m + num_blocks] == b);
                    }
                } else {
                    if free0.contains(b) {
                        let m = choose|m: int| 0 <= m < free0.len() && free0[m] == b;
                        if m < num_blocks {
                            assert(new_blocks[m] == b);
                        } else {
                            assert(self.block_pool.free_seq()[m - num_blocks] == b);
                        }
                    }
                    if self.block_pool.free_seq().contains(b) {
                        let m = choose|m: int| 0 <= m < self.block_pool.free_seq().len() && self.block_pool.free_seq()[m] == b;
                        assert(free0[m + num_blocks] == b);
                    }
                }
            }
            assert forall|b: BlockIdx| #[trigger] self.owners@.contains_key(b) implies {
                let (s, i) = self.owners@[b];
                &&& self.page_tables@.contains_key(s)
                &&& 0 <= i < self.page_tables@[s].logical_blocks@.len()
                &&& self.blk(s, i) == b
            } by {
                if owners0.contains_key(b) {
                    let (s, i) = owners0[b];
                    assert(old(self).blk(s, i) == b);
                    assert(s != seq_id);
                    assert(self.page_tables@[s] == old(self).page_tables@[s]);
                } else {
                    let j = choose|j: int| 0 <= j < new_blocks.len() && new_blocks[j] == b;
                    assert(physical_indices(self.page_tables@[seq_id].logical_blocks@)[j] == b);
                }
            }
            assert forall|s: SeqId, i: int|
                self.page_tables@.contains_key(s) && 0 <= i < self.page_tables@[s].logical_blocks@.len()
                    implies self.owners@.contains_key(#[trigger] self.blk(s, i)) && self.owners@[self.blk(
                s,
                i,
            )] == (s, i) by {
                if s == seq_id {
                    let b = self.blk(s, i);
                    assert(physical_indices(self.page_tables@[seq_id].logical_blocks@)[i] == b);
                    assert(new_blocks[i] == b);
                    assert(!owners0.contains_key(b));
                    let j = choose|j: int| 0 <= j < new_blocks.len() && new_blocks[j] == b;
                    assert(free0[i] == free0[j]);
                } else {
                    assert(self.page_tables@[s] == old(self).page_tables@[s]);
                    assert(self.blk(s, i) == old(self).blk(s, i));
                }
            }
            assert(self.tables() =~= tables0.insert(seq_id, new_blocks));
        }
        Ok(())
    }

    /// Appends the front block of the free list to an active sequence.
    fn allocate_block(&mut self, seq_id: SeqId) -> (r: Result<PhysicalBlockRef, MemoryError>)
        ensures
            final(self).pool().total() == old(self).pool().total(),
            final(self).pool().spec_block_size() == old(self).pool().spec_block_size(),
            !old(self).tables().contains_key(seq_id) ==> {
                &&& r == Err::<PhysicalBlockRef, MemoryError>(MemoryError::SequenceNotFound(seq_id))
                &&& final(self).tables() == old(self).tables()
                &&& final(self).pool().free_seq() == old(self).pool().free_seq()
            },
            old(self).tables().contains_key(seq_id) && old(self).pool().free_seq().len() == 0 ==> {
                &&& r == Err::<PhysicalBlockRef, MemoryError>(MemoryError::OutOfBlocks)
                &&& final(self).tables() == old(self).tables()
                &&& final(self).pool().free_seq() == old(self).pool().free_seq()
            },
            old(self).tables().contains_key(seq_id) && old(self).pool().free_seq().len() > 0 ==> {
                let b = old(self).pool().free_seq()[0];
                &&& r == Ok::<PhysicalBlockRef, MemoryError>(PhysicalBlockRef { block_idx: b })
                &&& final(self).tables() == old(self).tables().insert(
                    seq_id,
                    old(self).tables()[seq_id].push(b),
                )
                &&& final(self).pool().free_seq() == old(self).pool().free_seq().drop_first()
            },
    {
        if !self.active_sequences.contains(&seq_id) {
            return Err(MemoryError::SequenceNotFound(seq_id));
        }
        let ghost owners0 = self.owners@;
        let ghost tables0 = self.tables();
        proof {
            self.block_pool.lemma_wf_facts();
            self.lemma_table_bound(seq_id);
        }
        let physical_ref = match self.block_pool.allocate() {
            Ok(b) => b,
            Err(e) => {
                proof {
                    assert forall|bb: BlockIdx| #[trigger]
                        self.owners@.contains_key(bb) <==> self.block_pool.is_allocated(bb) by {
                        assert(old(self).block_pool.is_allocated(bb) == self.block_pool.is_allocated(bb));
                    }
                    assert(self.tables() =~= tables0);
                    assert(self.block_pool.wf());
                    assert(self.page_tables@.dom() == self.active_sequences@);
                    assert forall|s: SeqId, i: int| #[trigger] self.blk(s, i) == old(self).blk(s, i) by {}
                    assert(self.wf());
                }
                return Err(e);
            },
        };
        let b = physical_ref.block_idx;
        let ghost free0 = old(self).block_pool.free_seq();
        proof {
            assert(free0[0] == b);
            assert(free0.contains(b));
            assert(!owners0.contains_key(b));
        }
        let mut page_table = match self.page_tables.remove(&seq_id) {
            Some(pt) => pt,
            None => {
                proof {
                    assert(false);
                }
                return Err(MemoryError::SequenceNotFound(seq_id));
            },
        };
        let ghost old_len = page_table.logical_blocks@.len();
        proof {
            // The table's blocks and `b` are distinct blocks of the pool.
            let t = tables0[seq_id].push(b);
            assert forall|x: int, y: int| 0 <= x < t.len() && 0 <= y < t.len() && x != y implies t[x]
                != t[y] by {
                if x < old_len && y < old_len {
                    assert(t[x] == old(self).blk(seq_id, x));
                    assert(t[y] == old(self).blk(seq_id, y));
                } else if x < old_len {
                    assert(t[x] == old(self).blk(seq_id, x));
                    assert(owners0.contains_key(t[x]));
                } else {
                    assert(t[y] == old(self).blk(seq_id, y));
                    assert(owners0.contains_key(t[y]));
                }
            }
            assert forall|j: int| 0 <= j < t.len() implies t[j] < old(self).block_pool.total() by {
                if j < old_len {
                    assert(t[j] == old(self).blk(seq_id, j));
                }
            }
            lemma_distinct_below_len(t, old(self).block_pool.total());
        }
        page_table.add_block(physical_ref);
        self.page_tables.insert(seq_id, page_table);
        proof {
            self.owners = Ghost(owners0.insert(b, (seq_id, old_len as int)));
            assert forall|bb: BlockIdx| #[trigger]
                self.owners@.contains_key(bb) <==> self.block_pool.is_allocated(bb) by {
                let f = self.block_pool.free_seq();
                if bb != b {
                    if free0.contains(bb) {
                        let m = choose|m: int| 0 <= m < free0.len() && free0[m] == bb;
                        assert(f[m - 1] == bb);
                    }
                    if f.contains(bb) {
                        let m = choose|m: int| 0 <= m < f.len() && f[m] == bb;
                        assert(free0[m + 1] == bb);
                    }
                } else {
                    if f.contains(bb) {
                        let m = choose|m: int| 0 <= m < f.len() && f[m] == bb;
                        assert(free0[m + 1] == bb);
                    }
                }
            }
            assert forall|bb: BlockIdx| #[trigger] self.owners@.contains_key(bb) implies {
                let (s, i) = self.owners@[bb];
                &&& self.page_tables@.contains_key(s)
                &&& 0 <= i < self.page_tables@[s].logical_blocks@.len()
                &&& self.blk(s, i) == bb
            } by {
                if bb != b {
                    let (s, i) = owners0[bb];
                    assert(old(self).blk(s, i) == bb);
                    if s == seq_id {
                        assert(self.page_tables@[s].logical_blocks@[i] == old(self).page_tables@[s].logical_blocks@[i]);
                    } else {
                        assert(self.page_tables@[s] == old(self).page_tables@[s]);
                    }
                }
            }
            assert forall|s: SeqId, i: int|
                self.page_tables@.contains_key(s) && 0 <= i < self.page_tables@[s].logical_blocks@.len()
                    implies self.owners@.contains_key(#[trigger] self.blk(s, i)) && self.owners@[self.blk(
                s,
                i,
            )] == (s, i) by {
                if s == seq_id && i == old_len {
                } else if s == seq_id {
                    assert(self.page_tables@[s].logical_blocks@[i] == old(self).page_tables@[s].logical_blocks@[i]);
                    assert(self.blk(s, i) == old(self).blk(s, i));
                } else {
                    assert(self.page_tables@[s] == old(self).page_tables@[s]);
                    assert(self.blk(s, i) == old(self).blk(s, i));
                }
            }
            assert(physical_indices(self.page_tables@[seq_id].logical_blocks@) =~= tables0[seq_id].push(b));
            assert forall|s: SeqId| #[trigger] self.tables().contains_key(s) && s != seq_id implies self.tables()[s]
                == tables0[s] by {
                assert(self.page_tables@[s] == old(self).page_tables@[s]);
            }
            assert(self.tables() =~= tables0.insert(seq_id, tables0[seq_id].push(b)));
        }
        Ok(physical_ref)
    }

    /// Removes the sequence's page table and returns its blocks, in logical
    /// order, to the back of the free list.
    fn free_sequence(&mut self, seq_id: SeqId)
        ensures
            final(self).pool().total() == old(self).pool().total(),
            final(self).pool().spec_block_size() == old(self).pool().spec_block_size(),
            final(self).tables() == old(self).tables().remove(seq_id),
            old(self).tables().contains_key(seq_id) ==> final(self).pool().free_seq()
                == old(self).pool().free_seq() + old(self).tables()[seq_id],
            !old(self).tables().contains_key(seq_id) ==> final(self).pool().free_seq()
                == old(self).pool().free_seq(),
    {
        let ghost owners0 = self.owners@;
        let ghost tables0 = self.tables();
        let ghost free0 = self.block_pool.free_seq();
        match self.page_tables.remove(&seq_id) {
            Some(page_table) => {
                let ghost blocks = tables0[seq_id];
                proof {
                    assert(page_table == old(self).page_tables@[seq_id]);
                    assert(blocks == physical_indices(page_table.logical_blocks@));
                    assert forall|j: int| 0 <= j < blocks.len() implies self.block_pool.is_allocated(#[trigger] blocks[j]) by {
                        assert(blocks[j] == old(self).blk(seq_id, j));
                    }
                    assert(free0 + blocks.take(0) =~= free0);
                }
                let mut k: usize = 0;
                while k < page_table.logical_blocks.len()
                    invariant
                        k <= page_table.logical_blocks@.len(),
                        page_table == old(self).page_tables@[seq_id],
                        blocks == physical_indices(page_table.logical_blocks@),
                        fully_mapped(page_table.logical_blocks@),
                        self.block_pool.wf(),
                        self.block_pool.total() == old(self).block_pool.total(),
                        self.block_pool.spec_block_size() == old(self).block_pool.spec_block_size(),
                        self.block_pool.free_seq() == free0 + blocks.take(k as int),
                        free0 == old(self).block_pool.free_seq(),
                        old(self).wf(),
                        old(self).page_tables@.contains_key(seq_id),
                        owners0 == old(self).owners@,
                        self.page_tables@ == old(self).page_tables@.remove(seq_id),
                        self.active_sequences == old(self).active_sequences,
                        self.owners == old(self).owners,
                        forall|j: int| k <= j < blocks.len() ==> self.block_pool.is_allocated(#[trigger] blocks[j]),
                    decreases page_table.logical_blocks@.len() - k,
                {
                    let lb = page_table.logical_blocks[k];
                    proof {
                        assert(blocks[k as int] == lb.physical_block.unwrap().block_idx);
                        assert(blocks[k as int] == old(self).blk(seq_id, k as int));
                    }
                    match lb.physical_block {
                        Some(physical_ref) => {
                            let _ = self.block_pool.free(physical_ref);
                        },
                        None => {},
                    }
                    proof {
                        assert(free0 + blocks.take(k + 1) =~= (free0 + blocks.take(k as int)).push(blocks[k as int]));
                        assert forall|j: int| k + 1 <= j < blocks.len() implies self.block_pool.is_allocated(#[trigger] blocks[j]) by {
                            assert(blocks[j] == old(self).blk(seq_id, j));
                            assert(blocks[j] != blocks[k as int]);
                            let f = self.block_pool.free_seq();
                            if f.contains(blocks[j]) {
                                let m = choose|m: int| 0 <= m < f.len() && f[m] == blocks[j];
                                if m < f.len() - 1 {
                                    let prev = free0 + blocks.take(k as int);
                                    assert(prev[m] == blocks[j]);
                                }
                            }
                        }
                    }
                    k = k + 1;
                }
                proof {
                    assert(blocks.take(blocks.len() as int) =~= blocks);
                }
            },
            None => {},
        }
        self.active_sequences.remove(&seq_id);
        proof {
            let new_owners = owners0.remove_keys(
                Set::new(|b: BlockIdx| owners0.contains_key(b) && owners0[b].0 == seq_id),
            );
            self.owners = Ghost(new_owners);
            let f = self.block_pool.free_seq();
            if tables0.contains_key(seq_id) {
                let blocks = tables0[seq_id];
                assert forall|b: BlockIdx| #[trigger]
                    self.owners@.contains_key(b) <==> self.block_pool.is_allocated(b) by {
                    if owners0.contains_key(b) && owners0[b].0 == seq_id {
                        let i = owners0[b].1;
                        assert(old(self).blk(seq_id, i) == b);
                        assert(blocks[i] == b);
                        assert(f[free0.len() + i] == b);
                    } else if owners0.contains_key(b) {
                        assert(!free0.contains(b));
                        if f.contains(b) {
                            let m = choose|m: int| 0 <= m < f.len() && f[m] == b;
                            if m >= free0.len() {
                                let j = m - free0.len();
                                assert(blocks[j] == b);
                                assert(old(self).blk(seq_id, j) == b);
                            } else {
                                assert(free0[m] == b);
                            }
                        }
                    } else {
                        if b < self.block_pool.total() {
                            assert(free0.contains(b));
                            let m = choose|m: int| 0 <= m < free0.len() && free0[m] == b;
                            assert(f[m] == b);
                        }
                    }
                }
            } else {
                assert(f == free0);
                assert forall|b: BlockIdx| #[trigger]
                    self.owners@.contains_key(b) <==> self.block_pool.is_allocated(b) by {
                    if owners0.contains_key(b) {
                        assert(owners0[b].0 != seq_id);
                    }
                }
            }
            assert forall|b: BlockIdx| #[trigger] self.owners@.contains_key(b) implies {
                let (s, i) = self.owners@[b];
                &&& self.page_tables@.contains_key(s)
                &&& 0 <= i < self.page_tables@[s].logical_blocks@.len()
                &&& self.blk(s, i) == b
            } by {
                let (s, i) = owners0[b];
                assert(self.owners@[b] == owners0[b]);
                assert(s != seq_id);
                assert(old(self).blk(s, i) == b);
                assert(self.page_tables@[s] == old(self).page_tables@[s]);
            }
            assert forall|s: SeqId, i: int|
                self.page_tables@.contains_key(s) && 0 <= i < self.page_tables@[s].logical_blocks@.len()
                    implies self.owners@.contains_key(#[trigger] self.blk(s, i)) && self.owners@[self.blk(
                s,
                i,
            )] == (s, i) by {
                assert(self.page_tables@[s] == old(self).page_tables@[s]);
                assert(self.blk(s, i) == old(self).blk(s, i));
            }
            assert(self.tables() =~= tables0.remove(seq_id));
        }
    }

    /// The sequence's physical blocks, if it is active.
    fn get_block_table(&self, seq_id: SeqId) -> (r: Option<Vec<BlockIdx>>)
        ensures
            r is Some <==> self.tables().contains_key(seq_id),
            r is Some ==> r.unwrap()@ == self.tables()[seq_id],
    {
        match self.page_tables.get(&seq_id) {
            Some(pt) => {
                proof {
                    lemma_mapped_blocks_all_some(pt.logical_blocks@);
                }
                Some(pt.get_block_table())
            },
            None => None,
        }
    }

    /// Total, used and free blocks, and the number of active sequences.
    fn get_memory_stats(&self) -> (r: MemoryStats)
        ensures
            r.total_blocks == self.pool().total(),
            r.free_blocks == self.pool().free_seq().len(),
            r.used_blocks == self.pool().total() - self.pool().free_seq().len(),
            r.num_sequences == self.tables().len() as u32,
    {
        proof {
            assert(self.tables().dom() =~= self.active_sequences@);
        }
        MemoryStats {
            total_blocks: self.block_pool.total_blocks(),
            used_blocks: self.block_pool.num_used_blocks(),
            free_blocks: self.block_pool.num_free_blocks(),
            num_sequences: self.active_sequences.len() as u32,
        }
    }

    /// Whether `num_blocks` blocks are free.
    fn can_allocate(&self, num_blocks: u32) -> (r: bool)
        ensures
            r == (self.pool().free_seq().len() >= num_blocks),
    {
        self.block_pool.can_allocate(num_blocks)
    }

    /// Tokens per block.
    fn block_size(&self) -> (r: u32)
        ensures
            r == self.pool().spec_block_size(),
    {
        self.block_pool.block_size()
    }
}

} // verus!
