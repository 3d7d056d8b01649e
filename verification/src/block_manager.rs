//! Paged KV-cache block manager with reference counting and prefix caching.
//!
//! Physical blocks are handed out from a free list. Full blocks of a prompt
//! whose content was already computed are shared through the prefix cache,
//! keyed by a hash of the block's tokens; every sharer holds one reference.
pub mod hashing;
pub mod history;
pub mod plan;
pub mod refs;
pub mod steps;

use std::collections::hash_map::DefaultHasher;
use std::collections::HashMap;
use std::collections::VecDeque;
use std::hash::Hasher;
use vstd::multiset::Multiset;
use vstd::prelude::*;
use crate::types::{BlockId, ContentHash, RequestId, TokenId};
use hashing::{chunk_hash, le_bytes, push_le_bytes, token_hash, tokens_le_bytes};
use plan::{
    blocks_after_allocation, chunk_cached, fresh_needed, hits_on, lemma_blocks_needed,
    lemma_fresh_needed, lemma_fresh_step, lemma_hit_step, lemma_hits_monotone,
    lemma_misses_and_hits_bounded, lemma_misses_monotone, lemma_planned_counts,
    lemma_planned_table_fresh, lemma_planned_table_len, lemma_served_all, lemma_served_monotone,
    lemma_served_stuck, misses, planned_table, served,
};
use refs::{
    lemma_refs_empty, lemma_refs_insert, lemma_refs_named, lemma_refs_of_table, lemma_refs_remove,
    lemma_repeated_entry, refs,
};
use steps::{
    compute_table, lemma_compute_table, lemma_compute_table_registers, lemma_release_step_cache,
    release_step, release_table,
};

verus! {

broadcast use vstd::std_specs::hash::group_hash_axioms, vstd::std_specs::vecdeque::group_vec_dequeue_axioms;

/// Life cycle of a physical block.
#[derive(Debug, Clone, Copy, PartialEq, Eq, Structural)]
pub enum BlockState {
    Free,
    Allocated,
    Computed,
}

/// Metadata for a physical block in the KV cache.
#[derive(Debug, Clone, Copy)]
pub struct PhysicalBlock {
    pub id: BlockId,
    pub state: BlockState,
    pub ref_count: u32,
    pub content_hash: Option<u64>,
}

/// The block `id` as it stands on the free list: unreferenced, no content.
pub open spec fn free_block(id: BlockId) -> PhysicalBlock {
    PhysicalBlock { id, state: BlockState::Free, ref_count: 0, content_hash: None }
}

/// The block `id` just taken from the free list for one holder.
pub open spec fn fresh_block(id: BlockId) -> PhysicalBlock {
    PhysicalBlock { id, state: BlockState::Allocated, ref_count: 1, content_hash: None }
}

impl PhysicalBlock {
    fn new(id: BlockId) -> (b: Self)
        ensures
            b == free_block(id),
    {
        Self { id, state: BlockState::Free, ref_count: 0, content_hash: None }
    }
}

#[derive(Debug)]
pub enum AllocationError {
    OutOfMemory,
    RequestNotFound,
}

/// `ceil(num_tokens / block_size)`: the blocks that hold `num_tokens` tokens.
pub open spec fn spec_blocks_needed(num_tokens: nat, block_size: nat) -> nat
    recommends
        block_size > 0,
{
    ((num_tokens + block_size - 1) as nat / block_size) as nat
}

fn num_blocks_needed(num_tokens: usize, block_size: usize) -> (n: usize)
    requires
        block_size > 0,
        num_tokens + block_size <= usize::MAX,
    ensures
        n == spec_blocks_needed(num_tokens as nat, block_size as nat),
{
    (num_tokens + block_size - 1) / block_size
}

pub struct BlockManager {
    blocks: Vec<PhysicalBlock>,
    free_list: VecDeque<BlockId>,
    prefix_cache: HashMap<ContentHash, BlockId>,
    block_tables: HashMap<RequestId, Vec<BlockId>>,
    pub block_size: usize,
}

impl BlockManager {
    /// The number of tokens a block holds.
    pub closed spec fn spec_block_size(&self) -> usize {
        self.block_size
    }

    /// All physical blocks, indexed by their id.
    pub closed spec fn blocks(&self) -> Seq<PhysicalBlock> {
        self.blocks@
    }

    /// The ids of the free blocks, in the order they will be handed out.
    pub closed spec fn free_list(&self) -> Seq<BlockId> {
        self.free_list@
    }

    /// Content hash of a computed block to the block holding that content.
    pub closed spec fn prefix_cache(&self) -> Map<ContentHash, BlockId> {
        self.prefix_cache@
    }

    /// Each request's block table: the blocks that hold its tokens, in order.
    pub closed spec fn block_tables(&self) -> Map<RequestId, Seq<BlockId>> {
        self.block_tables@.map_values(|t: Vec<BlockId>| t@)
    }

    /// The manager's invariant.
    pub closed spec fn wf(&self) -> bool {
        self.wf_with(Multiset::empty())
    }

    /// Each block's reference count covers its entries in all tables
    /// together with its entries in `extra`.
    closed spec fn refs_covered(&self, extra: Multiset<BlockId>) -> bool {
        forall|b: int|
            0 <= b < self.blocks@.len() ==> refs(self.block_tables()).count(b as BlockId) + extra.count(
                b as BlockId,
            ) <= (#[trigger] self.blocks@[b]).ref_count
    }

    /// A block not yet computed has at most one entry in all tables
    /// together with `extra`: only computed blocks are shared.
    closed spec fn uncomputed_unique(&self, extra: Multiset<BlockId>) -> bool {
        forall|b: int|
            0 <= b < self.blocks@.len() && (#[trigger] self.blocks@[b]).state != BlockState::Computed
                ==> refs(self.block_tables()).count(b as BlockId) + extra.count(b as BlockId) <= 1
    }

    /// The invariant but for reference counts, which `extra` entries not
    /// yet in any table may also claim.
    closed spec fn wf_with(&self, extra: Multiset<BlockId>) -> bool {
        let blocks = self.blocks@;
        let free = self.free_list@;
        let cache = self.prefix_cache@;
        let tables = self.block_tables();
        &&& blocks.len() <= usize::MAX
        &&& forall|i: int| 0 <= i < blocks.len() ==> (#[trigger] blocks[i]).id == i
        &&& free.no_duplicates()
        &&& forall|j: int| 0 <= j < free.len() ==> (#[trigger] free[j]) < blocks.len()
        &&& forall|i: int|
            0 <= i < blocks.len() ==> ((#[trigger] blocks[i]).state == BlockState::Free
                <==> free.contains(i as BlockId))
        &&& forall|i: int|
            0 <= i < blocks.len() ==> ((#[trigger] blocks[i]).state == BlockState::Free
                <==> blocks[i].ref_count == 0)
        &&& forall|i: int|
            0 <= i < blocks.len() && (#[trigger] blocks[i]).state == BlockState::Free
                ==> blocks[i].content_hash is None
        &&& forall|h: ContentHash|
            #[trigger] cache.contains_key(h) ==> {
                &&& cache[h] < blocks.len()
                &&& blocks[cache[h] as int].state == BlockState::Computed
                &&& blocks[cache[h] as int].content_hash == Some(h)
            }
        &&& forall|r: RequestId, j: int|
            tables.contains_key(r) && 0 <= j < tables[r].len() ==> #[trigger] tables[r][j]
                < blocks.len()
        &&& self.refs_covered(extra)
        &&& self.uncomputed_unique(extra)
    }

    proof fn lemma_wf_with_weaken(&self, extra: Multiset<BlockId>)
        requires
            self.wf_with(extra),
        ensures
            self.wf(),
    {
        broadcast use vstd::multiset::group_multiset_axioms;
    }

    /// Each block's reference count is exactly its number of entries in all
    /// tables together with its entries in `extra`.
    closed spec fn refs_match(&self, extra: Multiset<BlockId>) -> bool {
        forall|b: int|
            0 <= b < self.blocks@.len() ==> refs(self.block_tables()).count(b as BlockId) + extra.count(
                b as BlockId,
            ) == (#[trigger] self.blocks@[b]).ref_count
    }

    /// Exact accounting: every block's reference count is its number of
    /// entries over all block tables, so no block is held by no one.
    pub closed spec fn refs_exact(&self) -> bool {
        self.refs_match(Multiset::empty())
    }

    /// Whether some block table names block `b`.
    pub open spec fn holds(&self, b: BlockId) -> bool {
        exists|r: RequestId| #[trigger] self.block_tables().contains_key(r)
            && self.block_tables()[r].contains(b)
    }

    /// The ids of the blocks that some table names.
    pub open spec fn held_ids(&self) -> Set<BlockId> {
        Set::new(|b: BlockId| self.holds(b))
    }

    /// A freshly taken block joins the table being built.
    proof fn lemma_covered_after_fresh(
        &self,
        pre_blocks: Seq<PhysicalBlock>,
        pre_table: Seq<BlockId>,
        id: BlockId,
    )
        requires
            self.wf(),
            id < pre_blocks.len(),
            self.blocks@ == pre_blocks.update(id as int, fresh_block(id)),
            pre_blocks[id as int].state == BlockState::Free,
            pre_blocks[id as int].ref_count == 0,
            forall|b: int|
                0 <= b < pre_blocks.len() ==> (#[trigger] pre_blocks[b]).ref_count >= refs(
                    self.block_tables(),
                ).count(b as BlockId) + pre_table.to_multiset().count(b as BlockId),
            forall|b: int|
                0 <= b < pre_blocks.len() && (#[trigger] pre_blocks[b]).state != BlockState::Computed
                    ==> refs(self.block_tables()).count(b as BlockId) + pre_table.to_multiset().count(
                    b as BlockId,
                ) <= 1,
        ensures
            self.wf_with(pre_table.push(id).to_multiset()),
            (forall|b: int|
                0 <= b < pre_blocks.len() ==> (#[trigger] pre_blocks[b]).ref_count == refs(
                    self.block_tables(),
                ).count(b as BlockId) + pre_table.to_multiset().count(b as BlockId))
                ==> self.refs_match(pre_table.push(id).to_multiset()),
    {
        broadcast use vstd::multiset::group_multiset_axioms, vstd::seq_lib::group_to_multiset_ensures;
        let blocks = self.blocks@;
        if forall|b: int|
            0 <= b < pre_blocks.len() ==> (#[trigger] pre_blocks[b]).ref_count == refs(
                self.block_tables(),
            ).count(b as BlockId) + pre_table.to_multiset().count(b as BlockId) {
            assert forall|b: int| 0 <= b < blocks.len() implies refs(self.block_tables()).count(
                b as BlockId,
            ) + pre_table.push(id).to_multiset().count(b as BlockId) == (#[trigger] blocks[b]).ref_count by {
                assert(pre_blocks[b].ref_count == refs(self.block_tables()).count(b as BlockId)
                    + pre_table.to_multiset().count(b as BlockId));
                if b != id {
                    assert(blocks[b] == pre_blocks[b]);
                }
            }
        }
        assert forall|b: int| 0 <= b < blocks.len() implies refs(self.block_tables()).count(
            b as BlockId,
        ) + pre_table.push(id).to_multiset().count(b as BlockId) <= (#[trigger] blocks[b]).ref_count by {
            assert(pre_blocks[b].ref_count >= refs(self.block_tables()).count(b as BlockId)
                + pre_table.to_multiset().count(b as BlockId));
            if b != id {
                assert(blocks[b] == pre_blocks[b]);
            }
        }
        assert forall|b: int| 0 <= b < blocks.len() && (#[trigger] blocks[b]).state
            != BlockState::Computed implies refs(self.block_tables()).count(b as BlockId)
            + pre_table.push(id).to_multiset().count(b as BlockId) <= 1 by {
            assert(pre_blocks[b].ref_count >= refs(self.block_tables()).count(b as BlockId)
                + pre_table.to_multiset().count(b as BlockId));
            if b != id {
                assert(blocks[b] == pre_blocks[b]);
            }
        }
    }

    /// A manager with `num_blocks` free blocks of `block_size` tokens each.
    pub fn new(num_blocks: usize, block_size: usize) -> (bm: Self)
        ensures
            bm.wf(),
            bm.refs_exact(),
            bm.spec_block_size() == block_size,
            bm.blocks() == Seq::new(num_blocks as nat, |i: int| free_block(i as BlockId)),
            bm.free_list() == Seq::new(num_blocks as nat, |i: int| i as BlockId),
            bm.prefix_cache() == Map::<ContentHash, BlockId>::empty(),
            bm.block_tables() == Map::<RequestId, Seq<BlockId>>::empty(),
    {
        let mut blocks: Vec<PhysicalBlock> = Vec::new();
        let mut free_list: VecDeque<BlockId> = VecDeque::new();
        let mut i: usize = 0;
        while i < num_blocks
            invariant
                i <= num_blocks,
                blocks@ == Seq::new(i as nat, |k: int| free_block(k as BlockId)),
                free_list@ == Seq::new(i as nat, |k: int| k as BlockId),
            decreases num_blocks - i,
        {
            blocks.push(PhysicalBlock::new(i));
            free_list.push_back(i);
            i = i + 1;
            assert(blocks@ =~= Seq::new(i as nat, |k: int| free_block(k as BlockId)));
            assert(free_list@ =~= Seq::new(i as nat, |k: int| k as BlockId));
        }
        let bm = Self {
            blocks,
            free_list,
            prefix_cache: HashMap::new(),
            block_tables: HashMap::new(),
            block_size,
        };
        assert(bm.block_tables() =~= Map::<RequestId, Seq<BlockId>>::empty());
        proof {
            assert(bm.blocks@.len() == bm.blocks.len());
            lemma_refs_empty();
            broadcast use vstd::multiset::group_multiset_axioms;
            assert forall|b: int| 0 <= b < bm.blocks@.len() implies #[trigger] bm.free_list@.contains(
                b as BlockId,
            ) by {
                assert(bm.free_list@[b] == b as BlockId);
            }
        }
        bm
    }

    /// The number of tokens a block holds.
    pub fn block_size(&self) -> (bs: usize)
        ensures
            bs == self.spec_block_size(),
    {
        self.block_size
    }

    /// Whether allocating `prompt_tokens` keeps every reference count
    /// within `u32`: the condition `allocate` asks of its caller.
    pub fn ref_counts_fit(&self, prompt_tokens: &[TokenId]) -> (fits: bool)
        requires
            self.wf(),
            self.spec_block_size() > 0,
        ensures
            fits == forall|b: int|
                0 <= b < self.blocks().len() ==> (#[trigger] self.blocks()[b]).ref_count + hits_on(
                    self.prefix_cache(),
                    prompt_tokens@,
                    self.spec_block_size() as nat,
                    served(
                        self.prefix_cache(),
                        prompt_tokens@,
                        self.spec_block_size() as nat,
                        self.free_list().len(),
                        prompt_tokens@.len() / (self.spec_block_size() as nat),
                    ),
                    b as BlockId,
                ) <= u32::MAX,
    {
        let ghost cache = self.prefix_cache@;
        let ghost tokens = prompt_tokens@;
        let ghost avail = self.free_list@.len();
        let bs = self.block_size;
        let ghost bsn = bs as nat;
        let num_blocks = self.blocks.len();
        let avail_exec = self.free_list.len();
        let num_full_blocks = prompt_tokens.len() / bs;
        let ghost n = num_full_blocks as nat;
        let ghost target = served(cache, tokens, bsn, avail, n);
        let mut extra: Vec<u64> = Vec::new();
        while extra.len() < num_blocks
            invariant
                extra@.len() <= num_blocks,
                num_blocks == self.blocks@.len(),
                forall|b: int| 0 <= b < extra@.len() ==> #[trigger] extra@[b] == 0,
            decreases num_blocks - extra@.len(),
        {
            extra.push(0);
        }
        proof {
            assert(num_full_blocks * bs <= prompt_tokens@.len()) by (nonlinear_arith)
                requires
                    num_full_blocks == prompt_tokens@.len() / (bs as nat),
                    bs > 0,
            ;
            assert(prompt_tokens@.len() == prompt_tokens.len());
        }
        let mut missed: usize = 0;
        let mut i: usize = 0;
        while i < num_full_blocks
            invariant
                i <= num_full_blocks,
                num_full_blocks == n,
                n == tokens.len() / bsn,
                num_full_blocks * bs <= prompt_tokens@.len(),
                prompt_tokens@ == tokens,
                prompt_tokens@.len() == prompt_tokens.len(),
                bs == self.block_size,
                bsn == bs as nat,
                bs > 0,
                cache == self.prefix_cache@,
                avail == self.free_list@.len(),
                avail_exec == avail,
                target == served(cache, tokens, bsn, avail, n),
                self.wf(),
                extra@.len() == num_blocks,
                num_blocks == self.blocks@.len(),
                forall|b: int| 0 <= b < num_blocks ==> #[trigger] extra@[b] == hits_on(cache, tokens, bsn, i as nat, b as BlockId),
                forall|b: int|
                    0 <= b < num_blocks ==> (#[trigger] self.blocks@[b]).ref_count + hits_on(
                        cache,
                        tokens,
                        bsn,
                        i as nat,
                        b as BlockId,
                    ) <= u32::MAX,
                served(cache, tokens, bsn, avail, i as nat) == i,
                missed == misses(cache, tokens, bsn, i as nat),
                missed <= avail,
            decreases num_full_blocks - i,
        {
            proof {
                assert((i + 1) * bs <= num_full_blocks * bs) by (nonlinear_arith)
                    requires
                        i + 1 <= num_full_blocks,
                ;
                assert(i * bs <= (i + 1) * bs) by (nonlinear_arith);
            }
            let start = i * bs;
            let end = (i + 1) * bs;
            let hash = Self::hash_tokens(&prompt_tokens[start..end]);
            assert(hash == chunk_hash(tokens, bsn, i as int));
            let cached = match self.prefix_cache.get(&hash) {
                Some(c) => Some(*c),
                None => None,
            };
            match cached {
                Some(c) => {
                    proof {
                        lemma_misses_and_hits_bounded(cache, tokens, bsn, i as nat, c);
                        assert(extra@[c as int] == hits_on(cache, tokens, bsn, i as nat, c));
                    }
                    let count = extra[c] + 1;
                    extra.set(c, count);
                    if self.blocks[c].ref_count as u64 + count > 4294967295u64 {
                        proof {
                            lemma_served_monotone(cache, tokens, bsn, avail, (i + 1) as nat, n);
                            lemma_hits_monotone(cache, tokens, bsn, (i + 1) as nat, target, c);
                        }
                        return false;
                    }
                    proof {
                        assert forall|b: int| 0 <= b < num_blocks implies #[trigger] extra@[b]
                            == hits_on(cache, tokens, bsn, (i + 1) as nat, b as BlockId) by {
                        }
                    }
                },
                None => {
                    if missed == avail_exec {
                        proof {
                            lemma_served_stuck(cache, tokens, bsn, avail, i as nat, n);
                        }
                        return true;
                    }
                    missed = missed + 1;
                },
            }
            i = i + 1;
        }
        true
    }

    /// The number of blocks on the free list.
    pub fn num_free_blocks(&self) -> (n: usize)
        ensures
            n == self.free_list().len(),
    {
        self.free_list.len()
    }

    /// Whether the free list holds enough blocks for `num_tokens` tokens,
    /// prefix-cache hits left aside.
    pub fn can_allocate(&self, num_tokens: usize) -> (b: bool)
        requires
            self.spec_block_size() > 0,
            num_tokens + self.spec_block_size() <= usize::MAX,
        ensures
            b == (spec_blocks_needed(num_tokens as nat, self.spec_block_size() as nat)
                <= self.free_list().len()),
    {
        num_blocks_needed(num_tokens, self.block_size) <= self.num_free_blocks()
    }

    /// The content hash of a run of tokens.
    fn hash_tokens(tokens: &[TokenId]) -> (h: u64)
        ensures
            h == token_hash(tokens@),
    {
        let mut len_bytes: Vec<u8> = Vec::new();
        push_le_bytes(&mut len_bytes, tokens.len() as u64, 8);
        let mut token_bytes: Vec<u8> = Vec::new();
        let mut i: usize = 0;
        while i < tokens.len()
            invariant
                i <= tokens@.len(),
                token_bytes@ == tokens_le_bytes(tokens@.take(i as int)),
            decreases tokens@.len() - i,
        {
            push_le_bytes(&mut token_bytes, tokens[i] as u64, 4);
            assert(tokens@.take(i + 1).drop_last() =~= tokens@.take(i as int));
            i = i + 1;
        }
        assert(tokens@.take(i as int) =~= tokens@);
        let mut hasher = DefaultHasher::new();
        hasher.write(len_bytes.as_slice());
        hasher.write(token_bytes.as_slice());
        let h = hasher.finish();
        assert(hasher@ =~= seq![le_bytes(tokens@.len(), 8), tokens_le_bytes(tokens@)]);
        h
    }

    /// The three parts of the state that every operation may change are
    /// those of `other`.
    pub open spec fn same_blocks(&self, other: &Self) -> bool {
        &&& self.blocks() == other.blocks()
        &&& self.free_list() == other.free_list()
        &&& self.prefix_cache() == other.prefix_cache()
        &&& self.block_tables() == other.block_tables()
    }

    proof fn lemma_tables_finite(&self)
        ensures
            self.block_tables().dom().finite(),
    {
        assert(self.block_tables().dom() =~= self.block_tables@.dom());
    }

    /// Takes the block at the front of the free list for one holder.
    fn allocate_fresh(&mut self) -> (r: Result<BlockId, AllocationError>)
        requires
            old(self).wf(),
        ensures
            final(self).wf(),
            final(self).spec_block_size() == old(self).spec_block_size(),
            final(self).prefix_cache() == old(self).prefix_cache(),
            final(self).block_tables() == old(self).block_tables(),
            match r {
                Ok(id) => {
                    &&& old(self).free_list().len() > 0
                    &&& id == old(self).free_list()[0]
                    &&& final(self).free_list() == old(self).free_list().drop_first()
                    &&& final(self).blocks() == old(self).blocks().update(id as int, fresh_block(id))
                },
                Err(e) => {
                    &&& e is OutOfMemory
                    &&& old(self).free_list().len() == 0
                    &&& final(self).same_blocks(old(self))
                },
            },
    {
        let id = match self.free_list.pop_front() {
            Some(id) => id,
            None => {
                assert(self.free_list@ =~= old(self).free_list@);
                assert(self.block_tables() == old(self).block_tables());
                return Err(AllocationError::OutOfMemory);
            },
        };
        proof {
            let old_free = old(self).free_list@;
            assert(old_free.contains(id));
            assert(self.free_list@ =~= old_free.drop_first());
            assert forall|i: int| 0 <= i < self.free_list@.len() implies self.free_list@[i] != id by {
                assert(old_free[i + 1] == self.free_list@[i]);
            }
        }
        self.blocks[id] = PhysicalBlock {
            id,
            state: BlockState::Allocated,
            ref_count: 1,
            content_hash: None,
        };
        proof {
            let old_free = old(self).free_list@;
            let free = self.free_list@;
            assert forall|i: int| 0 <= i < self.blocks@.len() && i != id implies ((
            #[trigger] self.blocks@[i]).state == BlockState::Free <==> free.contains(
                i as BlockId,
            )) by {
                if old_free.contains(i as BlockId) {
                    let k = old_free.index_of(i as BlockId);
                    assert(k != 0);
                    assert(free[k - 1] == i as BlockId);
                }
                if free.contains(i as BlockId) {
                    let k = free.index_of(i as BlockId);
                    assert(old_free[k + 1] == i as BlockId);
                }
            }
            assert(!free.contains(id));
            assert(free.no_duplicates()) by {
                assert forall|a: int, b: int| 0 <= a < free.len() && 0 <= b < free.len() && a != b
                    implies free[a] != free[b] by {
                    assert(free[a] == old_free[a + 1] && free[b] == old_free[b + 1]);
                }
            }
            assert forall|j: int| 0 <= j < free.len() implies (#[trigger] free[j]) < self.blocks@.len() by {
                assert(free[j] == old_free[j + 1]);
            }
        }
        Ok(id)
    }

    /// Makes room for one more token of a request being decoded: when its
    /// last block is shared or already computed, a fresh block is appended.
    pub fn append_token(&mut self, request_id: RequestId) -> (r: Result<(), AllocationError>)
        requires
            old(self).wf(),
        ensures
            final(self).wf(),
            final(self).spec_block_size() == old(self).spec_block_size(),
            final(self).prefix_cache() == old(self).prefix_cache(),
            old(self).refs_exact() ==> final(self).refs_exact(),
            ({
                let tables = old(self).block_tables();
                let free = old(self).free_list();
                if !tables.contains_key(request_id) || tables[request_id].len() == 0 {
                    (r matches Err(AllocationError::RequestNotFound)) && final(self).same_blocks(old(self))
                } else {
                    let last = old(self).blocks()[tables[request_id].last() as int];
                    if last.ref_count <= 1 && last.state != BlockState::Computed {
                        r is Ok && final(self).same_blocks(old(self))
                    } else if free.len() == 0 {
                        (r matches Err(AllocationError::OutOfMemory)) && final(self).same_blocks(old(self))
                    } else {
                        &&& r is Ok
                        &&& final(self).free_list() == free.drop_first()
                        &&& final(self).blocks() == old(self).blocks().update(free[0] as int, fresh_block(free[0]))
                        &&& final(self).block_tables() == tables.insert(request_id, tables[request_id].push(free[0]))
                    }
                }
            }),
    {
        proof {
            self.lemma_tables_finite();
        }
        let last_block_id = match self.block_tables.get(&request_id) {
            None => {
                return Err(AllocationError::RequestNotFound);
            },
            Some(t) => match t.last() {
                None => {
                    return Err(AllocationError::RequestNotFound);
                },
                Some(b) => *b,
            },
        };
        let ghost t = self.block_tables()[request_id];
        assert(t.len() > 0 && last_block_id == t.last());
        assert(t[t.len() - 1] < self.blocks@.len());
        let needs_new_block = self.blocks[last_block_id].ref_count > 1
            || self.blocks[last_block_id].state == BlockState::Computed;
        if needs_new_block {
            let new_block_id = self.allocate_fresh()?;
            assert(self.block_tables().dom() =~= self.block_tables@.dom());
            assert(self.block_tables@.contains_key(request_id));
            let mut table = match self.block_tables.remove(&request_id) {
                Some(table) => table,
                None => {
                    return Err(AllocationError::RequestNotFound);
                },
            };
            table.push(new_block_id);
            self.block_tables.insert(request_id, table);
            proof {
                let old_tables = old(self).block_tables();
                let tables = self.block_tables();
                assert(tables =~= old_tables.insert(request_id, t.push(new_block_id)));
                broadcast use vstd::multiset::group_multiset_axioms, vstd::seq_lib::group_to_multiset_ensures;
                lemma_refs_insert(old_tables, request_id, t.push(new_block_id));
                lemma_refs_remove(old_tables, request_id);
                assert forall|b: int| 0 <= b < self.blocks@.len() implies refs(tables).count(b as BlockId)
                    <= (#[trigger] self.blocks@[b]).ref_count by {
                    if b == new_block_id {
                        assert(old(self).blocks@[b].state == BlockState::Free);
                    }
                }
                if old(self).refs_exact() {
                    assert forall|b: int| 0 <= b < self.blocks@.len() implies refs(tables).count(
                        b as BlockId,
                    ) + Multiset::<BlockId>::empty().count(b as BlockId) == (
                    #[trigger] self.blocks@[b]).ref_count by {
                        assert(refs(old_tables).count(b as BlockId) + Multiset::<BlockId>::empty().count(
                            b as BlockId,
                        ) == old(self).blocks@[b].ref_count);
                        if b == new_block_id {
                            assert(old(self).blocks@[b].state == BlockState::Free);
                        }
                    }
                }
                assert forall|r: RequestId, j: int|
                    tables.contains_key(r) && 0 <= j < tables[r].len() implies #[trigger] tables[r][j]
                        < self.blocks@.len() by {
                    if r != request_id {
                        assert(tables[r] == old_tables[r]);
                    } else if j < t.len() {
                        assert(tables[r][j] == t[j]);
                    }
                }
            }
        }
        Ok(())
    }

    /// Releases the blocks of a request; blocks that no one references any
    /// more return to the free list. Unknown requests are ignored.
    #[verifier::rlimit(60)]
    pub fn free(&mut self, request_id: RequestId)
        requires
            old(self).wf(),
        ensures
            final(self).wf(),
            final(self).spec_block_size() == old(self).spec_block_size(),
            old(self).refs_exact() ==> final(self).refs_exact(),
            !old(self).block_tables().contains_key(request_id) ==> final(self).same_blocks(old(self)),
            old(self).block_tables().contains_key(request_id) ==> {
                &&& final(self).block_tables() == old(self).block_tables().remove(request_id)
                &&& (final(self).blocks(), final(self).prefix_cache(), final(self).free_list())
                    == release_table(
                    (old(self).blocks(), old(self).prefix_cache(), old(self).free_list()),
                    old(self).block_tables()[request_id],
                )
                &&& forall|b: int|
                    0 <= b < old(self).blocks().len() ==> (#[trigger] final(self).blocks()[b]).ref_count
                        + old(self).block_tables()[request_id].to_multiset().count(b as BlockId)
                        == old(self).blocks()[b].ref_count
                &&& forall|b: int|
                    0 <= b < old(self).blocks().len() && !old(self).block_tables()[request_id].contains(
                        b as BlockId,
                    ) ==> #[trigger] final(self).blocks()[b] == old(self).blocks()[b]
                &&& forall|h: ContentHash|
                    #![trigger final(self).prefix_cache().contains_key(h)]
                    #![trigger old(self).prefix_cache().contains_key(h)]
                    final(self).prefix_cache().contains_key(h) <==> (old(self).prefix_cache().contains_key(h)
                        && final(self).blocks()[old(self).prefix_cache()[h] as int].state
                        != BlockState::Free)
                &&& forall|h: ContentHash|
                    #[trigger] final(self).prefix_cache().contains_key(h) ==> final(self).prefix_cache()[h]
                        == old(self).prefix_cache()[h]
                &&& final(self).free_list().len() >= old(self).free_list().len()
                &&& final(self).free_list().take(old(self).free_list().len() as int)
                    == old(self).free_list()
                &&& forall|j: int|
                    old(self).free_list().len() <= j < final(self).free_list().len()
                        ==> old(self).block_tables()[request_id].contains(
                        #[trigger] final(self).free_list()[j],
                    )
                &&& forall|b: BlockId|
                    #[trigger] old(self).block_tables()[request_id].contains(b) ==> {
                        let held = old(self).block_tables()[request_id].to_multiset().count(b);
                        &&& old(self).blocks()[b as int].ref_count == held ==> {
                            &&& final(self).blocks()[b as int].state == BlockState::Free
                            &&& final(self).free_list().contains(b)
                        }
                        &&& old(self).blocks()[b as int].ref_count > held
                            ==> final(self).blocks()[b as int].state == old(self).blocks()[b as int].state
                    }
            },
    {
        proof {
            self.lemma_tables_finite();
        }
        let ghost old_tables = self.block_tables();
        let table = match self.block_tables.remove(&request_id) {
            Some(table) => table,
            None => {
                assert(self.block_tables() =~= old_tables);
                return;
            },
        };
        let ghost t = table@;
        let ghost st0 = (old(self).blocks@, old(self).prefix_cache@, old(self).free_list@);
        proof {
            broadcast use vstd::multiset::group_multiset_axioms;
            assert(self.block_tables() =~= old_tables.remove(request_id));
            assert(t == old_tables[request_id]);
            lemma_refs_remove(old_tables, request_id);
            assert(t.skip(0) =~= t);
            assert(t.take(0) =~= Seq::<BlockId>::empty());
            assert(self.wf_with(t.skip(0).to_multiset()));
            if old(self).refs_exact() {
                assert(self.refs_match(t.skip(0).to_multiset()));
            }
            assert forall|h: ContentHash| #[trigger] old(self).prefix_cache@.contains_key(h) implies self.blocks@[
                old(self).prefix_cache@[h] as int].state != BlockState::Free by {
            }
            assert forall|j: int| 0 <= j < t.len() implies #[trigger] t[j] < self.blocks@.len() by {
                assert(old_tables[request_id][j] == t[j]);
            }
            broadcast use vstd::seq_lib::group_to_multiset_ensures, vstd::multiset::lemma_multiset_empty_len;
            assert(t.take(0).to_multiset() =~= Multiset::empty());
            assert(self.free_list@.take(old(self).free_list@.len() as int) =~= old(self).free_list@);
        }
        let mut i: usize = 0;
        while i < table.len()
            invariant
                i <= table@.len(),
                table@ == t,
                old_tables.contains_key(request_id),
                t == old_tables[request_id],
                self.blocks@.len() == old(self).blocks@.len(),
                forall|j: int| 0 <= j < t.len() ==> #[trigger] t[j] < self.blocks@.len(),
                self.block_size == old(self).block_size,
                self.block_tables() == old_tables.remove(request_id),
                self.wf_with(t.skip(i as int).to_multiset()),
                old(self).refs_exact() ==> self.refs_match(t.skip(i as int).to_multiset()),
                (self.blocks@, self.prefix_cache@, self.free_list@) == release_table(st0, t.take(i as int)),
                forall|b: int|
                    0 <= b < self.blocks@.len() ==> (#[trigger] self.blocks@[b]).ref_count
                        + t.take(i as int).to_multiset().count(b as BlockId)
                        == old(self).blocks@[b].ref_count,
                forall|b: int|
                    0 <= b < self.blocks@.len() && !t.take(i as int).contains(b as BlockId)
                        ==> #[trigger] self.blocks@[b] == old(self).blocks@[b],
                forall|b: int|
                    0 <= b < self.blocks@.len() ==> (#[trigger] self.blocks@[b]).state
                        == BlockState::Free || self.blocks@[b].state == old(self).blocks@[b].state,
                self.free_list@.len() >= old(self).free_list@.len(),
                self.free_list@.take(old(self).free_list@.len() as int) == old(self).free_list@,
                forall|h: ContentHash|
                    #![trigger self.prefix_cache@.contains_key(h)]
                    #![trigger old(self).prefix_cache@.contains_key(h)]
                    self.prefix_cache@.contains_key(h) <==> (old(self).prefix_cache@.contains_key(h)
                        && self.blocks@[old(self).prefix_cache@[h] as int].state != BlockState::Free),
                forall|h: ContentHash|
                    #[trigger] self.prefix_cache@.contains_key(h) ==> self.prefix_cache@[h]
                        == old(self).prefix_cache@[h],
                forall|h: ContentHash|
                    #[trigger] old(self).prefix_cache@.contains_key(h) ==> old(self).prefix_cache@[h]
                        < self.blocks@.len(),
                forall|j: int|
                    old(self).free_list@.len() <= j < self.free_list@.len() ==> t.take(i as int).contains(
                        #[trigger] self.free_list@[j],
                    ),
            decreases table@.len() - i,
        {
            let block_id = table[i];
            let ghost extra = t.skip(i as int).to_multiset();
            let ghost pre_blocks = self.blocks@;
            let ghost pre_free = self.free_list@;
            let ghost pre_cache = self.prefix_cache@;
            proof {
                broadcast use vstd::multiset::group_multiset_axioms, vstd::seq_lib::group_to_multiset_ensures;
                assert(t.skip(i as int)[0] == block_id);
                assert(t.skip(i as int).contains(block_id));
                assert(t.skip(i as int).remove(0) =~= t.skip(i + 1));
                assert(t.take(i + 1).drop_last() =~= t.take(i as int));
                assert(extra.count(block_id) >= 1);
            }
            let mut block = self.blocks[block_id];
            block.ref_count = block.ref_count - 1;
            if block.ref_count == 0 {
                match block.content_hash {
                    Some(hash) => {
                        let cached_here = match self.prefix_cache.get(&hash) {
                            Some(cached) => *cached == block_id,
                            None => false,
                        };
                        if cached_here {
                            self.prefix_cache.remove(&hash);
                        }
                    },
                    None => {},
                }
                block.state = BlockState::Free;
                block.content_hash = None;
                self.free_list.push_back(block_id);
            }
            self.blocks[block_id] = block;
            i = i + 1;
            proof {
                broadcast use vstd::multiset::group_multiset_axioms, vstd::seq_lib::group_to_multiset_ensures;
                let extra2 = t.skip(i as int).to_multiset();
                assert(extra2 =~= extra.remove(block_id));
                let blocks = self.blocks@;
                let free = self.free_list@;
                let cache = self.prefix_cache@;
                let freed = pre_blocks[block_id as int].ref_count == 1;
                assert(pre_blocks[block_id as int].state != BlockState::Free);
                assert(!pre_free.contains(block_id));
                assert(free.no_duplicates()) by {
                    if freed {
                        assert forall|a: int, c: int| 0 <= a < free.len() && 0 <= c < free.len() && a != c
                            implies free[a] != free[c] by {
                            if a < pre_free.len() && c < pre_free.len() {
                            } else if a < pre_free.len() {
                                assert(pre_free.contains(free[a]));
                            } else {
                                assert(pre_free.contains(free[c]));
                            }
                        }
                    }
                }
                assert forall|k: int| 0 <= k < blocks.len() implies ((#[trigger] blocks[k]).state
                    == BlockState::Free <==> free.contains(k as BlockId)) by {
                    if k != block_id {
                        assert(blocks[k] == pre_blocks[k]);
                        if freed {
                            if free.contains(k as BlockId) {
                                let x = free.index_of(k as BlockId);
                                assert(x < pre_free.len());
                                assert(pre_free[x] == k as BlockId);
                            }
                            if pre_free.contains(k as BlockId) {
                                let x = pre_free.index_of(k as BlockId);
                                assert(free[x] == k as BlockId);
                            }
                        }
                    } else if freed {
                        assert(free[free.len() - 1] == block_id);
                    }
                }
                assert forall|h: ContentHash| #[trigger] cache.contains_key(h) implies {
                    &&& cache[h] < blocks.len()
                    &&& blocks[cache[h] as int].state == BlockState::Computed
                    &&& blocks[cache[h] as int].content_hash == Some(h)
                } by {
                    assert(pre_cache.contains_key(h) && pre_cache[h] == cache[h]);
                }
                assert forall|b: int| 0 <= b < blocks.len() implies refs(self.block_tables()).count(
                    b as BlockId,
                ) + extra2.count(b as BlockId) <= (#[trigger] blocks[b]).ref_count by {
                    if b != block_id {
                        assert(blocks[b] == pre_blocks[b]);
                    }
                }
                if old(self).refs_exact() {
                    assert forall|b: int| 0 <= b < blocks.len() implies refs(self.block_tables()).count(
                        b as BlockId,
                    ) + extra2.count(b as BlockId) == (#[trigger] blocks[b]).ref_count by {
                        assert(refs(self.block_tables()).count(b as BlockId) + extra.count(b as BlockId)
                            == pre_blocks[b].ref_count);
                        if b != block_id {
                            assert(blocks[b] == pre_blocks[b]);
                        }
                    }
                }
                let tk = t.take(i as int);
                assert(tk =~= t.take(i - 1).push(block_id));
                assert forall|b: int| 0 <= b < blocks.len() implies (#[trigger] blocks[b]).ref_count
                    + tk.to_multiset().count(b as BlockId) == old(self).blocks@[b].ref_count by {
                    if b != block_id {
                        assert(blocks[b] == pre_blocks[b]);
                    }
                }
                assert forall|b: int| 0 <= b < blocks.len() && !tk.contains(b as BlockId)
                    implies #[trigger] blocks[b] == old(self).blocks@[b] by {
                    assert(b != block_id);
                    assert(blocks[b] == pre_blocks[b]);
                    assert(!t.take(i - 1).contains(b as BlockId)) by {
                        if t.take(i - 1).contains(b as BlockId) {
                            let x = choose|x: int| 0 <= x < t.take(i - 1).len() && #[trigger] t.take(i - 1)[x] == b as BlockId;
                            assert(tk[x] == b as BlockId);
                        }
                    }
                }
                assert forall|b: int| 0 <= b < blocks.len() implies (#[trigger] blocks[b]).state
                    == BlockState::Free || blocks[b].state == old(self).blocks@[b].state by {
                    if b != block_id {
                        assert(blocks[b] == pre_blocks[b]);
                    }
                }
                assert((blocks, cache, free) == release_step((pre_blocks, pre_cache, pre_free), block_id));
                lemma_release_step_cache(old(self).prefix_cache@, (pre_blocks, pre_cache, pre_free), block_id);
                let old_len = old(self).free_list@.len();
                assert(free.take(old_len as int) =~= old(self).free_list@) by {
                    assert(pre_free.take(old_len as int) == old(self).free_list@);
                }
                assert forall|j: int| old_len <= j < free.len() implies tk.contains(
                    #[trigger] free[j],
                ) by {
                    if j < pre_free.len() {
                        assert(t.take(i - 1).contains(pre_free[j]));
                        let x = choose|x: int| 0 <= x < t.take(i - 1).len() && #[trigger] t.take(i - 1)[x] == pre_free[j];
                        assert(tk[x] == free[j]);
                    } else {
                        assert(free[j] == block_id);
                        assert(tk[i - 1] == block_id);
                    }
                }
            }
        }
        proof {
            assert(t.take(i as int) =~= t);
            assert(t.skip(i as int) =~= Seq::<BlockId>::empty());
            broadcast use vstd::seq_lib::group_to_multiset_ensures, vstd::multiset::lemma_multiset_empty_len;
            assert(t.skip(i as int).to_multiset() =~= Multiset::empty());
            self.lemma_invariant();
            old(self).lemma_invariant();
            assert forall|b: BlockId| #[trigger] t.contains(b) implies {
                let held = t.to_multiset().count(b);
                &&& old(self).blocks@[b as int].ref_count == held ==> {
                    &&& self.blocks@[b as int].state == BlockState::Free
                    &&& self.free_list@.contains(b)
                }
                &&& old(self).blocks@[b as int].ref_count > held ==> self.blocks@[b as int].state
                    == old(self).blocks@[b as int].state
            } by {
                let j = choose|j: int| 0 <= j < t.len() && #[trigger] t[j] == b;
                assert(old_tables[request_id][j] == b);
                assert(b < self.blocks@.len());
                assert(old(self).blocks@[b as int].state != BlockState::Free);
            }
        }
    }

    /// Builds the block table of a request: each full block of the prompt
    /// whose content the prefix cache holds shares the cached block, every
    /// other full block and a trailing partial block take a fresh block
    /// from the front of the free list. When the free list runs dry the
    /// request gets no table; what was taken until then stays taken.
    #[verifier::rlimit(60)]
    pub fn allocate(&mut self, request_id: RequestId, prompt_tokens: &[TokenId]) -> (r: Result<
        (),
        AllocationError,
    >)
        requires
            old(self).wf(),
            old(self).spec_block_size() > 0,
            forall|b: int|
                0 <= b < old(self).blocks().len() ==> (#[trigger] old(self).blocks()[b]).ref_count
                    + hits_on(
                    old(self).prefix_cache(),
                    prompt_tokens@,
                    old(self).spec_block_size() as nat,
                    served(
                        old(self).prefix_cache(),
                        prompt_tokens@,
                        old(self).spec_block_size() as nat,
                        old(self).free_list().len(),
                        prompt_tokens@.len() / (old(self).spec_block_size() as nat),
                    ),
                    b as BlockId,
                ) <= u32::MAX,
        ensures
            final(self).wf(),
            final(self).spec_block_size() == old(self).spec_block_size(),
            final(self).prefix_cache() == old(self).prefix_cache(),
            old(self).refs_exact() && r is Ok && !old(self).block_tables().contains_key(request_id)
                ==> final(self).refs_exact(),
            ({
                let bs = old(self).spec_block_size() as nat;
                let cache = old(self).prefix_cache();
                let free = old(self).free_list();
                let tokens = prompt_tokens@;
                let need = fresh_needed(cache, tokens, bs);
                let taken = if need <= free.len() {
                    need
                } else {
                    free.len()
                };
                &&& (r is Ok) == (need <= free.len())
                &&& r is Err ==> (r matches Err(AllocationError::OutOfMemory))
                &&& final(self).free_list() == free.skip(taken as int)
                &&& final(self).blocks() == blocks_after_allocation(
                    old(self).blocks(),
                    cache,
                    free,
                    tokens,
                    bs,
                    taken,
                    served(cache, tokens, bs, free.len(), tokens.len() / bs),
                )
                &&& r is Ok ==> final(self).block_tables() == old(self).block_tables().insert(
                    request_id,
                    planned_table(cache, free, tokens, bs),
                )
                &&& r is Err ==> final(self).block_tables() == old(self).block_tables()
            }),
    {
        let ghost cache = self.prefix_cache@;
        let ghost free0 = self.free_list@;
        let ghost blocks0 = self.blocks@;
        let ghost tokens = prompt_tokens@;
        let ghost avail = free0.len();
        let ghost old_tables = self.block_tables();
        let bs = self.block_size;
        let ghost bsn = bs as nat;
        let mut block_table: Vec<BlockId> = Vec::new();
        let num_full_blocks = prompt_tokens.len() / bs;
        let ghost n = num_full_blocks as nat;
        proof {
            assert(num_full_blocks * bs <= prompt_tokens@.len()) by (nonlinear_arith)
                requires
                    num_full_blocks == prompt_tokens@.len() / (bs as nat),
                    bs > 0,
            ;
            assert(prompt_tokens@.len() == prompt_tokens.len());
            assert(free0.take(0) =~= Seq::<BlockId>::empty());
            assert(self.blocks@ =~= blocks_after_allocation(blocks0, cache, free0, tokens, bsn, 0, 0));
            assert(free0.skip(0) =~= free0);
            assert(self.blocks@.len() == self.blocks.len());
            broadcast use vstd::multiset::group_multiset_axioms, vstd::seq_lib::group_to_multiset_ensures, vstd::multiset::lemma_multiset_empty_len;
            assert(block_table@.to_multiset() =~= Multiset::empty());
            assert(self.wf_with(block_table@.to_multiset()));
            if old(self).refs_exact() {
                assert(self.refs_match(block_table@.to_multiset()));
            }
            assert(planned_table(cache, free0, tokens, bsn).take(0) =~= block_table@);
            self.lemma_tables_finite();
            assert forall|b: int| 0 <= b < blocks0.len() implies (#[trigger] blocks0[b]).ref_count + hits_on(
                cache,
                tokens,
                bsn,
                served(cache, tokens, bsn, avail, n),
                b as BlockId,
            ) <= u32::MAX by {
                assert(old(self).blocks()[b] == blocks0[b]);
            }
        }
        let mut i: usize = 0;
        while i < num_full_blocks
            invariant
                i <= num_full_blocks,
                num_full_blocks == n,
                n == tokens.len() / bsn,
                num_full_blocks * bs <= prompt_tokens@.len(),
                prompt_tokens@ == tokens,
                prompt_tokens@.len() == prompt_tokens.len(),
                bs == self.block_size,
                bs == old(self).block_size,
                avail == free0.len(),
                cache == old(self).prefix_cache@,
                free0 == old(self).free_list@,
                free0.no_duplicates(),
                blocks0 == old(self).blocks@,
                old_tables == old(self).block_tables(),
                bsn == bs as nat,
                bs > 0,
                self.prefix_cache@ == cache,
                self.block_tables() == old_tables,
                self.blocks@.len() == blocks0.len(),
                blocks0.len() <= usize::MAX,
                self.wf_with(block_table@.to_multiset()),
                old(self).refs_exact() ==> self.refs_match(block_table@.to_multiset()),
                forall|j: int| 0 <= j < block_table@.len() ==> #[trigger] block_table@[j] < self.blocks@.len(),
                served(cache, tokens, bsn, avail, i as nat) == i,
                misses(cache, tokens, bsn, i as nat) <= avail,
                self.free_list@ == free0.skip(misses(cache, tokens, bsn, i as nat) as int),
                self.blocks@ == blocks_after_allocation(
                    blocks0,
                    cache,
                    free0,
                    tokens,
                    bsn,
                    misses(cache, tokens, bsn, i as nat),
                    i as nat,
                ),
                block_table@ == planned_table(cache, free0, tokens, bsn).take(i as int),
                forall|b: int|
                    0 <= b < blocks0.len() ==> (#[trigger] blocks0[b]).ref_count + hits_on(
                        cache,
                        tokens,
                        bsn,
                        served(cache, tokens, bsn, avail, n),
                        b as BlockId,
                    ) <= u32::MAX,
            decreases num_full_blocks - i,
        {
            proof {
                assert((i + 1) * bs <= num_full_blocks * bs) by (nonlinear_arith)
                    requires
                        i + 1 <= num_full_blocks,
                ;
                assert(i * bs <= (i + 1) * bs) by (nonlinear_arith);
            }
            let start = i * bs;
            let end = (i + 1) * bs;
            let hash = Self::hash_tokens(&prompt_tokens[start..end]);
            assert(hash == chunk_hash(tokens, bsn, i as int));
            let cached = match self.prefix_cache.get(&hash) {
                Some(c) => Some(*c),
                None => None,
            };
            match cached {
                Some(cached_block_id) => {
                    proof {
                        assert(chunk_cached(cache, tokens, bsn, i as int));
                        lemma_served_monotone(cache, tokens, bsn, avail, (i + 1) as nat, n);
                        lemma_hits_monotone(
                            cache,
                            tokens,
                            bsn,
                            (i + 1) as nat,
                            served(cache, tokens, bsn, avail, n),
                            cached_block_id,
                        );
                        assert(blocks0[cached_block_id as int].ref_count + hits_on(
                            cache,
                            tokens,
                            bsn,
                            served(cache, tokens, bsn, avail, n),
                            cached_block_id,
                        ) <= u32::MAX);
                    }
                    let ghost pre_blocks = self.blocks@;
                    let ghost pre_table = block_table@;
                    let mut block = self.blocks[cached_block_id];
                    block.ref_count = block.ref_count + 1;
                    self.blocks[cached_block_id] = block;
                    block_table.push(cached_block_id);
                    proof {
                        broadcast use vstd::multiset::group_multiset_axioms, vstd::seq_lib::group_to_multiset_ensures;
                        let m = misses(cache, tokens, bsn, i as nat);
                        lemma_hit_step(blocks0, cache, free0, tokens, bsn, m, i as nat, cached_block_id, pre_blocks);
                        let planned = planned_table(cache, free0, tokens, bsn);
                        assert(planned[i as int] == cached_block_id);
                        assert(block_table@ =~= planned.take(i + 1));
                        let blocks = self.blocks@;
                        assert forall|k: int| 0 <= k < blocks.len() implies ((#[trigger] blocks[k]).state
                            == BlockState::Free <==> self.free_list@.contains(k as BlockId)) by {
                            if k != cached_block_id {
                                assert(blocks[k] == pre_blocks[k]);
                            }
                        }
                        assert forall|h: ContentHash| #[trigger] cache.contains_key(h) implies {
                            &&& cache[h] < blocks.len()
                            &&& blocks[cache[h] as int].state == BlockState::Computed
                            &&& blocks[cache[h] as int].content_hash == Some(h)
                        } by {
                            assert(pre_blocks[cache[h] as int].state == BlockState::Computed);
                        }
                        assert forall|b: int| 0 <= b < blocks.len() implies refs(self.block_tables()).count(
                            b as BlockId,
                        ) + block_table@.to_multiset().count(b as BlockId) <= (
                        #[trigger] blocks[b]).ref_count by {
                            if b != cached_block_id {
                                assert(blocks[b] == pre_blocks[b]);
                            } else {
                                assert(pre_blocks[b].ref_count >= refs(self.block_tables()).count(
                                    b as BlockId,
                                ) + pre_table.to_multiset().count(b as BlockId));
                            }
                        }
                        assert(self.wf_with(block_table@.to_multiset()));
                        if old(self).refs_exact() {
                            assert forall|b: int| 0 <= b < blocks.len() implies refs(self.block_tables()).count(
                                b as BlockId,
                            ) + block_table@.to_multiset().count(b as BlockId) == (
                            #[trigger] blocks[b]).ref_count by {
                                assert(pre_blocks[b].ref_count == refs(self.block_tables()).count(
                                    b as BlockId,
                                ) + pre_table.to_multiset().count(b as BlockId));
                                if b != cached_block_id {
                                    assert(blocks[b] == pre_blocks[b]);
                                }
                            }
                        }
                    }
                },
                None => {
                    let ghost pre_blocks = self.blocks@;
                    let ghost pre_table = block_table@;
                    let ghost m = misses(cache, tokens, bsn, i as nat);
                    proof {
                        assert(!chunk_cached(cache, tokens, bsn, i as int));
                        self.lemma_wf_with_weaken(block_table@.to_multiset());
                    }
                    let block_id = match self.allocate_fresh() {
                        Ok(id) => id,
                        Err(e) => {
                            proof {
                                assert(m == avail);
                                lemma_served_stuck(cache, tokens, bsn, avail, i as nat, n);
                                lemma_misses_monotone(cache, tokens, bsn, (i + 1) as nat, n);
                                assert(self.blocks@ == pre_blocks);
                                assert(self.prefix_cache@ == cache);
                                assert(self.block_tables() == old_tables);
                                assert(fresh_needed(cache, tokens, bsn) > avail);
                                assert(self.free_list@ == free0.skip(avail as int));
                                assert(served(cache, tokens, bsn, avail, n) == i);
                            }
                            return Err(e);
                        },
                    };
                    block_table.push(block_id);
                    proof {
                        broadcast use vstd::multiset::group_multiset_axioms, vstd::seq_lib::group_to_multiset_ensures;
                        assert(block_id == free0[m as int]);
                        assert(self.free_list@ =~= free0.skip(m + 1int));
                        assert forall|b: int| 0 <= b < pre_blocks.len() implies #[trigger] hits_on(cache, tokens, bsn, (i + 1) as nat, b as BlockId) == hits_on(cache, tokens, bsn, i as nat, b as BlockId) by {
                        }
                        lemma_fresh_step(blocks0, cache, free0, tokens, bsn, m, i as nat, (i + 1) as nat, pre_blocks);
                        let planned = planned_table(cache, free0, tokens, bsn);
                        assert(planned[i as int] == block_id);
                        assert(block_table@ =~= planned.take(i + 1));
                        assert(pre_blocks[block_id as int].state == BlockState::Free);
                        self.lemma_covered_after_fresh(pre_blocks, pre_table, block_id);
                    }
                },
            }
            i = i + 1;
        }
        let ghost m = misses(cache, tokens, bsn, n);
        let ghost planned = planned_table(cache, free0, tokens, bsn);
        proof {
            assert(i == n);
        }
        if prompt_tokens.len() % bs != 0 {
            let ghost pre_blocks = self.blocks@;
            let ghost pre_table = block_table@;
            proof {
                self.lemma_wf_with_weaken(block_table@.to_multiset());
            }
            let block_id = match self.allocate_fresh() {
                Ok(id) => id,
                Err(e) => {
                    proof {
                        assert(m == avail);
                        assert(self.blocks@ == pre_blocks);
                    }
                    return Err(e);
                },
            };
            block_table.push(block_id);
            proof {
                assert(block_id == free0[m as int]);
                assert(self.free_list@ =~= free0.skip(m + 1int));
                lemma_fresh_step(blocks0, cache, free0, tokens, bsn, m, n, n, pre_blocks);
                assert(planned == pre_table.push(block_id));
                assert(pre_blocks[block_id as int].state == BlockState::Free);
                self.lemma_covered_after_fresh(pre_blocks, pre_table, block_id);
            }
        } else {
            proof {
                assert(block_table@ =~= planned);
            }
        }
        let ghost table = block_table@;
        proof {
            assert(table == planned);
        }
        self.block_tables.insert(request_id, block_table);
        proof {
            broadcast use vstd::multiset::group_multiset_axioms;
            let tables = self.block_tables();
            assert(tables =~= old_tables.insert(request_id, table));
            lemma_refs_insert(old_tables, request_id, table);
            if old_tables.contains_key(request_id) {
                lemma_refs_remove(old_tables, request_id);
            } else {
                assert(old_tables.remove(request_id) =~= old_tables);
            }
            let blocks = self.blocks@;
            assert forall|b: int| 0 <= b < blocks.len() implies refs(tables).count(b as BlockId)
                + Multiset::<BlockId>::empty().count(b as BlockId) <= (#[trigger] blocks[b]).ref_count by {
                assert(refs(old_tables).count(b as BlockId) + table.to_multiset().count(b as BlockId)
                    <= blocks[b].ref_count);
            }
            assert forall|r: RequestId, j: int|
                tables.contains_key(r) && 0 <= j < tables[r].len() implies #[trigger] tables[r][j]
                    < blocks.len() by {
                if r != request_id {
                    assert(tables[r] == old_tables[r]);
                } else {
                    assert(tables[r][j] == table[j]);
                }
            }
            if old(self).refs_exact() && !old_tables.contains_key(request_id) {
                assert forall|b: int| 0 <= b < blocks.len() implies refs(tables).count(b as BlockId)
                    + Multiset::<BlockId>::empty().count(b as BlockId) == (#[trigger] blocks[b]).ref_count by {
                    assert(refs(old_tables).count(b as BlockId) + table.to_multiset().count(b as BlockId)
                        == blocks[b].ref_count);
                }
            }
        }
        Ok(())
    }

    /// Records that the full blocks of a request's prompt now hold computed
    /// KV entries, and offers them to later requests through the prefix
    /// cache.
    pub fn mark_computed(&mut self, request_id: RequestId, prompt_tokens: &[TokenId]) -> (r: Result<
        (),
        AllocationError,
    >)
        requires
            old(self).wf(),
            old(self).block_tables().contains_key(request_id) ==> old(self).spec_block_size() > 0,
            old(self).block_tables().contains_key(request_id) ==> prompt_tokens@.len()
                / (old(self).spec_block_size() as nat) <= old(self).block_tables()[request_id].len(),
        ensures
            final(self).wf(),
            final(self).spec_block_size() == old(self).spec_block_size(),
            final(self).free_list() == old(self).free_list(),
            final(self).block_tables() == old(self).block_tables(),
            old(self).refs_exact() ==> final(self).refs_exact(),
            !old(self).block_tables().contains_key(request_id) ==> (r matches Err(
                AllocationError::RequestNotFound,
            ) && final(self).same_blocks(old(self))),
            old(self).block_tables().contains_key(request_id) ==> r is Ok && (
            final(self).blocks(),
            final(self).prefix_cache(),
            ) == compute_table(
                (old(self).blocks(), old(self).prefix_cache()),
                old(self).block_tables()[request_id],
                prompt_tokens@,
                old(self).spec_block_size() as nat,
                prompt_tokens@.len() / (old(self).spec_block_size() as nat),
            ),
            old(self).block_tables().contains_key(request_id) ==> ({
                let t = old(self).block_tables()[request_id];
                let bs = old(self).spec_block_size() as nat;
                let n = prompt_tokens@.len() / bs;
                &&& forall|j: int|
                    0 <= j < n ==> (#[trigger] final(self).blocks()[t[j] as int]).state
                        == BlockState::Computed
                &&& forall|b: int|
                    0 <= b < old(self).blocks().len() ==> (#[trigger] final(self).blocks()[b]).ref_count
                        == old(self).blocks()[b].ref_count
                &&& forall|h: ContentHash|
                    #[trigger] old(self).prefix_cache().contains_key(h)
                        ==> final(self).prefix_cache().contains_key(h)
                &&& forall|j: int|
                    0 <= j < n && old(self).blocks()[t[j] as int].state != BlockState::Computed
                        && !t.take(j).contains(t[j]) ==> final(self).prefix_cache().contains_key(
                        #[trigger] chunk_hash(prompt_tokens@, bs, j),
                    )
            }),
    {
        let ghost old_tables = self.block_tables();
        let block_table = match self.block_tables.get(&request_id) {
            Some(t) => t,
            None => {
                return Err(AllocationError::RequestNotFound);
            },
        };
        let bs = self.block_size;
        let num_full_blocks = prompt_tokens.len() / bs;
        let ghost t = block_table@;
        let ghost st0 = (self.blocks@, self.prefix_cache@);
        proof {
            assert(t == old_tables[request_id]);
            assert(num_full_blocks * bs <= prompt_tokens@.len()) by (nonlinear_arith)
                requires
                    num_full_blocks == prompt_tokens@.len() / (bs as nat),
                    bs > 0,
            ;
            assert forall|j: int| 0 <= j < t.len() implies #[trigger] t[j] < self.blocks@.len() by {
                assert(old_tables[request_id][j] == t[j]);
            }
        }
        let mut i: usize = 0;
        while i < num_full_blocks
            invariant
                i <= num_full_blocks,
                num_full_blocks <= t.len(),
                num_full_blocks * bs <= prompt_tokens@.len(),
                bs == self.block_size,
                bs > 0,
                block_table@ == t,
                old_tables.contains_key(request_id),
                t == old_tables[request_id],
                self.block_tables() == old_tables,
                self.free_list@ == old(self).free_list@,
                self.blocks@.len() == old(self).blocks@.len(),
                forall|j: int| 0 <= j < t.len() ==> #[trigger] t[j] < self.blocks@.len(),
                self.wf(),
                (self.blocks@, self.prefix_cache@) == compute_table(
                    st0,
                    t,
                    prompt_tokens@,
                    bs as nat,
                    i as nat,
                ),
            decreases num_full_blocks - i,
        {
            let block_id = block_table[i];
            proof {
                assert((i + 1) * bs <= num_full_blocks * bs) by (nonlinear_arith)
                    requires
                        i + 1 <= num_full_blocks,
                ;
                assert(i * bs <= (i + 1) * bs) by (nonlinear_arith);
                assert(prompt_tokens@.len() == prompt_tokens.len());
            }
            let start = i * bs;
            let end = (i + 1) * bs;
            let hash = Self::hash_tokens(&prompt_tokens[start..end]);
            let ghost pre_blocks = self.blocks@;
            let ghost pre_cache = self.prefix_cache@;
            if self.blocks[block_id].state != BlockState::Computed {
                let mut block = self.blocks[block_id];
                block.state = BlockState::Computed;
                block.content_hash = Some(hash);
                self.blocks[block_id] = block;
                self.prefix_cache.insert(hash, block_id);
                proof {
                    let blocks = self.blocks@;
                    let cache = self.prefix_cache@;
                    self.lemma_tables_finite();
                    lemma_refs_of_table(old_tables, request_id, block_id);
                    assert(t[i as int] == block_id);
                    assert(t.contains(block_id));
                    assert(pre_blocks[block_id as int].state != BlockState::Free);
                    assert forall|h: ContentHash| #[trigger] cache.contains_key(h) implies {
                        &&& cache[h] < blocks.len()
                        &&& blocks[cache[h] as int].state == BlockState::Computed
                        &&& blocks[cache[h] as int].content_hash == Some(h)
                    } by {
                        if h != hash {
                            assert(pre_cache.contains_key(h) && pre_cache[h] == cache[h]);
                            assert(cache[h] != block_id);
                        }
                    }
                    assert forall|k: int| 0 <= k < blocks.len() implies ((#[trigger] blocks[k]).state
                        == BlockState::Free <==> self.free_list@.contains(k as BlockId)) by {
                        if k != block_id {
                            assert(blocks[k] == pre_blocks[k]);
                        }
                    }
                    assert(self.refs_covered(Multiset::empty())) by {
                        assert forall|b: int| 0 <= b < blocks.len() implies refs(self.block_tables()).count(
                            b as BlockId,
                        ) + Multiset::<BlockId>::empty().count(b as BlockId) <= (
                        #[trigger] blocks[b]).ref_count by {
                            if b != block_id {
                                assert(blocks[b] == pre_blocks[b]);
                            }
                        }
                    }
                }
            }
            i = i + 1;
        }
        proof {
            assert(st0.0.len() == self.blocks@.len());
            assert(self.blocks@.len() == self.blocks.len());
            lemma_compute_table(st0, t, prompt_tokens@, bs as nat, num_full_blocks as nat);
            assert(old(self).blocks() == st0.0);
            assert(old(self).prefix_cache() == st0.1);
            if old(self).refs_exact() {
                assert forall|b: int| 0 <= b < self.blocks@.len() implies refs(self.block_tables()).count(
                    b as BlockId,
                ) + Multiset::<BlockId>::empty().count(b as BlockId) == (
                #[trigger] self.blocks@[b]).ref_count by {
                    assert(old(self).blocks@[b].ref_count == self.blocks@[b].ref_count);
                }
            }
        }
        Ok(())
    }

    /// What the manager keeps true at all times: block `i` has id `i`; a
    /// block is free exactly when it is on the free list and exactly when no
    /// one holds a reference to it; the free list names each block once;
    /// every prefix-cache entry names a computed block that holds the
    /// entry's hash; every block in a table exists and is held, and its
    /// reference count covers all its entries in all tables; a block not
    /// yet computed is named once in all tables, so only computed blocks
    /// are shared or repeated.
    pub proof fn lemma_invariant(&self)
        requires
            self.wf(),
        ensures
            self.free_list().no_duplicates(),
            forall|i: int| 0 <= i < self.blocks().len() ==> (#[trigger] self.blocks()[i]).id == i,
            forall|i: int|
                0 <= i < self.blocks().len() ==> ((#[trigger] self.blocks()[i]).state
                    == BlockState::Free <==> self.free_list().contains(i as BlockId)),
            forall|i: int|
                0 <= i < self.blocks().len() ==> ((#[trigger] self.blocks()[i]).state
                    == BlockState::Free <==> self.blocks()[i].ref_count == 0),
            forall|j: int|
                0 <= j < self.free_list().len() ==> #[trigger] self.free_list()[j]
                    < self.blocks().len(),
            forall|h: ContentHash|
                #[trigger] self.prefix_cache().contains_key(h) ==> {
                    let b = self.prefix_cache()[h];
                    &&& b < self.blocks().len()
                    &&& self.blocks()[b as int].state == BlockState::Computed
                    &&& self.blocks()[b as int].content_hash == Some(h)
                },
            forall|r: RequestId, j: int|
                self.block_tables().contains_key(r) && 0 <= j < self.block_tables()[r].len() ==> {
                    let b = #[trigger] self.block_tables()[r][j];
                    &&& b < self.blocks().len()
                    &&& self.blocks()[b as int].state != BlockState::Free
                    &&& self.block_tables()[r].to_multiset().count(b) <= self.blocks()[b as int].ref_count
                    &&& self.blocks()[b as int].state != BlockState::Computed
                        ==> refs(self.block_tables()).count(b) == 1
                },
            forall|r: RequestId, i: int, j: int|
                self.block_tables().contains_key(r) && 0 <= i < self.block_tables()[r].len() && 0 <= j
                    < self.block_tables()[r].len() && i != j && #[trigger] self.block_tables()[r][i]
                    == #[trigger] self.block_tables()[r][j] ==> self.blocks()[self.block_tables()[r][i] as int].state
                    == BlockState::Computed,
    {
        broadcast use vstd::multiset::group_multiset_axioms, vstd::seq_lib::group_to_multiset_ensures;
        self.lemma_tables_finite();
        assert forall|r: RequestId, j: int|
            self.block_tables().contains_key(r) && 0 <= j < self.block_tables()[r].len() implies {
                let b = #[trigger] self.block_tables()[r][j];
                &&& b < self.blocks().len()
                &&& self.blocks()[b as int].state != BlockState::Free
                &&& self.block_tables()[r].to_multiset().count(b) <= self.blocks()[b as int].ref_count
                &&& self.blocks()[b as int].state != BlockState::Computed
                    ==> refs(self.block_tables()).count(b) == 1
            } by {
            let b = self.block_tables()[r][j];
            lemma_refs_of_table(self.block_tables(), r, b);
            assert(self.block_tables()[r].contains(b));
            assert(refs(self.block_tables()).count(b) + Multiset::<BlockId>::empty().count(b)
                <= self.blocks@[b as int].ref_count);
        }
        assert forall|r: RequestId, i: int, j: int|
            self.block_tables().contains_key(r) && 0 <= i < self.block_tables()[r].len() && 0 <= j
                < self.block_tables()[r].len() && i != j && #[trigger] self.block_tables()[r][i]
                == #[trigger] self.block_tables()[r][j] implies self.blocks()[self.block_tables()[r][i] as int].state
                == BlockState::Computed by {
            let t = self.block_tables()[r];
            lemma_repeated_entry(t, i, j);
            lemma_refs_of_table(self.block_tables(), r, t[i]);
            assert(t[i] < self.blocks@.len());
        }
    }

    /// Exact accounting: where every reference count is the block's number
    /// of table entries, a block is free exactly when no table names it,
    /// the blocks that tables name are all real blocks, and the free list
    /// holds as many blocks as there are blocks named by no table.
    pub proof fn lemma_exact_accounting(&self)
        requires
            self.wf(),
            self.refs_exact(),
        ensures
            forall|b: BlockId| #[trigger] self.holds(b) ==> b < self.blocks().len(),
            forall|b: BlockId|
                b < self.blocks().len() ==> (#[trigger] self.free_list().contains(b) <==> !self.holds(
                    b,
                )),
            self.held_ids().finite(),
            self.free_list().len() + self.held_ids().len() == self.blocks().len(),
    {
        broadcast use vstd::multiset::group_multiset_axioms, vstd::set_lib::lemma_set_subset_finite;
        self.lemma_invariant();
        self.lemma_tables_finite();
        let n = self.blocks@.len();
        let tables = self.block_tables();
        assert forall|b: BlockId| #[trigger] self.holds(b) implies b < n && refs(tables).count(b) >= 1 by {
            let r = choose|r: RequestId| #[trigger] tables.contains_key(r) && tables[r].contains(b);
            let j = choose|j: int| 0 <= j < tables[r].len() && #[trigger] tables[r][j] == b;
            lemma_refs_of_table(tables, r, b);
        }
        assert forall|b: BlockId| b < n implies (#[trigger] self.free_list().contains(b) <==> !self.holds(b)) by {
            assert(refs(tables).count(b) + Multiset::<BlockId>::empty().count(b)
                == self.blocks@[b as int].ref_count);
            if refs(tables).count(b) > 0 {
                lemma_refs_named(tables, b);
            }
        }
        let all = Seq::new(n, |i: int| i as BlockId);
        assert(all.no_duplicates());
        all.unique_seq_to_set();
        let free = self.free_list@;
        free.unique_seq_to_set();
        let held = self.held_ids();
        assert(held.subset_of(all.to_set())) by {
            assert forall|b: BlockId| held.contains(b) implies all.to_set().contains(b) by {
                assert(all[b as int] == b);
            }
        }
        assert(free.to_set().disjoint(held));
        assert(free.to_set() + held =~= all.to_set()) by {
            assert forall|b: BlockId| all.to_set().contains(b) implies (free.to_set() + held).contains(b) by {
                let i = choose|i: int| 0 <= i < all.len() && #[trigger] all[i] == b;
                assert(b < n);
            }
            assert forall|b: BlockId| free.to_set().contains(b) implies all.to_set().contains(b) by {
                let i = choose|i: int| 0 <= i < free.len() && #[trigger] free[i] == b;
                assert(all[b as int] == b);
            }
        }
        vstd::set_lib::lemma_set_disjoint_lens(free.to_set(), held);
    }

    /// When `can_allocate` says a prompt's length fits, allocating that
    /// prompt succeeds: cache hits only lower what it takes.
    pub proof fn lemma_can_allocate_suffices(&self, tokens: Seq<TokenId>)
        requires
            self.spec_block_size() > 0,
            spec_blocks_needed(tokens.len(), self.spec_block_size() as nat)
                <= self.free_list().len(),
        ensures
            fresh_needed(self.prefix_cache(), tokens, self.spec_block_size() as nat)
                <= self.free_list().len(),
    {
        lemma_fresh_needed(self.prefix_cache(), tokens, self.spec_block_size() as nat);
    }

    /// Prefix reuse: once a request's prompt has been allocated and then
    /// marked computed, the prefix cache holds every full block of that
    /// prompt, so allocating the same prompt again takes a fresh block for
    /// its partial block only. `allocated` is what a successful `allocate`
    /// of `tokens` for `request_id` leaves of `pre`, and `computed` what
    /// `mark_computed` of the same leaves of `allocated`.
    pub proof fn lemma_prefix_reuse(
        pre: &Self,
        allocated: &Self,
        computed: &Self,
        request_id: RequestId,
        tokens: Seq<TokenId>,
    )
        requires
            pre.wf(),
            pre.spec_block_size() > 0,
            ({
                let bs = pre.spec_block_size() as nat;
                let cache = pre.prefix_cache();
                let free = pre.free_list();
                let need = fresh_needed(cache, tokens, bs);
                &&& need <= free.len()
                &&& allocated.prefix_cache() == cache
                &&& allocated.blocks() == blocks_after_allocation(
                    pre.blocks(),
                    cache,
                    free,
                    tokens,
                    bs,
                    need,
                    served(cache, tokens, bs, free.len(), tokens.len() / bs),
                )
                &&& allocated.block_tables() == pre.block_tables().insert(
                    request_id,
                    planned_table(cache, free, tokens, bs),
                )
                &&& (computed.blocks(), computed.prefix_cache()) == compute_table(
                    (allocated.blocks(), allocated.prefix_cache()),
                    allocated.block_tables()[request_id],
                    tokens,
                    bs,
                    tokens.len() / bs,
                )
            }),
        ensures
            forall|j: int|
                0 <= j < tokens.len() / (pre.spec_block_size() as nat) ==> #[trigger] chunk_cached(
                    computed.prefix_cache(),
                    tokens,
                    pre.spec_block_size() as nat,
                    j,
                ),
            fresh_needed(computed.prefix_cache(), tokens, pre.spec_block_size() as nat) == if tokens.len()
                % (pre.spec_block_size() as nat) != 0 {
                1nat
            } else {
                0nat
            },
    {
        let bs = pre.spec_block_size() as nat;
        let cache = pre.prefix_cache();
        let free = pre.free_list();
        let need = fresh_needed(cache, tokens, bs);
        let n = tokens.len() / bs;
        let t = planned_table(cache, free, tokens, bs);
        pre.lemma_invariant();
        assert forall|h: ContentHash| #[trigger] cache.contains_key(h) implies !free.contains(cache[h])
            && cache[h] < pre.blocks().len() by {
            if free.contains(cache[h]) {
                assert(pre.blocks()[cache[h] as int].state == BlockState::Free);
            }
        }
        lemma_planned_table_fresh(cache, free, tokens, bs, pre.blocks().len());
        assert(allocated.block_tables()[request_id] == t);
        let st = (allocated.blocks(), allocated.prefix_cache());
        lemma_compute_table(st, t, tokens, bs, n);
        let after = compute_table(st, t, tokens, bs, n);
        assert(computed.prefix_cache() == after.1);
        assert forall|j: int| 0 <= j < n implies #[trigger] chunk_cached(
            computed.prefix_cache(),
            tokens,
            bs,
            j,
        ) by {
            let h = chunk_hash(tokens, bs, j);
            if !chunk_cached(cache, tokens, bs, j) {
                let b = t[j];
                let mj = misses(cache, tokens, bs, j as nat);
                assert(mj < need);
                assert(b == free[mj as int]);
                assert(free.take(need as int)[mj as int] == b);
                assert(free.take(need as int).contains(b));
                assert(allocated.blocks()[b as int] == fresh_block(b));
                assert(!t.take(j).contains(t[j]));
                assert(after.1.contains_key(h));
            } else {
                assert(st.1.contains_key(h));
            }
        }
        lemma_fresh_needed(computed.prefix_cache(), tokens, bs);
    }

    /// Prefix reuse from any table: when the first `n` entries of a
    /// request's table are blocks not yet computed (so, by the invariant,
    /// distinct blocks) and the prompt's
    /// `n` full chunks have distinct hashes, marking the prompt computed
    /// registers each entry under its chunk's hash. A following allocation
    /// of the same prompt then takes those very blocks for its full chunks
    /// and a fresh block only for a partial one. `computed` is what
    /// `mark_computed` of `tokens` for `request_id` leaves of `pre`, as its
    /// contract states.
    pub proof fn lemma_computed_prefix_reused(
        pre: &Self,
        computed: &Self,
        request_id: RequestId,
        tokens: Seq<TokenId>,
        free: Seq<BlockId>,
    )
        requires
            pre.wf(),
            pre.spec_block_size() > 0,
            pre.block_tables().contains_key(request_id),
            ({
                let t = pre.block_tables()[request_id];
                let bs = pre.spec_block_size() as nat;
                let n = tokens.len() / bs;
                &&& n <= t.len()
                &&& forall|j: int|
                    0 <= j < n ==> pre.blocks()[#[trigger] t[j] as int].state != BlockState::Computed
                &&& forall|i: int, j: int|
                    0 <= i < j < n ==> #[trigger] chunk_hash(tokens, bs, i) != #[trigger] chunk_hash(
                        tokens,
                        bs,
                        j,
                    )
                &&& (computed.blocks(), computed.prefix_cache()) == compute_table(
                    (pre.blocks(), pre.prefix_cache()),
                    t,
                    tokens,
                    bs,
                    n,
                )
            }),
        ensures
            ({
                let t = pre.block_tables()[request_id];
                let bs = pre.spec_block_size() as nat;
                let n = tokens.len() / bs;
                let cache = computed.prefix_cache();
                &&& forall|j: int|
                    0 <= j < n ==> cache.contains_key(#[trigger] chunk_hash(tokens, bs, j))
                        && cache[chunk_hash(tokens, bs, j)] == t[j]
                &&& planned_table(cache, free, tokens, bs).take(n as int) == t.take(n as int)
                &&& fresh_needed(cache, tokens, bs) == if tokens.len() % bs != 0 {
                    1nat
                } else {
                    0nat
                }
            }),
    {
        let t = pre.block_tables()[request_id];
        let bs = pre.spec_block_size() as nat;
        let n = tokens.len() / bs;
        pre.lemma_invariant();
        assert forall|j: int| 0 <= j < n implies #[trigger] t[j] < pre.blocks().len() by {
        }
        assert forall|i: int, j: int| 0 <= i < j < n implies #[trigger] t[i] != #[trigger] t[j] by {
            if t[i] == t[j] {
                assert(pre.blocks()[t[i] as int].state != BlockState::Computed);
            }
        }
        lemma_compute_table_registers((pre.blocks(), pre.prefix_cache()), t, tokens, bs, n);
        let cache = computed.prefix_cache();
        assert forall|j: int| 0 <= j < n implies #[trigger] chunk_cached(cache, tokens, bs, j) by {
        }
        lemma_fresh_needed(cache, tokens, bs);
        lemma_planned_table_len(cache, free, tokens, bs);
        lemma_blocks_needed(tokens.len(), bs);
        assert(planned_table(cache, free, tokens, bs).take(n as int) =~= t.take(n as int));
    }

    /// Freeing undoes allocating: when a request that has no table is
    /// allocated successfully and then freed, the free list is as long as
    /// before and the block tables are as before. Blocks shared through the
    /// prefix cache only lose the references the request took. `allocated`
    /// is what the successful `allocate` of `tokens` for `request_id` leaves
    /// of `pre`, and `freed` what `free` of that request then leaves, as
    /// their contracts state.
    #[verifier::rlimit(60)]
    pub proof fn lemma_free_undoes_allocate(
        pre: &Self,
        allocated: &Self,
        freed: &Self,
        request_id: RequestId,
        tokens: Seq<TokenId>,
    )
        requires
            pre.wf(),
            pre.spec_block_size() > 0,
            !pre.block_tables().contains_key(request_id),
            forall|b: int|
                0 <= b < pre.blocks().len() ==> (#[trigger] pre.blocks()[b]).ref_count + hits_on(
                    pre.prefix_cache(),
                    tokens,
                    pre.spec_block_size() as nat,
                    tokens.len() / (pre.spec_block_size() as nat),
                    b as BlockId,
                ) <= u32::MAX,
            ({
                let bs = pre.spec_block_size() as nat;
                let cache = pre.prefix_cache();
                let free = pre.free_list();
                let need = fresh_needed(cache, tokens, bs);
                &&& need <= free.len()
                &&& allocated.free_list() == free.skip(need as int)
                &&& allocated.blocks() == blocks_after_allocation(
                    pre.blocks(),
                    cache,
                    free,
                    tokens,
                    bs,
                    need,
                    served(cache, tokens, bs, free.len(), tokens.len() / bs),
                )
                &&& allocated.block_tables() == pre.block_tables().insert(
                    request_id,
                    planned_table(cache, free, tokens, bs),
                )
            }),
            freed.wf(),
            ({
                let t = allocated.block_tables()[request_id];
                let old_free = allocated.free_list();
                &&& freed.block_tables() == allocated.block_tables().remove(request_id)
                &&& freed.free_list().len() >= old_free.len()
                &&& freed.free_list().take(old_free.len() as int) == old_free
                &&& forall|j: int|
                    old_free.len() <= j < freed.free_list().len() ==> t.contains(
                        #[trigger] freed.free_list()[j],
                    )
                &&& forall|b: BlockId|
                    #[trigger] t.contains(b) ==> {
                        let held = t.to_multiset().count(b);
                        &&& allocated.blocks()[b as int].ref_count == held
                            ==> freed.free_list().contains(b)
                        &&& allocated.blocks()[b as int].ref_count > held
                            ==> freed.blocks()[b as int].state == allocated.blocks()[b as int].state
                    }
            }),
        ensures
            freed.free_list().len() == pre.free_list().len(),
            freed.block_tables() == pre.block_tables(),
    {
        broadcast use vstd::seq_lib::group_to_multiset_ensures;
        let bs = pre.spec_block_size() as nat;
        let cache = pre.prefix_cache();
        let free = pre.free_list();
        let need = fresh_needed(cache, tokens, bs);
        let n = tokens.len() / bs;
        let t = allocated.block_tables()[request_id];
        let fresh = free.take(need as int);
        pre.lemma_invariant();
        freed.lemma_invariant();
        assert(freed.block_tables() =~= pre.block_tables());
        assert forall|h: ContentHash| #[trigger] cache.contains_key(h) implies !free.contains(cache[h]) by {
            if free.contains(cache[h]) {
                assert(pre.blocks()[cache[h] as int].state == BlockState::Free);
            }
        }
        lemma_planned_counts(cache, free, tokens, bs);
        lemma_misses_monotone(cache, tokens, bs, n, n);
        lemma_served_all(cache, tokens, bs, free.len(), n);
        assert(t == planned_table(cache, free, tokens, bs));
        lemma_planned_table_fresh(cache, free, tokens, bs, pre.blocks().len());
        lemma_planned_table_len(cache, free, tokens, bs);
        lemma_blocks_needed(tokens.len(), bs);
        assert forall|j: int| 0 <= j < t.len() implies #[trigger] t[j] < pre.blocks().len() by {
            if j >= n {
                assert(t[j] == free[misses(cache, tokens, bs, n) as int]);
            }
        }
        // every fresh block is held once and comes back
        assert forall|b: BlockId| #[trigger] fresh.contains(b) implies freed.free_list().contains(b) by {
            let k = choose|k: int| 0 <= k < fresh.len() && #[trigger] fresh[k] == b;
            assert(free[k] == b);
            assert(t.to_multiset().count(b) == 1);
            assert(t.contains(b));
            assert(allocated.blocks()[b as int] == fresh_block(b));
        }
        // a block that comes back was fresh: a cached block keeps its state
        let old_len = allocated.free_list().len();
        let ff = freed.free_list();
        let appended = ff.skip(old_len as int);
        assert forall|b: BlockId| appended.contains(b) implies #[trigger] fresh.contains(b) by {
            let k = choose|k: int| 0 <= k < appended.len() && #[trigger] appended[k] == b;
            assert(ff[k + old_len] == b);
            assert(t.contains(b));
            let jt = choose|jt: int| 0 <= jt < t.len() && #[trigger] t[jt] == b;
            assert(b < pre.blocks().len());
            if !fresh.contains(b) {
                if free.contains(b) {
                    let x = choose|x: int| 0 <= x < free.len() && #[trigger] free[x] == b;
                    if x < need {
                        assert(fresh[x] == b);
                    }
                    assert(t.to_multiset().count(b) == 0);
                } else {
                    let held = t.to_multiset().count(b);
                    assert(held == hits_on(cache, tokens, bs, n, b));
                    assert(pre.blocks()[b as int].state != BlockState::Free);
                    assert(allocated.blocks()[b as int].ref_count == pre.blocks()[b as int].ref_count
                        + held);
                    assert(freed.blocks()[b as int].state == pre.blocks()[b as int].state);
                    assert(ff.contains(b));
                }
            }
        }
        assert forall|b: BlockId| #[trigger] fresh.contains(b) implies appended.contains(b) by {
            let k = choose|k: int| 0 <= k < ff.len() && #[trigger] ff[k] == b;
            let i = choose|i: int| 0 <= i < fresh.len() && #[trigger] fresh[i] == b;
            if k < old_len {
                assert(ff[k] == allocated.free_list()[k]);
                assert(free[k + need] == b);
                assert(free[i] == b);
            } else {
                assert(appended[k - old_len] == b);
            }
        }
        assert(appended.no_duplicates());
        assert(fresh.no_duplicates());
        assert(appended.to_set() =~= fresh.to_set());
        appended.unique_seq_to_set();
        fresh.unique_seq_to_set();
    }

    /// The block table of a request, if it has one.
    pub fn get(&self, request_id: RequestId) -> (t: Option<&Vec<BlockId>>)
        ensures
            match t {
                Some(t) => self.block_tables().contains_key(request_id)
                    && t@ == self.block_tables()[request_id],
                None => !self.block_tables().contains_key(request_id),
            },
    {
        self.block_tables.get(&request_id)
    }
}

} // verus!
