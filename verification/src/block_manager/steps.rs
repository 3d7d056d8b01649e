//! What releasing a table and marking a table computed do to the blocks,
//! the prefix cache and the free list, entry by entry.
use vstd::prelude::*;
use crate::block_manager::hashing::chunk_hash;
use crate::block_manager::{BlockState, PhysicalBlock, free_block};
use crate::types::{BlockId, ContentHash, TokenId};

verus! {

/// The state a table's release acts on: blocks, prefix cache, free list.
pub type ReleaseState = (Seq<PhysicalBlock>, Map<ContentHash, BlockId>, Seq<BlockId>);

/// One table entry given back: the block loses a reference; when none is
/// left it leaves the prefix cache if the cache names it, loses its
/// content, becomes free and goes to the back of the free list.
pub open spec fn release_step(st: ReleaseState, b: BlockId) -> ReleaseState {
    let (blocks, cache, free) = st;
    let blk = blocks[b as int];
    if blk.ref_count == 1 {
        let cache2 = match blk.content_hash {
            Some(h) => if cache.contains_key(h) && cache[h] == b {
                cache.remove(h)
            } else {
                cache
            },
            None => cache,
        };
        (blocks.update(b as int, free_block(blk.id)), cache2, free.push(b))
    } else {
        (
            blocks.update(
                b as int,
                PhysicalBlock {
                    id: blk.id,
                    state: blk.state,
                    ref_count: (blk.ref_count - 1) as u32,
                    content_hash: blk.content_hash,
                },
            ),
            cache,
            free,
        )
    }
}

/// The entries of a table given back one after another, first to last.
pub open spec fn release_table(st: ReleaseState, t: Seq<BlockId>) -> ReleaseState
    decreases t.len(),
{
    if t.len() == 0 {
        st
    } else {
        release_step(release_table(st, t.drop_last()), t.last())
    }
}

/// Giving back one entry of a block that is not free keeps the prefix
/// cache what it was at the start of the release, less the entries whose
/// block is free by now.
pub proof fn lemma_release_step_cache(start: Map<ContentHash, BlockId>, st: ReleaseState, b: BlockId)
    requires
        b < st.0.len(),
        st.0[b as int].state != BlockState::Free,
        forall|h: ContentHash| #[trigger] start.contains_key(h) ==> start[h] < st.0.len(),
        forall|h: ContentHash|
            #![trigger st.1.contains_key(h)]
            #![trigger start.contains_key(h)]
            st.1.contains_key(h) <==> (start.contains_key(h) && st.0[start[h] as int].state
                != BlockState::Free),
        forall|h: ContentHash| #[trigger] st.1.contains_key(h) ==> st.1[h] == start[h],
        forall|h: ContentHash|
            #[trigger] st.1.contains_key(h) ==> st.0[st.1[h] as int].content_hash == Some(h),
    ensures
        ({
            let (blocks, cache, _) = release_step(st, b);
            &&& forall|h: ContentHash|
                #![trigger cache.contains_key(h)]
                #![trigger start.contains_key(h)]
                cache.contains_key(h) <==> (start.contains_key(h) && blocks[start[h] as int].state
                    != BlockState::Free)
            &&& forall|h: ContentHash| #[trigger] cache.contains_key(h) ==> cache[h] == start[h]
        }),
{
    let (blocks, cache, _) = release_step(st, b);
    let freed = st.0[b as int].ref_count == 1;
    assert forall|h: ContentHash|
        #![trigger cache.contains_key(h)]
        #![trigger start.contains_key(h)]
        cache.contains_key(h) <==> (start.contains_key(h) && blocks[start[h] as int].state
            != BlockState::Free) by {
        if start.contains_key(h) {
            let ob = start[h];
            if ob != b {
                assert(blocks[ob as int] == st.0[ob as int]);
                if st.1.contains_key(h) {
                    assert(st.1[h] == ob);
                }
            } else if freed && st.1.contains_key(h) {
                assert(st.1[h] == b);
                assert(st.0[b as int].content_hash == Some(h));
            }
        }
    }
}

/// The state that marking blocks computed acts on: blocks, prefix cache.
pub type ComputeState = (Seq<PhysicalBlock>, Map<ContentHash, BlockId>);

/// One table entry marked computed with content hash `h`: a block not yet
/// computed takes the hash and is registered under it in the prefix cache;
/// a computed block stays as it is.
pub open spec fn compute_step(st: ComputeState, b: BlockId, h: ContentHash) -> ComputeState {
    let (blocks, cache) = st;
    let blk = blocks[b as int];
    if blk.state != BlockState::Computed {
        (
            blocks.update(
                b as int,
                PhysicalBlock {
                    id: blk.id,
                    state: BlockState::Computed,
                    ref_count: blk.ref_count,
                    content_hash: Some(h),
                },
            ),
            cache.insert(h, b),
        )
    } else {
        st
    }
}

/// The first `n` entries of table `t` marked computed one after another,
/// entry `i` with the hash of the `i`-th full block of `tokens`.
pub open spec fn compute_table(
    st: ComputeState,
    t: Seq<BlockId>,
    tokens: Seq<TokenId>,
    block_size: nat,
    n: nat,
) -> ComputeState
    decreases n,
{
    if n == 0 {
        st
    } else {
        compute_step(
            compute_table(st, t, tokens, block_size, (n - 1) as nat),
            t[n - 1],
            chunk_hash(tokens, block_size, n - 1),
        )
    }
}

/// Marking the first `n` entries of a table computed leaves each of them
/// computed, keeps every reference count and every other block, only adds
/// to the prefix cache, and registers the hash of each entry whose block
/// was not computed before and does not occur earlier in the table.
pub proof fn lemma_compute_table(
    st: ComputeState,
    t: Seq<BlockId>,
    tokens: Seq<TokenId>,
    block_size: nat,
    n: nat,
)
    requires
        n <= t.len(),
        st.0.len() <= usize::MAX,
        forall|j: int| 0 <= j < n ==> #[trigger] t[j] < st.0.len(),
    ensures
        ({
            let (blocks, cache) = compute_table(st, t, tokens, block_size, n);
            &&& blocks.len() == st.0.len()
            &&& forall|j: int| 0 <= j < n ==> (#[trigger] blocks[t[j] as int]).state == BlockState::Computed
            &&& forall|b: int| 0 <= b < st.0.len() ==> (#[trigger] blocks[b]).ref_count == st.0[b].ref_count
            &&& forall|b: int| 0 <= b < st.0.len() && !t.take(n as int).contains(b as BlockId)
                ==> #[trigger] blocks[b] == st.0[b]
            &&& forall|h: ContentHash| #[trigger] st.1.contains_key(h) ==> cache.contains_key(h)
            &&& forall|j: int|
                0 <= j < n && st.0[t[j] as int].state != BlockState::Computed && !t.take(j).contains(
                    t[j],
                ) ==> cache.contains_key(#[trigger] chunk_hash(tokens, block_size, j))
        }),
    decreases n,
{
    if n > 0 {
        let m = (n - 1) as nat;
        lemma_compute_table(st, t, tokens, block_size, m);
        let (pb, pc) = compute_table(st, t, tokens, block_size, m);
        let (blocks, cache) = compute_table(st, t, tokens, block_size, n);
        let last = t[m as int];
        assert(t.take(n as int) =~= t.take(m as int).push(last));
        assert forall|b: int| 0 <= b < st.0.len() && !t.take(n as int).contains(b as BlockId)
            implies #[trigger] blocks[b] == st.0[b] by {
            assert(t.take(n as int)[m as int] == last);
            assert(b != last);
            if t.take(m as int).contains(b as BlockId) {
                let x = choose|x: int| 0 <= x < t.take(m as int).len() && #[trigger] t.take(m as int)[x] == b as BlockId;
                assert(t.take(n as int)[x] == b as BlockId);
            }
        }
        assert forall|j: int|
            0 <= j < n && st.0[t[j] as int].state != BlockState::Computed && !t.take(j).contains(t[j])
            implies cache.contains_key(#[trigger] chunk_hash(tokens, block_size, j)) by {
            if j == m {
                assert(!t.take(m as int).contains(last));
                assert(pb[last as int] == st.0[last as int]);
            }
        }
    }
}

/// Marking computed the first `n` entries of a table, each a distinct
/// block not yet computed and each with its own chunk hash, registers
/// every one of them in the prefix cache under its chunk's hash.
pub proof fn lemma_compute_table_registers(
    st: ComputeState,
    t: Seq<BlockId>,
    tokens: Seq<TokenId>,
    block_size: nat,
    n: nat,
)
    requires
        n <= t.len(),
        st.0.len() <= usize::MAX,
        forall|j: int| 0 <= j < n ==> #[trigger] t[j] < st.0.len(),
        forall|j: int| 0 <= j < n ==> st.0[#[trigger] t[j] as int].state != BlockState::Computed,
        forall|i: int, j: int| 0 <= i < j < n ==> #[trigger] t[i] != #[trigger] t[j],
        forall|i: int, j: int|
            0 <= i < j < n ==> #[trigger] chunk_hash(tokens, block_size, i) != #[trigger] chunk_hash(
                tokens,
                block_size,
                j,
            ),
    ensures
        forall|j: int|
            0 <= j < n ==> {
                let cache = compute_table(st, t, tokens, block_size, n).1;
                &&& cache.contains_key(#[trigger] chunk_hash(tokens, block_size, j))
                &&& cache[chunk_hash(tokens, block_size, j)] == t[j]
            },
    decreases n,
{
    if n > 0 {
        let m = (n - 1) as nat;
        lemma_compute_table_registers(st, t, tokens, block_size, m);
        lemma_compute_table(st, t, tokens, block_size, m);
        let pre = compute_table(st, t, tokens, block_size, m);
        let last = t[m as int];
        assert(!t.take(m as int).contains(last)) by {
            if t.take(m as int).contains(last) {
                let k = choose|k: int| 0 <= k < t.take(m as int).len() && #[trigger] t.take(m as int)[k] == last;
                assert(t[k] == last);
            }
        }
        assert(pre.0[last as int] == st.0[last as int]);
        assert forall|j: int| 0 <= j < n implies {
            let cache = compute_table(st, t, tokens, block_size, n).1;
            &&& cache.contains_key(#[trigger] chunk_hash(tokens, block_size, j))
            &&& cache[chunk_hash(tokens, block_size, j)] == t[j]
        } by {
            if j < m {
                assert(chunk_hash(tokens, block_size, j) != chunk_hash(tokens, block_size, m as int));
            }
        }
    }
}

} // verus!
