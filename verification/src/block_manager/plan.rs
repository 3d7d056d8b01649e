//! The plan of an allocation: which full blocks of a prompt the prefix
//! cache serves, which blocks come from the free list, and where an
//! allocation stops when the free list runs dry.
use vstd::multiset::Multiset;
use vstd::prelude::*;
use crate::block_manager::hashing::chunk_hash;
use crate::block_manager::{BlockState, PhysicalBlock, fresh_block, spec_blocks_needed};
use crate::types::{BlockId, ContentHash, TokenId};

verus! {

/// Whether the `i`-th full block of `tokens` is found in the prefix cache.
pub open spec fn chunk_cached(
    cache: Map<ContentHash, BlockId>,
    tokens: Seq<TokenId>,
    block_size: nat,
    i: int,
) -> bool {
    cache.contains_key(chunk_hash(tokens, block_size, i))
}

/// How many of the first `i` full blocks of `tokens` miss the prefix cache.
pub open spec fn misses(
    cache: Map<ContentHash, BlockId>,
    tokens: Seq<TokenId>,
    block_size: nat,
    i: nat,
) -> nat
    decreases i,
{
    if i == 0 {
        0
    } else if chunk_cached(cache, tokens, block_size, i - 1) {
        misses(cache, tokens, block_size, (i - 1) as nat)
    } else {
        misses(cache, tokens, block_size, (i - 1) as nat) + 1
    }
}

/// How many of the first `i` full blocks of `tokens` the prefix cache
/// finds in block `b`.
pub open spec fn hits_on(
    cache: Map<ContentHash, BlockId>,
    tokens: Seq<TokenId>,
    block_size: nat,
    i: nat,
    b: BlockId,
) -> nat
    decreases i,
{
    if i == 0 {
        0
    } else if chunk_cached(cache, tokens, block_size, i - 1) && cache[chunk_hash(
        tokens,
        block_size,
        i - 1,
    )] == b {
        hits_on(cache, tokens, block_size, (i - 1) as nat, b) + 1
    } else {
        hits_on(cache, tokens, block_size, (i - 1) as nat, b)
    }
}

/// The fresh blocks that `tokens` need: one for each full block that
/// misses the prefix cache and one for a trailing partial block.
pub open spec fn fresh_needed(
    cache: Map<ContentHash, BlockId>,
    tokens: Seq<TokenId>,
    block_size: nat,
) -> nat {
    misses(cache, tokens, block_size, tokens.len() / block_size) + if tokens.len() % block_size
        != 0 {
        1nat
    } else {
        0nat
    }
}

/// Of the first `i` full blocks of `tokens`, how many an allocation gets
/// through when `avail` blocks are free: it stops at the first block that
/// misses the cache once every free block has been taken.
pub open spec fn served(
    cache: Map<ContentHash, BlockId>,
    tokens: Seq<TokenId>,
    block_size: nat,
    avail: nat,
    i: nat,
) -> nat
    decreases i,
{
    if i == 0 {
        0
    } else {
        let p = served(cache, tokens, block_size, avail, (i - 1) as nat);
        if p == i - 1 && (chunk_cached(cache, tokens, block_size, i - 1) || misses(
            cache,
            tokens,
            block_size,
            (i - 1) as nat,
        ) < avail) {
            i
        } else {
            p
        }
    }
}

/// The block table that an allocation builds: each full block's cached
/// block where the cache has its hash, else the next block of the free
/// list; then one more block from the free list for a partial block.
pub open spec fn planned_table(
    cache: Map<ContentHash, BlockId>,
    free: Seq<BlockId>,
    tokens: Seq<TokenId>,
    block_size: nat,
) -> Seq<BlockId> {
    let n = tokens.len() / block_size;
    let full = Seq::new(
        n,
        |i: int|
            if chunk_cached(cache, tokens, block_size, i) {
                cache[chunk_hash(tokens, block_size, i)]
            } else {
                free[misses(cache, tokens, block_size, i as nat) as int]
            },
    );
    if tokens.len() % block_size != 0 {
        full.push(free[misses(cache, tokens, block_size, n) as int])
    } else {
        full
    }
}

/// The blocks after an allocation that took the first `taken` blocks of
/// the free list and went through the first `upto` full blocks: taken
/// blocks are fresh, and each cached block gained one reference per hit.
pub open spec fn blocks_after_allocation(
    blocks: Seq<PhysicalBlock>,
    cache: Map<ContentHash, BlockId>,
    free: Seq<BlockId>,
    tokens: Seq<TokenId>,
    block_size: nat,
    taken: nat,
    upto: nat,
) -> Seq<PhysicalBlock> {
    Seq::new(
        blocks.len(),
        |b: int|
            if free.take(taken as int).contains(b as BlockId) {
                fresh_block(b as BlockId)
            } else {
                PhysicalBlock {
                    id: blocks[b].id,
                    state: blocks[b].state,
                    ref_count: (blocks[b].ref_count + hits_on(
                        cache,
                        tokens,
                        block_size,
                        upto,
                        b as BlockId,
                    )) as u32,
                    content_hash: blocks[b].content_hash,
                }
            },
    )
}

pub proof fn lemma_misses_monotone(
    cache: Map<ContentHash, BlockId>,
    tokens: Seq<TokenId>,
    block_size: nat,
    i: nat,
    j: nat,
)
    requires
        i <= j,
    ensures
        misses(cache, tokens, block_size, i) <= misses(cache, tokens, block_size, j),
        misses(cache, tokens, block_size, j) <= misses(cache, tokens, block_size, i) + (j - i),
    decreases j,
{
    if i < j {
        lemma_misses_monotone(cache, tokens, block_size, i, (j - 1) as nat);
    }
}

pub proof fn lemma_hits_monotone(
    cache: Map<ContentHash, BlockId>,
    tokens: Seq<TokenId>,
    block_size: nat,
    i: nat,
    j: nat,
    b: BlockId,
)
    requires
        i <= j,
    ensures
        hits_on(cache, tokens, block_size, i, b) <= hits_on(cache, tokens, block_size, j, b),
    decreases j,
{
    if i < j {
        lemma_hits_monotone(cache, tokens, block_size, i, (j - 1) as nat, b);
    }
}

pub proof fn lemma_served_monotone(
    cache: Map<ContentHash, BlockId>,
    tokens: Seq<TokenId>,
    block_size: nat,
    avail: nat,
    i: nat,
    j: nat,
)
    requires
        i <= j,
    ensures
        served(cache, tokens, block_size, avail, i) <= served(cache, tokens, block_size, avail, j),
        served(cache, tokens, block_size, avail, j) <= j,
    decreases j,
{
    if i < j {
        lemma_served_monotone(cache, tokens, block_size, avail, i, (j - 1) as nat);
    } else if j > 0 {
        lemma_served_monotone(cache, tokens, block_size, avail, (j - 1) as nat, (j - 1) as nat);
    }
}

/// Of the first `i` full blocks, at most `i` miss the cache or hit a given
/// block; where the cache holds none of their hashes, all of them miss and
/// none hits.
pub proof fn lemma_misses_and_hits_bounded(
    cache: Map<ContentHash, BlockId>,
    tokens: Seq<TokenId>,
    block_size: nat,
    i: nat,
    b: BlockId,
)
    ensures
        misses(cache, tokens, block_size, i) <= i,
        hits_on(cache, tokens, block_size, i, b) <= i,
        (forall|j: int| 0 <= j < i ==> !#[trigger] chunk_cached(cache, tokens, block_size, j)) ==> {
            &&& misses(cache, tokens, block_size, i) == i
            &&& hits_on(cache, tokens, block_size, i, b) == 0
        },
        (forall|j: int| 0 <= j < i ==> #[trigger] chunk_cached(cache, tokens, block_size, j))
            ==> misses(cache, tokens, block_size, i) == 0,
    decreases i,
{
    if i > 0 {
        lemma_misses_and_hits_bounded(cache, tokens, block_size, (i - 1) as nat, b);
    }
}

/// A prompt never needs more fresh blocks than it has blocks; on a cache
/// that holds none of its full blocks it needs exactly that many,
/// `ceil(len / block_size)`; on a cache that holds all of them it needs
/// one for a partial block and no other.
pub proof fn lemma_fresh_needed(
    cache: Map<ContentHash, BlockId>,
    tokens: Seq<TokenId>,
    block_size: nat,
)
    requires
        block_size > 0,
    ensures
        fresh_needed(cache, tokens, block_size) <= spec_blocks_needed(tokens.len(), block_size),
        (forall|j: int|
            0 <= j < tokens.len() / block_size ==> !#[trigger] chunk_cached(
                cache,
                tokens,
                block_size,
                j,
            )) ==> fresh_needed(cache, tokens, block_size) == spec_blocks_needed(
            tokens.len(),
            block_size,
        ),
        (forall|j: int|
            0 <= j < tokens.len() / block_size ==> #[trigger] chunk_cached(
                cache,
                tokens,
                block_size,
                j,
            )) ==> fresh_needed(cache, tokens, block_size) == if tokens.len() % block_size != 0 {
            1nat
        } else {
            0nat
        },
{
    lemma_blocks_needed(tokens.len(), block_size);
    lemma_misses_and_hits_bounded(cache, tokens, block_size, tokens.len() / block_size, 0);
}

/// `ceil(len / block_size)` is the number of full blocks, plus one for a
/// partial block.
pub proof fn lemma_blocks_needed(len: nat, block_size: nat)
    requires
        block_size > 0,
    ensures
        spec_blocks_needed(len, block_size) == len / block_size + if len % block_size != 0 {
            1nat
        } else {
            0nat
        },
{
    let n = len / block_size;
    let r = len % block_size;
    assert(len == n * block_size + r && r < block_size) by {
        vstd::arithmetic::div_mod::lemma_fundamental_div_mod(len as int, block_size as int);
    }
    if r == 0 {
        assert((len + block_size - 1) / (block_size as int) == n) by {
            vstd::arithmetic::div_mod::lemma_fundamental_div_mod_converse(
                (len + block_size - 1) as int,
                block_size as int,
                n as int,
                (block_size - 1) as int,
            );
        }
    } else {
        assert((n + 1) * block_size == n * block_size + block_size) by (nonlinear_arith);
        assert((len + block_size - 1) / (block_size as int) == n + 1) by {
            vstd::arithmetic::div_mod::lemma_fundamental_div_mod_converse(
                (len + block_size - 1) as int,
                block_size as int,
                (n + 1) as int,
                (r - 1) as int,
            );
        }
    }
}

/// The table an allocation builds has one block for every
/// `block_size` tokens or part thereof.
pub proof fn lemma_planned_table_len(
    cache: Map<ContentHash, BlockId>,
    free: Seq<BlockId>,
    tokens: Seq<TokenId>,
    block_size: nat,
)
    requires
        block_size > 0,
    ensures
        planned_table(cache, free, tokens, block_size).len() == spec_blocks_needed(
            tokens.len(),
            block_size,
        ),
{
    lemma_blocks_needed(tokens.len(), block_size);
}

/// In the table an allocation builds, every full block is a cached block
/// or, where the cache misses, the next free block; the free blocks taken
/// are distinct from each other and from the cached ones.
pub proof fn lemma_planned_table_fresh(
    cache: Map<ContentHash, BlockId>,
    free: Seq<BlockId>,
    tokens: Seq<TokenId>,
    block_size: nat,
    num_blocks: nat,
)
    requires
        block_size > 0,
        free.no_duplicates(),
        forall|j: int| 0 <= j < free.len() ==> #[trigger] free[j] < num_blocks,
        forall|h: ContentHash| #[trigger] cache.contains_key(h) ==> !free.contains(cache[h])
            && cache[h] < num_blocks,
        fresh_needed(cache, tokens, block_size) <= free.len(),
    ensures
        ({
            let t = planned_table(cache, free, tokens, block_size);
            let n = tokens.len() / block_size;
            &&& n <= t.len()
            &&& forall|j: int| 0 <= j < n ==> #[trigger] t[j] < num_blocks
            &&& forall|j: int|
                0 <= j < n && !chunk_cached(cache, tokens, block_size, j) ==> #[trigger] misses(
                    cache,
                    tokens,
                    block_size,
                    j as nat,
                ) < fresh_needed(cache, tokens, block_size)
            &&& forall|j: int|
                0 <= j < n && !chunk_cached(cache, tokens, block_size, j) ==> {
                    &&& #[trigger] t[j] == free[misses(cache, tokens, block_size, j as nat) as int]
                    &&& !t.take(j).contains(t[j])
                }
        }),
{
    let t = planned_table(cache, free, tokens, block_size);
    let n = tokens.len() / block_size;
    let need = fresh_needed(cache, tokens, block_size);
    lemma_planned_table_len(cache, free, tokens, block_size);
    lemma_blocks_needed(tokens.len(), block_size);
    assert forall|j: int| 0 <= j < n implies #[trigger] t[j] < num_blocks by {
        if !chunk_cached(cache, tokens, block_size, j) {
            lemma_misses_monotone(cache, tokens, block_size, (j + 1) as nat, n);
        }
    }
    assert forall|j: int| 0 <= j < n && !chunk_cached(cache, tokens, block_size, j) implies #[trigger] misses(
        cache,
        tokens,
        block_size,
        j as nat,
    ) < need by {
        lemma_misses_monotone(cache, tokens, block_size, (j + 1) as nat, n);
    }
    assert forall|j: int| 0 <= j < n && !chunk_cached(cache, tokens, block_size, j) implies {
        &&& #[trigger] t[j] == free[misses(cache, tokens, block_size, j as nat) as int]
        &&& !t.take(j).contains(t[j])
    } by {
        let mj = misses(cache, tokens, block_size, j as nat);
        lemma_misses_monotone(cache, tokens, block_size, (j + 1) as nat, n);
        assert(misses(cache, tokens, block_size, (j + 1) as nat) == mj + 1);
        assert(mj < need);
        if t.take(j).contains(t[j]) {
            let k = choose|k: int| 0 <= k < t.take(j).len() && #[trigger] t.take(j)[k] == t[j];
            assert(t[k] == t[j]);
            if chunk_cached(cache, tokens, block_size, k) {
                assert(free.contains(t[j]));
            } else {
                lemma_misses_monotone(cache, tokens, block_size, (k + 1) as nat, j as nat);
            }
        }
    }
}

/// How often each block occurs in the table an allocation builds: a block
/// taken from the free list once, if it is among the first
/// `fresh_needed` free blocks; a block not on the free list once per
/// cache hit on it.
pub proof fn lemma_planned_counts(
    cache: Map<ContentHash, BlockId>,
    free: Seq<BlockId>,
    tokens: Seq<TokenId>,
    block_size: nat,
)
    requires
        block_size > 0,
        free.no_duplicates(),
        forall|h: ContentHash| #[trigger] cache.contains_key(h) ==> !free.contains(cache[h]),
        fresh_needed(cache, tokens, block_size) <= free.len(),
    ensures
        ({
            let t = planned_table(cache, free, tokens, block_size);
            let need = fresh_needed(cache, tokens, block_size);
            &&& forall|k: int|
                0 <= k < free.len() ==> t.to_multiset().count(#[trigger] free[k]) == if k < need {
                    1nat
                } else {
                    0nat
                }
            &&& forall|b: BlockId|
                !free.contains(b) ==> #[trigger] t.to_multiset().count(b) == hits_on(
                    cache,
                    tokens,
                    block_size,
                    tokens.len() / block_size,
                    b,
                )
        }),
{
    broadcast use vstd::seq_lib::group_to_multiset_ensures, vstd::multiset::group_multiset_axioms;
    let t = planned_table(cache, free, tokens, block_size);
    let n = tokens.len() / block_size;
    let need = fresh_needed(cache, tokens, block_size);
    lemma_planned_table_len(cache, free, tokens, block_size);
    lemma_blocks_needed(tokens.len(), block_size);
    lemma_misses_monotone(cache, tokens, block_size, n, n);
    lemma_planned_prefix_counts(cache, free, tokens, block_size, n);
    if tokens.len() % block_size != 0 {
        assert(t =~= t.take(n as int).push(free[misses(cache, tokens, block_size, n) as int]));
    } else {
        assert(t =~= t.take(n as int));
    }
}

proof fn lemma_planned_prefix_counts(
    cache: Map<ContentHash, BlockId>,
    free: Seq<BlockId>,
    tokens: Seq<TokenId>,
    block_size: nat,
    i: nat,
)
    requires
        block_size > 0,
        free.no_duplicates(),
        forall|h: ContentHash| #[trigger] cache.contains_key(h) ==> !free.contains(cache[h]),
        fresh_needed(cache, tokens, block_size) <= free.len(),
        i <= tokens.len() / block_size,
    ensures
        ({
            let t = planned_table(cache, free, tokens, block_size).take(i as int);
            &&& forall|k: int|
                0 <= k < free.len() ==> t.to_multiset().count(#[trigger] free[k]) == if k < misses(
                    cache,
                    tokens,
                    block_size,
                    i,
                ) {
                    1nat
                } else {
                    0nat
                }
            &&& forall|b: BlockId|
                !free.contains(b) ==> #[trigger] t.to_multiset().count(b) == hits_on(
                    cache,
                    tokens,
                    block_size,
                    i,
                    b,
                )
        }),
    decreases i,
{
    broadcast use vstd::seq_lib::group_to_multiset_ensures, vstd::multiset::group_multiset_axioms, vstd::multiset::lemma_multiset_empty_len;
    let full = planned_table(cache, free, tokens, block_size);
    let n = tokens.len() / block_size;
    lemma_planned_table_len(cache, free, tokens, block_size);
    lemma_blocks_needed(tokens.len(), block_size);
    if i == 0 {
        assert(full.take(0).to_multiset() =~= Multiset::empty());
    } else {
        let m = (i - 1) as nat;
        lemma_planned_prefix_counts(cache, free, tokens, block_size, m);
        assert(full.take(i as int) =~= full.take(m as int).push(full[m as int]));
        lemma_misses_monotone(cache, tokens, block_size, i, n);
        let h = chunk_hash(tokens, block_size, m as int);
        if chunk_cached(cache, tokens, block_size, m as int) {
            assert(full[m as int] == cache[h]);
            assert(!free.contains(cache[h]));
            assert forall|k: int| 0 <= k < free.len() implies full.take(i as int).to_multiset().count(
                #[trigger] free[k],
            ) == if k < misses(cache, tokens, block_size, i) {
                1nat
            } else {
                0nat
            } by {
                assert(free[k] != cache[h]);
            }
        } else {
            let mm = misses(cache, tokens, block_size, m);
            assert(full[m as int] == free[mm as int]);
            assert forall|k: int| 0 <= k < free.len() implies full.take(i as int).to_multiset().count(
                #[trigger] free[k],
            ) == if k < misses(cache, tokens, block_size, i) {
                1nat
            } else {
                0nat
            } by {
                if k != mm {
                    assert(free[k] != free[mm as int]);
                }
            }
            assert forall|b: BlockId| !free.contains(b) implies #[trigger] full.take(
                i as int,
            ).to_multiset().count(b) == hits_on(cache, tokens, block_size, i, b) by {
                assert(b != free[mm as int]);
            }
        }
    }
}

/// On a successful allocation every full block is gone through.
pub proof fn lemma_served_all(
    cache: Map<ContentHash, BlockId>,
    tokens: Seq<TokenId>,
    block_size: nat,
    avail: nat,
    i: nat,
)
    requires
        misses(cache, tokens, block_size, tokens.len() / block_size) <= avail,
        i <= tokens.len() / block_size,
    ensures
        served(cache, tokens, block_size, avail, i) == i,
    decreases i,
{
    if i > 0 {
        lemma_served_all(cache, tokens, block_size, avail, (i - 1) as nat);
        lemma_misses_monotone(cache, tokens, block_size, i, tokens.len() / block_size);
    }
}

/// The full blocks among the first `i` whose hash the prefix cache lacks.
pub open spec fn missing_chunks(
    cache: Map<ContentHash, BlockId>,
    tokens: Seq<TokenId>,
    block_size: nat,
    i: int,
) -> Set<int> {
    Set::new(|j: int| 0 <= j < i && !cache.contains_key(chunk_hash(tokens, block_size, j)))
}

/// The full blocks among the first `i` whose hash the prefix cache maps to
/// block `b`.
pub open spec fn chunks_found_in(
    cache: Map<ContentHash, BlockId>,
    tokens: Seq<TokenId>,
    block_size: nat,
    i: int,
    b: BlockId,
) -> Set<int> {
    Set::new(
        |j: int|
            0 <= j < i && cache.contains_key(chunk_hash(tokens, block_size, j)) && cache[chunk_hash(
                tokens,
                block_size,
                j,
            )] == b,
    )
}

/// Each full block is looked up by its own hash, whatever the others find:
/// of the first `i` full blocks, the misses are exactly those whose hash
/// the cache lacks, and the hits on a block exactly those whose hash the
/// cache maps to it.
pub proof fn lemma_lookups_count(
    cache: Map<ContentHash, BlockId>,
    tokens: Seq<TokenId>,
    block_size: nat,
    i: nat,
    b: BlockId,
)
    ensures
        missing_chunks(cache, tokens, block_size, i as int).finite(),
        misses(cache, tokens, block_size, i) == missing_chunks(cache, tokens, block_size, i as int).len(),
        chunks_found_in(cache, tokens, block_size, i as int, b).finite(),
        hits_on(cache, tokens, block_size, i, b) == chunks_found_in(
            cache,
            tokens,
            block_size,
            i as int,
            b,
        ).len(),
    decreases i,
{
    broadcast use vstd::set::group_set_axioms;
    let m = missing_chunks(cache, tokens, block_size, i as int);
    let f = chunks_found_in(cache, tokens, block_size, i as int, b);
    if i == 0 {
        assert(m =~= Set::empty());
        assert(f =~= Set::empty());
    } else {
        let k = (i - 1) as nat;
        lemma_lookups_count(cache, tokens, block_size, k, b);
        let pm = missing_chunks(cache, tokens, block_size, k as int);
        let pf = chunks_found_in(cache, tokens, block_size, k as int, b);
        let h = chunk_hash(tokens, block_size, k as int);
        if cache.contains_key(h) {
            assert(m =~= pm);
            if cache[h] == b {
                assert(f =~= pf.insert(k as int));
                assert(!pf.contains(k as int));
            } else {
                assert(f =~= pf);
            }
        } else {
            assert(m =~= pm.insert(k as int));
            assert(!pm.contains(k as int));
            assert(f =~= pf);
        }
    }
}

/// An allocation needs one fresh block for each full block whose hash the
/// prefix cache lacks, and one for a trailing partial block.
pub proof fn lemma_fresh_needed_counts_misses(
    cache: Map<ContentHash, BlockId>,
    tokens: Seq<TokenId>,
    block_size: nat,
)
    ensures
        fresh_needed(cache, tokens, block_size) == missing_chunks(
            cache,
            tokens,
            block_size,
            (tokens.len() / block_size) as int,
        ).len() + if tokens.len() % block_size != 0 {
            1nat
        } else {
            0nat
        },
{
    lemma_lookups_count(cache, tokens, block_size, tokens.len() / block_size, 0);
}

/// Each full block is looked up in the prefix cache by its own hash: where
/// the cache holds the hash of the `i`-th full block, the table takes the
/// cached block, whatever the other blocks find; where it does not, the
/// table takes the free block that follows those taken for the earlier
/// misses. A partial block takes the free block after all of them.
pub proof fn lemma_planned_table_lookup(
    cache: Map<ContentHash, BlockId>,
    free: Seq<BlockId>,
    tokens: Seq<TokenId>,
    block_size: nat,
)
    requires
        block_size > 0,
    ensures
        ({
            let t = planned_table(cache, free, tokens, block_size);
            let n = tokens.len() / block_size;
            &&& forall|i: int|
                0 <= i < n && cache.contains_key(#[trigger] chunk_hash(tokens, block_size, i))
                    ==> t[i] == cache[chunk_hash(tokens, block_size, i)]
            &&& forall|i: int|
                0 <= i < n && !cache.contains_key(#[trigger] chunk_hash(tokens, block_size, i))
                    ==> t[i] == free[missing_chunks(cache, tokens, block_size, i).len() as int]
            &&& tokens.len() % block_size != 0 ==> t[n as int] == free[missing_chunks(
                cache,
                tokens,
                block_size,
                n as int,
            ).len() as int]
        }),
{
    let n = tokens.len() / block_size;
    lemma_planned_table_len(cache, free, tokens, block_size);
    lemma_blocks_needed(tokens.len(), block_size);
    assert forall|i: int|
        0 <= i < n && !cache.contains_key(#[trigger] chunk_hash(tokens, block_size, i)) implies planned_table(
        cache,
        free,
        tokens,
        block_size,
    )[i] == free[missing_chunks(cache, tokens, block_size, i).len() as int] by {
        lemma_lookups_count(cache, tokens, block_size, i as nat, 0);
    }
    lemma_lookups_count(cache, tokens, block_size, n, 0);
}

/// Once an allocation stops, it stays stopped.
pub proof fn lemma_served_stuck(
    cache: Map<ContentHash, BlockId>,
    tokens: Seq<TokenId>,
    block_size: nat,
    avail: nat,
    i: nat,
    j: nat,
)
    requires
        served(cache, tokens, block_size, avail, i) == i,
        !chunk_cached(cache, tokens, block_size, i as int),
        misses(cache, tokens, block_size, i) >= avail,
        i < j,
    ensures
        served(cache, tokens, block_size, avail, j) == i,
    decreases j,
{
    if j > i + 1 {
        lemma_served_stuck(cache, tokens, block_size, avail, i, (j - 1) as nat);
    }
}

/// The blocks after one more cache hit on block `c`.
pub(crate) proof fn lemma_hit_step(
    blocks0: Seq<PhysicalBlock>,
    cache: Map<ContentHash, BlockId>,
    free0: Seq<BlockId>,
    tokens: Seq<TokenId>,
    bs: nat,
    m: nat,
    i: nat,
    c: BlockId,
    cur: Seq<PhysicalBlock>,
)
    requires
        cur == blocks_after_allocation(blocks0, cache, free0, tokens, bs, m, i),
        chunk_cached(cache, tokens, bs, i as int),
        cache[chunk_hash(tokens, bs, i as int)] == c,
        c < blocks0.len(),
        blocks0.len() <= usize::MAX,
        cur[c as int].state == BlockState::Computed,
        blocks0[c as int].ref_count + hits_on(cache, tokens, bs, i + 1, c) <= u32::MAX,
    ensures
        cur.update(
            c as int,
            PhysicalBlock {
                id: cur[c as int].id,
                state: cur[c as int].state,
                ref_count: (cur[c as int].ref_count + 1) as u32,
                content_hash: cur[c as int].content_hash,
            },
        ) == blocks_after_allocation(blocks0, cache, free0, tokens, bs, m, i + 1),
{
    let next = blocks_after_allocation(blocks0, cache, free0, tokens, bs, m, i + 1);
    assert(!free0.take(m as int).contains(c));
    assert forall|b: int| 0 <= b < cur.len() && b != c implies cur[b] == next[b] by {
        assert(hits_on(cache, tokens, bs, i + 1, b as BlockId) == hits_on(cache, tokens, bs, i, b as BlockId));
    }
    assert(cur.update(
        c as int,
        PhysicalBlock {
            id: cur[c as int].id,
            state: cur[c as int].state,
            ref_count: (cur[c as int].ref_count + 1) as u32,
            content_hash: cur[c as int].content_hash,
        },
    ) =~= next);
}

/// The blocks after one more block taken from the free list.
pub(crate) proof fn lemma_fresh_step(
    blocks0: Seq<PhysicalBlock>,
    cache: Map<ContentHash, BlockId>,
    free0: Seq<BlockId>,
    tokens: Seq<TokenId>,
    bs: nat,
    m: nat,
    i: nat,
    j: nat,
    cur: Seq<PhysicalBlock>,
)
    requires
        cur == blocks_after_allocation(blocks0, cache, free0, tokens, bs, m, i),
        m < free0.len(),
        free0.no_duplicates(),
        forall|b: int| 0 <= b < cur.len() ==> #[trigger] hits_on(cache, tokens, bs, j, b as BlockId) == hits_on(cache, tokens, bs, i, b as BlockId),
        free0[m as int] < cur.len(),
        cur.len() <= usize::MAX,
    ensures
        cur.update(free0[m as int] as int, fresh_block(free0[m as int]))
            == blocks_after_allocation(blocks0, cache, free0, tokens, bs, m + 1, j),
{
    let f = free0[m as int];
    let next = blocks_after_allocation(blocks0, cache, free0, tokens, bs, m + 1, j);
    assert(free0.take(m + 1int).contains(f)) by {
        assert(free0.take(m + 1int)[m as int] == f);
    }
    assert forall|b: int| 0 <= b < cur.len() && b != f implies cur[b] == next[b] by {
        if free0.take(m as int).contains(b as BlockId) {
            let k = free0.take(m as int).index_of(b as BlockId);
            assert(free0.take(m + 1int)[k] == b as BlockId);
        }
        if free0.take(m + 1int).contains(b as BlockId) {
            let k = choose|k: int| 0 <= k < free0.take(m + 1int).len() && #[trigger] free0.take(m + 1int)[k] == b as BlockId;
            assert(k != m);
            assert(free0.take(m as int)[k] == b as BlockId);
        }
    }
    assert(cur.update(f as int, fresh_block(f)) =~= next);
}

} // verus!
