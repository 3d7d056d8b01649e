//! The block tables over a run of calls on a block manager.
use vstd::prelude::*;
use crate::block_manager::BlockManager;
use crate::types::{BlockId, RequestId};

verus! {

/// One call on a block manager, with what it recorded in the tables.
pub enum BlockCall {
    /// `allocate`; the table it built when it returned `Ok`.
    Allocate(RequestId, Option<Vec<BlockId>>),
    /// `mark_computed`.
    MarkComputed(RequestId),
    /// `append_token`; the block it appended, if it appended one.
    AppendToken(RequestId, Option<BlockId>),
    /// `free`.
    Free(RequestId),
}

/// `post`'s tables are what `call` leaves of `pre`'s, as the call's
/// contract states.
pub open spec fn tables_effect(pre: BlockManager, call: BlockCall, post: BlockManager) -> bool {
    let tables = pre.block_tables();
    match call {
        BlockCall::Allocate(r, Some(table)) => post.block_tables() == tables.insert(r, table@),
        BlockCall::Allocate(_, None) => post.block_tables() == tables,
        BlockCall::MarkComputed(_) => post.block_tables() == tables,
        BlockCall::AppendToken(r, Some(b)) => {
            &&& tables.contains_key(r)
            &&& post.block_tables() == tables.insert(r, tables[r].push(b))
        },
        BlockCall::AppendToken(_, None) => post.block_tables() == tables,
        BlockCall::Free(r) => post.block_tables() == tables.remove(r),
    }
}

/// `calls` run one after another on a new manager pass through `states`.
pub open spec fn is_history(states: Seq<BlockManager>, calls: Seq<BlockCall>) -> bool {
    &&& states.len() == calls.len() + 1
    &&& states[0].block_tables() == Map::<RequestId, Seq<BlockId>>::empty()
    &&& forall|i: int| 0 <= i < calls.len() ==> tables_effect(states[i], #[trigger] calls[i], states[i + 1])
}

/// The table of request `r` after the calls: the one the last successful
/// allocation for it built, unless it was freed since, followed by the
/// blocks appended for it since.
pub open spec fn table_after(calls: Seq<BlockCall>, r: RequestId) -> Option<Seq<BlockId>>
    decreases calls.len(),
{
    if calls.len() == 0 {
        None
    } else {
        let before = table_after(calls.drop_last(), r);
        match calls.last() {
            BlockCall::Allocate(x, Some(table)) => if x == r {
                Some(table@)
            } else {
                before
            },
            BlockCall::AppendToken(x, Some(b)) => if x == r {
                match before {
                    Some(t) => Some(t.push(b)),
                    None => None,
                }
            } else {
                before
            },
            BlockCall::Free(x) => if x == r {
                None
            } else {
                before
            },
            _ => before,
        }
    }
}

/// What `get` gives after any run of calls: a request has a table exactly
/// when a successful allocation for it was not followed by a `free`, and
/// the table is what that allocation built followed by the blocks later
/// appended for it.
pub proof fn lemma_tables_history(states: Seq<BlockManager>, calls: Seq<BlockCall>, k: int)
    requires
        is_history(states, calls),
        0 <= k <= calls.len(),
    ensures
        forall|r: RequestId|
            #[trigger] states[k].block_tables().contains_key(r) == table_after(calls.take(k), r) is Some,
        forall|r: RequestId|
            #[trigger] states[k].block_tables().contains_key(r) ==> table_after(calls.take(k), r)
                == Some(states[k].block_tables()[r]),
    decreases k,
{
    let c = calls.take(k);
    if k > 0 {
        lemma_tables_history(states, calls, k - 1);
        assert(c.drop_last() =~= calls.take(k - 1));
        assert(c.last() == calls[k - 1]);
        assert(tables_effect(states[k - 1], calls[k - 1], states[k]));
    }
}

} // verus!
