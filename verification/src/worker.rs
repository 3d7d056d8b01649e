//! The workers that run prefill and decode on top of a block manager.
use vstd::prelude::*;
use crate::block_manager::{AllocationError, BlockManager};
use crate::types::TokenId;

verus! {

#[derive(Debug)]
pub enum WorkerError {
    AllocationError(AllocationError),
    EmptyBatch,
}

#[derive(Debug)]
pub struct PrefillOutput {}

#[derive(Debug)]
pub struct DecodeOutput {}

pub struct PrefillWorker {
    pub block_manager: BlockManager,
    vocab_size: u32,
}

pub struct DecodeWorker {
    pub block_manager: BlockManager,
    vocab_size: u32,
    eos_token_id: TokenId,
}

} // verus!
