//! Identifiers and plain data shared by every part of the engine.
use vstd::prelude::*;

verus! {

/// A token of the model's vocabulary.
pub type TokenId = u32;

/// Identifies one generation request.
pub type RequestId = u64;

/// Index of a physical block of the KV cache.
pub type BlockId = usize;

/// Hash of the tokens that fill one block.
pub type ContentHash = u64;

/// A generation request: its id and the tokens of its prompt.
#[derive(Debug, Clone)]
pub struct Request {
    pub id: RequestId,
    pub prompt_tokens: Vec<TokenId>,
}

impl Request {
    pub fn new(id: RequestId, prompt_tokens: Vec<TokenId>) -> (r: Self)
        ensures
            r.id == id,
            r.prompt_tokens@ == prompt_tokens@,
    {
        Self { id, prompt_tokens }
    }

    /// The number of tokens in the prompt.
    pub fn num_tokens(&self) -> (n: usize)
        ensures
            n == self.prompt_tokens@.len(),
    {
        self.prompt_tokens.len()
    }
}

/// The dimensions of a model.
#[derive(Debug, Clone)]
pub struct ModelData {
    pub vocab_size: u32,
    pub eos_token_id: TokenId,
    pub num_layers: usize,
    pub num_heads: usize,
    pub head_dim: usize,
}

impl ModelData {
    pub fn new(
        vocab_size: u32,
        eos_token_id: TokenId,
        num_layers: usize,
        num_heads: usize,
        head_dim: usize,
    ) -> (d: Self)
        ensures
            d.vocab_size == vocab_size,
            d.eos_token_id == eos_token_id,
            d.num_layers == num_layers,
            d.num_heads == num_heads,
            d.head_dim == head_dim,
    {
        Self { vocab_size, eos_token_id, num_layers, num_heads, head_dim }
    }
}

} // verus!
