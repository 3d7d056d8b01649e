//! Shape bookkeeping of a model forward pass: the logits and the KV cache
//! that a forward pass over some input tokens produces, and the check on
//! its input.
use vstd::prelude::*;
use crate::types::ModelData;

verus! {

#[derive(Debug)]
pub enum ModelError {
    ShapeMismatch { expected: Vec<usize>, got: Vec<usize> },
    InvalidInput(String),
    BackendError(String),
}

/// The number of elements of a tensor of the given shape.
pub open spec fn shape_product(shape: Seq<usize>) -> nat
    decreases shape.len(),
{
    if shape.len() == 0 {
        1
    } else {
        shape_product(shape.drop_last()) * (shape.last() as nat)
    }
}

/// Whether every running product of the shape's dimensions, taken from the
/// first on, fits in a `usize`.
pub open spec fn product_fits(shape: Seq<usize>) -> bool {
    forall|k: int| 0 <= k <= shape.len() ==> #[trigger] shape_product(shape.take(k)) <= usize::MAX
}

/// The number of elements of a tensor of shape `shape`.
pub fn shape_numel(shape: &[usize]) -> (n: usize)
    requires
        product_fits(shape@),
    ensures
        n == shape_product(shape@),
{
    let mut n: usize = 1;
    let mut i: usize = 0;
    proof {
        assert(shape@.take(0) =~= Seq::<usize>::empty());
    }
    while i < shape.len()
        invariant
            i <= shape@.len(),
            product_fits(shape@),
            n == shape_product(shape@.take(i as int)),
        decreases shape@.len() - i,
    {
        proof {
            assert(shape@.take(i + 1).drop_last() =~= shape@.take(i as int));
            assert(shape_product(shape@.take(i + 1)) <= usize::MAX);
        }
        n = n * shape[i];
        i = i + 1;
    }
    proof {
        assert(shape@.take(i as int) =~= shape@);
    }
    n
}

/// The shape of a model's KV cache over `seq_len` positions: layers,
/// heads, positions, head dimension.
pub open spec fn spec_kv_cache_shape(data: ModelData, seq_len: usize) -> Seq<usize> {
    seq![data.num_layers, data.num_heads, seq_len, data.head_dim]
}

/// The KV cache's dimensions, one by one: layers first, then heads, then
/// positions, then the head dimension.
pub proof fn lemma_kv_cache_shape_dims(data: ModelData, seq_len: usize)
    ensures
        spec_kv_cache_shape(data, seq_len).len() == 4,
        spec_kv_cache_shape(data, seq_len)[0] == data.num_layers,
        spec_kv_cache_shape(data, seq_len)[1] == data.num_heads,
        spec_kv_cache_shape(data, seq_len)[2] == seq_len,
        spec_kv_cache_shape(data, seq_len)[3] == data.head_dim,
{
}

/// The shape of a model's KV cache over `seq_len` positions.
pub fn kv_cache_shape(data: &ModelData, seq_len: usize) -> (shape: Vec<usize>)
    ensures
        shape@ == spec_kv_cache_shape(*data, seq_len),
        shape@.len() == 4,
        shape@[0] == data.num_layers,
        shape@[1] == data.num_heads,
        shape@[2] == seq_len,
        shape@[3] == data.head_dim,
{
    let shape = vec![data.num_layers, data.num_heads, seq_len, data.head_dim];
    proof {
        assert(shape@ =~= spec_kv_cache_shape(*data, seq_len));
    }
    shape
}

/// The KV cache of `seq_len` positions holds layers × heads × positions ×
/// head dimension elements.
pub proof fn lemma_kv_numel(data: ModelData, seq_len: usize)
    ensures
        shape_product(spec_kv_cache_shape(data, seq_len)) == data.num_layers * data.num_heads
            * seq_len * data.head_dim,
{
    let s = spec_kv_cache_shape(data, seq_len);
    let s3 = s.drop_last();
    let s2 = s3.drop_last();
    let s1 = s2.drop_last();
    assert(s3 =~= seq![data.num_layers, data.num_heads, seq_len]);
    assert(s2 =~= seq![data.num_layers, data.num_heads]);
    assert(s1 =~= seq![data.num_layers]);
    assert(s1.drop_last() =~= Seq::<usize>::empty());
    assert(shape_product(s1.drop_last()) == 1);
    assert(s1.len() == 1 && s1.last() == data.num_layers);
    assert(shape_product(s1) == shape_product(s1.drop_last()) * (s1.last() as nat));
    assert(shape_product(s1) == data.num_layers as nat);
    assert(shape_product(s2) == data.num_layers * data.num_heads);
    assert(shape_product(s3) == data.num_layers * data.num_heads * seq_len);
}

/// The shapes a forward pass produces.
#[derive(Debug)]
pub struct ForwardShapes {
    /// One logit per vocabulary entry.
    pub logits_shape: Vec<usize>,
    /// The KV cache extended by the input tokens.
    pub kv_shape: Vec<usize>,
    /// The number of elements of each of the keys and the values.
    pub kv_numel: usize,
}

/// The shapes of a forward pass over `num_input_tokens` new tokens that
/// follow `prev_seq_len` cached positions; empty input is refused.
pub fn plan_forward(data: &ModelData, num_input_tokens: usize, prev_seq_len: usize) -> (r: Result<
    ForwardShapes,
    ModelError,
>)
    requires
        num_input_tokens > 0 ==> prev_seq_len + num_input_tokens <= usize::MAX,
        num_input_tokens > 0 ==> product_fits(
            spec_kv_cache_shape(*data, (prev_seq_len + num_input_tokens) as usize),
        ),
    ensures
        (num_input_tokens == 0) == (r is Err),
        match r {
            Ok(p) => {
                &&& p.logits_shape@ == seq![data.vocab_size as usize]
                &&& p.kv_shape@ == spec_kv_cache_shape(
                    *data,
                    (prev_seq_len + num_input_tokens) as usize,
                )
                &&& p.kv_shape@.len() == 4
                &&& p.kv_shape@[0] == data.num_layers
                &&& p.kv_shape@[1] == data.num_heads
                &&& p.kv_shape@[2] == prev_seq_len + num_input_tokens
                &&& p.kv_shape@[3] == data.head_dim
                &&& p.logits_shape@.len() == 1
                &&& p.logits_shape@[0] == data.vocab_size
                &&& p.kv_numel == shape_product(p.kv_shape@)
                &&& p.kv_numel == data.num_layers * data.num_heads * (prev_seq_len
                    + num_input_tokens) * data.head_dim
            },
            Err(e) => e matches ModelError::InvalidInput(m) && m@ == "empty input tokens"@,
        },
{
    if num_input_tokens == 0 {
        return Err(ModelError::InvalidInput("empty input tokens".to_owned()));
    }
    let logits_shape = vec![data.vocab_size as usize];
    let new_seq_len = prev_seq_len + num_input_tokens;
    let kv_shape = kv_cache_shape(data, new_seq_len);
    let kv_numel = shape_numel(kv_shape.as_slice());
    proof {
        assert(logits_shape@ =~= seq![data.vocab_size as usize]);
        lemma_kv_numel(*data, new_seq_len);
    }
    Ok(ForwardShapes { logits_shape, kv_shape, kv_numel })
}

} // verus!
