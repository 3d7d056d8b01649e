use inference_core::model::{kv_cache_shape, plan_forward, shape_numel, ModelError};
use inference_core::types::{ModelData, Request};

fn test_data() -> ModelData {
    return ModelData::new(50257, 0, 12, 12, 64);
}

#[test]
fn prefill_shapes() {
    let shapes = plan_forward(&test_data(), 4, 0).unwrap();
    assert_eq!(shapes.logits_shape, vec![50257]);
    assert_eq!(shapes.kv_shape, vec![12, 12, 4, 64]);
    assert_eq!(shapes.kv_numel, 12 * 12 * 4 * 64);
}

#[test]
fn decode_extends_kv_seq_len() {
    let shapes = plan_forward(&test_data(), 1, 4).unwrap();
    assert_eq!(shapes.kv_shape[2], 5);
    assert_eq!(shapes.kv_numel, 12 * 12 * 5 * 64);
    assert_eq!(shapes.logits_shape, vec![50257]);
}

#[test]
fn empty_input_is_invalid() {
    let result = plan_forward(&test_data(), 0, 7);
    match result {
        Err(ModelError::InvalidInput(msg)) => assert_eq!(msg, "empty input tokens"),
        _ => panic!("expected InvalidInput"),
    }
}

#[test]
fn numel_is_product_of_dimensions() {
    assert_eq!(shape_numel(&[]), 1);
    assert_eq!(shape_numel(&[3, 4, 5]), 60);
    assert_eq!(shape_numel(&[3, 0, 5]), 0);
}

#[test]
fn empty_kv_cache_shape() {
    assert_eq!(kv_cache_shape(&test_data(), 0), vec![12, 12, 0, 64]);
}

#[test]
fn config_values() {
    let data = test_data();
    assert_eq!(data.vocab_size, 50257);
    assert_eq!(data.num_layers, 12);
    assert_eq!(data.num_heads, 12);
    assert_eq!(data.head_dim, 64);
    assert_eq!(data.eos_token_id, 0);
}

#[test]
fn request_counts_its_tokens() {
    let r = Request::new(3, vec![5, 6, 7]);
    assert_eq!(r.num_tokens(), 3);
    assert_eq!(r.id, 3);
}
