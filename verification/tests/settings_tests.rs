use amadeus::model::loader::LoaderError;
use amadeus::model::settings::{
    extent_fits_exec, guess_defaults, heads_are_nonzero, layer_tensor_name, model_settings,
    tensor_extent, TensorExtent,
};
use amadeus::quant::gguf::{GgufHeader, GgufKv, GgufTensorInfo, GgufValue};
use amadeus::quant::QuantType;

fn kv(key: &str, value: GgufValue) -> GgufKv {
    GgufKv { key: key.to_string(), value }
}

#[test]
fn defaults_per_architecture() {
    let l = guess_defaults("llama");
    assert_eq!((l.n_layers, l.n_heads, l.n_kv_heads, l.n_embd, l.n_intermediate), (32, 32, 8, 4096, 11008));
    assert_eq!((l.head_dim, l.max_seq_len, l.vocab_size, l.n_gqa), (128, 4096, 32000, 4));
    assert_eq!(l.quant_type, "Q4_0");
    assert_eq!(l.name, "llama");
    let g = guess_defaults("gemma");
    assert_eq!((g.n_layers, g.n_kv_heads, g.head_dim, g.vocab_size), (18, 1, 256, 256000));
    let o = guess_defaults("phi3");
    assert_eq!((o.n_layers, o.n_heads, o.max_seq_len), (16, 16, 2048));
    assert_eq!(o.quant_type, "F16");
    assert_eq!(o.architecture, "phi3");
}

#[test]
fn header_values_override_defaults() {
    let kvs = vec![
        kv("llama.block_count", GgufValue::U32(2)),
        kv("llama.embedding_length", GgufValue::U32(64)),
        kv("llama.attention.head_count", GgufValue::U32(4)),
        kv("llama.vocab_size", GgufValue::U64(100)),
        kv("other.context_length", GgufValue::U32(7)),
    ];
    assert!(heads_are_nonzero(&kvs, "llama"));
    let s = model_settings(&kvs, "llama");
    assert_eq!((s.n_layers, s.n_embd, s.n_heads, s.n_kv_heads), (2, 64, 4, 4));
    assert_eq!((s.n_intermediate, s.max_seq_len, s.vocab_size), (11008, 4096, 100));
    assert_eq!((s.head_dim, s.n_gqa), (16, 1));
    let gqa = vec![kv("llama.attention.head_count_kv", GgufValue::U32(2))];
    let t = model_settings(&gqa, "llama");
    assert_eq!((t.n_heads, t.n_kv_heads, t.head_dim, t.n_gqa), (32, 2, 128, 16));
}

#[test]
fn zero_heads_are_detected() {
    let kvs = vec![kv("llama.attention.head_count", GgufValue::U32(0))];
    assert!(!heads_are_nonzero(&kvs, "llama"));
    let kv0 = vec![kv("gemma.attention.head_count_kv", GgufValue::I32(0))];
    assert!(!heads_are_nonzero(&kv0, "gemma"));
}

#[test]
fn layer_tensor_names() {
    assert_eq!(layer_tensor_name(3, "attn_q.weight"), "blk.3.attn_q.weight");
    assert_eq!(layer_tensor_name(12, "ffn_down.weight"), "blk.12.ffn_down.weight");
}

fn header(ts: Vec<GgufTensorInfo>) -> GgufHeader {
    GgufHeader { version: 3, n_tensors: ts.len() as u64, n_kv: 0, kv_pairs: vec![], tensor_infos: ts, data_offset: 100 }
}

fn tensor(name: &str, shape: Vec<u64>, q: QuantType, offset: u64) -> GgufTensorInfo {
    GgufTensorInfo { name: name.to_string(), n_dims: shape.len() as u32, shape, quant_type: q, offset }
}

#[test]
fn tensor_extents_cover_whole_blocks() {
    let h = header(vec![
        tensor("blk.0.attn_q.weight", vec![64, 2], QuantType::Q8_0, 10),
        tensor("output_norm.weight", vec![3], QuantType::F32, 0),
        tensor("odd", vec![33], QuantType::Q4_0, 0),
    ]);
    assert_eq!(tensor_extent(&h, "blk.0.attn_q.weight").unwrap(), TensorExtent { index: 0, start: 110, end: 246, numel: 128 });
    assert_eq!(tensor_extent(&h, "output_norm.weight").unwrap(), TensorExtent { index: 1, start: 100, end: 112, numel: 3 });
    assert_eq!(tensor_extent(&h, "odd").unwrap(), TensorExtent { index: 2, start: 100, end: 136, numel: 33 });
    assert!(matches!(tensor_extent(&h, "output.weight"), Err(LoaderError::MissingTensor(n)) if n == "output.weight"));
}

#[test]
fn a_later_descriptor_replaces_an_earlier_one() {
    let h = header(vec![
        tensor("w", vec![4], QuantType::F32, 0),
        tensor("x", vec![1], QuantType::F32, 0),
        tensor("w", vec![2], QuantType::F16, 40),
    ]);
    assert_eq!(tensor_extent(&h, "w").unwrap(), TensorExtent { index: 2, start: 140, end: 144, numel: 2 });
}

#[test]
fn extent_arithmetic_is_checked() {
    let h = header(vec![tensor("big", vec![u64::MAX, 2], QuantType::F32, 0)]);
    assert!(!extent_fits_exec(&h, "big"));
    assert!(extent_fits_exec(&h, "absent"));
    let ok = header(vec![tensor("t", vec![4], QuantType::F16, 0)]);
    assert!(extent_fits_exec(&ok, "t"));
}
