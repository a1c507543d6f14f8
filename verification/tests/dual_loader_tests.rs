use std::collections::HashMap;
use amadeus::amadeus_m::dual_loader::{grammar_classes, grammar_fits_exec, grammar_graph, grammar_lexicon, merged_graph, DualGgufLoader};
use amadeus::amadeus_m::embedding_compressor::{embedding_fits_exec, embedding_layout, embedding_rows, interpolate_graphs, EmbeddingLayout};
use amadeus::quant::gguf::{GgufHeader, GgufKv, GgufTensorInfo, GgufValue};
use amadeus::quant::QuantType;

fn tensor(name: &str, shape: Vec<u64>, q: QuantType, offset: u64) -> GgufTensorInfo {
    GgufTensorInfo { name: name.to_string(), n_dims: shape.len() as u32, shape, quant_type: q, offset }
}

fn header(kvs: Vec<GgufKv>, ts: Vec<GgufTensorInfo>, data_offset: u64) -> GgufHeader {
    GgufHeader { version: 3, n_tensors: ts.len() as u64, n_kv: kvs.len() as u64, kv_pairs: kvs, tensor_infos: ts, data_offset }
}

fn words(ws: &[u32]) -> Vec<u8> {
    ws.iter().flat_map(|w| w.to_le_bytes()).collect()
}

#[test]
fn loader_keeps_its_paths() {
    let l = DualGgufLoader::new("g.gguf", Some("m.gguf"));
    assert_eq!(l.grammar_path, "g.gguf");
    assert_eq!(l.commercial_path.as_deref(), Some("m.gguf"));
    assert!(DualGgufLoader::new("g.gguf", None).commercial_path.is_none());
}

#[test]
fn graph_table_is_read_in_pairs() {
    let h = header(vec![], vec![tensor("graph.data", vec![4], QuantType::F32, 0)], 8);
    let mut data = vec![0u8; 8];
    data.extend(words(&[1, 0b1010, 2, 7]));
    let g = grammar_graph(&h, &data);
    assert_eq!(g.len(), 2);
    assert_eq!(g[&1], 0b1010);
    assert_eq!(g[&2], 7);
    // a table running past the data is skipped
    assert!(grammar_graph(&h, &data[..20]).is_empty());
    let none = header(vec![], vec![], 0);
    assert!(grammar_graph(&none, &data).is_empty());
}

#[test]
fn class_table_keeps_the_low_byte() {
    let h = header(vec![], vec![tensor("lex_to_class.data", vec![2, 2], QuantType::F32, 0)], 0);
    let data = words(&[5, 0x105, 6, 2]);
    let c = grammar_classes(&h, &data);
    assert_eq!(c[&5], 5);
    assert_eq!(c[&6], 2);
}

#[test]
fn lexicon_rows_become_numbered_forms() {
    let h = header(vec![], vec![tensor("lexicon.forms", vec![2, 8], QuantType::F32, 0)], 0);
    let mut data = vec![0u8; 64];
    data[0..4].copy_from_slice(&9u32.to_le_bytes());
    data[4..6].copy_from_slice(&0x0103u16.to_le_bytes());
    data[8] = 3;
    data[12..14].copy_from_slice(&2u16.to_le_bytes());
    data[32..36].copy_from_slice(&10u32.to_le_bytes());
    let l = grammar_lexicon(&h, &data);
    assert_eq!(l.len(), 2);
    assert_eq!(l.get(&"form_0".to_string()), Some((9, 0x0103, 3, 2)));
    assert_eq!(l.get(&"form_1".to_string()), Some((10, 0, 0, 0)));
    assert!(grammar_lexicon(&h, &data[..63]).len() == 0);
}

#[test]
fn interpolation_takes_the_preferred_signature() {
    let legacy: HashMap<u32, u32> = [(1, 0b1010), (3, 5)].into_iter().collect();
    let llm: HashMap<u32, u32> = [(1, 0b0110), (2, 7)].into_iter().collect();
    let m = interpolate_graphs(&legacy, &llm, true);
    assert_eq!(m.len(), 3);
    assert_eq!(m[&1], 0b0110);
    assert_eq!(m[&2], 7);
    assert_eq!(m[&3], 5);
    let n = interpolate_graphs(&legacy, &llm, false);
    assert_eq!(n[&1], 0b1010);
    let zero: HashMap<u32, u32> = [(1, 0)].into_iter().collect();
    assert_eq!(interpolate_graphs(&zero, &zero, true)[&1], 0);
    // swapping the graphs and the preference gives the same result
    assert_eq!(interpolate_graphs(&llm, &legacy, false), m);
}

#[test]
fn merged_graph_falls_back_to_the_grammar() {
    let g: HashMap<u32, u32> = [(1, 4)].into_iter().collect();
    let empty: HashMap<u32, u32> = HashMap::new();
    assert_eq!(merged_graph(&g, &empty, true), g);
    let llm: HashMap<u32, u32> = [(1, 9)].into_iter().collect();
    assert_eq!(merged_graph(&g, &llm, true)[&1], 9);
    assert_eq!(merged_graph(&g, &llm, false)[&1], 4);
}

fn model_header(vocab: GgufValue) -> GgufHeader {
    header(
        vec![
            GgufKv { key: "general.architecture".to_string(), value: GgufValue::String("llama".to_string()) },
            GgufKv { key: "llama.vocab_size".to_string(), value: vocab },
            GgufKv { key: "llama.embedding_length".to_string(), value: GgufValue::U32(4) },
        ],
        vec![tensor("token_embd.weight", vec![4, 10], QuantType::F16, 16)],
        4,
    )
}

#[test]
fn embedding_table_is_located() {
    let l = embedding_layout(&model_header(GgufValue::U32(10)), 100).unwrap();
    assert_eq!(l.arch, "llama");
    assert_eq!(l.vocab_size, 10);
    assert_eq!(l.embd_dim, 4);
    assert_eq!(l.quant_type, QuantType::F16);
    assert_eq!(l.bytes_per_elem, 2);
    assert_eq!(l.start, 20);
    assert_eq!(l.end, 100);
    assert_eq!(embedding_layout(&model_header(GgufValue::U64(12)), 100).unwrap().vocab_size, 12);
    assert_eq!(embedding_layout(&model_header(GgufValue::I32(12)), 100).unwrap().vocab_size, 0);
}

#[test]
fn embedding_table_errors() {
    let e = embedding_layout(&model_header(GgufValue::U32(10)), 99).err().unwrap();
    assert_eq!(e, "tensor excede tamanho do arquivo: 100 > 99");
    let none = header(vec![], vec![], 0);
    assert_eq!(embedding_layout(&none, 10).err().unwrap(), "tensor token_embd.weight n\u{e3}o encontrado");
    let unnamed = header(vec![], vec![tensor("token_embd.weight", vec![2], QuantType::Q8_0, 0)], 0);
    let l = embedding_layout(&unnamed, 2).unwrap();
    assert_eq!(l.arch, "unknown");
    assert_eq!(l.bytes_per_elem, 1);
    assert_eq!(l.vocab_size, 0);
}

fn layout(vocab: usize, dim: usize, bpe: usize, len: usize) -> EmbeddingLayout {
    EmbeddingLayout { arch: "x".to_string(), vocab_size: vocab, embd_dim: dim, quant_type: QuantType::F16, bytes_per_elem: bpe, start: 0, end: len }
}

#[test]
fn rows_stop_at_vocabulary_table_or_cap() {
    assert_eq!(embedding_rows(&layout(10, 4, 2, 80)), 10);
    assert_eq!(embedding_rows(&layout(10, 4, 2, 50)), 6);
    assert_eq!(embedding_rows(&layout(10, 0, 2, 0)), 10);
    assert_eq!(embedding_rows(&layout(200_000, 1, 1, 1_000_000)), 128256);
}

#[test]
fn table_arithmetic_is_checked() {
    let ok = header(vec![], vec![tensor("graph.data", vec![4], QuantType::F32, 0), tensor("lexicon.forms", vec![2, 8], QuantType::F32, 0)], 8);
    assert!(grammar_fits_exec(&ok));
    let huge = header(vec![], vec![tensor("graph.data", vec![u64::MAX / 2], QuantType::F32, 0)], 0);
    assert!(!grammar_fits_exec(&huge));
    let far = header(vec![], vec![tensor("lexicon.forms", vec![1], QuantType::F32, u64::MAX)], 1);
    assert!(!grammar_fits_exec(&far));
    let flat = header(vec![], vec![tensor("lexicon.forms", vec![], QuantType::F32, 0)], 0);
    assert!(!grammar_fits_exec(&flat));
    assert!(grammar_fits_exec(&header(vec![], vec![], 0)));
    assert!(embedding_fits_exec(&model_header(GgufValue::U32(10))));
    let big = header(vec![], vec![tensor("token_embd.weight", vec![u64::MAX / 2, 2], QuantType::F32, 0)], 0);
    assert!(!embedding_fits_exec(&big));
}
