use std::collections::HashMap;
use amadeus::amadeus_m::grammar_file::{
    class_section, forms_section, grammar_file, grammar_metadata, grammar_tensors,
    graph_section, is_amadeus, load_class_section, load_graph_section, read_grammar_tensor,
    roots_section, section_shape, SectionCounts, FORMAT_VERSION,
};
use amadeus::amadeus_m::lexicon::Lexicon;
use amadeus::quant::gguf::{parse_header, GgufValue};

fn counts() -> SectionCounts {
    SectionCounts { snn: None }
}

#[test]
fn form_rows_are_eight_cells() {
    let mut l = Lexicon::new();
    l.insert("gato".to_string(), (7, 0x0102, 3, 9));
    let d = forms_section(&l);
    assert_eq!(d.len(), 32);
    assert_eq!(&d[0..4], &7u32.to_le_bytes());
    assert_eq!(&d[4..8], &0x0102u32.to_le_bytes());
    assert_eq!(&d[8..12], &3u32.to_le_bytes());
    assert_eq!(&d[12..16], &9u32.to_le_bytes());
    assert!(d[16..].iter().all(|&b| b == 0));
    assert_eq!(section_shape("lexicon.forms", d.len(), &counts()), vec![1, 8]);
}

#[test]
fn roots_are_stored_as_lexicon_ids() {
    let mut l = Lexicon::new();
    l.insert("gato".to_string(), (7, 0, 0, 0));
    let roots = vec![String::new(), "gato".to_string(), "x".to_string()];
    let d = roots_section(&roots, &l);
    assert_eq!(d, [0u32, 7, 0].iter().flat_map(|w| w.to_le_bytes()).collect::<Vec<u8>>());
    // one cell per root, empty ones included
    assert_eq!(section_shape("lexicon.roots", d.len(), &counts()), vec![3]);
}

#[test]
fn graph_and_class_sections_read_back() {
    let g: HashMap<u32, u32> = [(1, 0xDEAD), (2, 3), (9, 0)].into_iter().collect();
    let raw = graph_section(&g);
    assert_eq!(raw.len(), 24);
    assert_eq!(load_graph_section(&raw), g);
    let c: HashMap<u32, u8> = [(1, 2), (4, 255)].into_iter().collect();
    let rawc = class_section(&c);
    assert_eq!(rawc.len(), 16);
    assert_eq!(load_class_section(&rawc), c);
    // a trailing partial pair is ignored
    let mut longer = raw.clone();
    longer.extend([1, 2, 3]);
    assert_eq!(load_graph_section(&longer), g);
}

#[test]
fn section_shapes() {
    let c = counts();
    assert_eq!(section_shape("lexicon.forms", 64, &c), vec![2, 8]);
    assert_eq!(section_shape("lexicon.roots", 12, &c), vec![3]);
    assert_eq!(section_shape("graph.data", 32, &c), vec![4, 2]);
    assert_eq!(section_shape("lex_to_class.data", 40, &c), vec![5, 2]);
    assert_eq!(section_shape("t2.head.data", 48, &c), vec![2, 6]);
    // agreement-by-class rows are four cells
    assert_eq!(section_shape("t2.class.data", 48, &c), vec![3, 4]);
    assert_eq!(section_shape("t3.exact.data", 40, &c), vec![2, 5]);
    assert_eq!(section_shape("t3.class.data", 24, &c), vec![2, 3]);
    assert_eq!(section_shape("t3.cs.data", 0, &c), vec![0]);
    assert_eq!(section_shape("cubo.blob", 10, &c), vec![2]);
    assert_eq!(section_shape("snn.synapses_ih", 8, &c), vec![2]);
    let s = SectionCounts { snn: Some((3, 4, 5)) };
    assert_eq!(section_shape("snn.synapses_ih", 8, &s), vec![3, 4]);
    assert_eq!(section_shape("snn.synapses_ho", 8, &s), vec![4, 5]);
    assert_eq!(section_shape("snn.output_labels", 8, &s), vec![5]);
}

#[test]
fn metadata_names_the_architecture() {
    let kv = grammar_metadata(3, 0x3F80_0000, 1, 2);
    assert_eq!(kv.len(), 6);
    assert_eq!(kv[0].key, "general.architecture");
    assert!(matches!(&kv[0].value, GgufValue::String(s) if s == "amadeus"));
    assert!(matches!(kv[1].value, GgufValue::U32(v) if v == FORMAT_VERSION));
    assert!(matches!(kv[2].value, GgufValue::U32(3)));
    assert!(matches!(kv[3].value, GgufValue::F32(0x3F80_0000)));
    assert_eq!(kv[5].key, "amadeus.graph_alpha");
}

#[test]
fn grammar_file_round_trip() {
    let g: HashMap<u32, u32> = [(1, 10), (2, 20)].into_iter().collect();
    let c: HashMap<u32, u8> = [(1, 3)].into_iter().collect();
    let sections = vec![
        ("graph.data".to_string(), graph_section(&g)),
        ("lex_to_class.data".to_string(), class_section(&c)),
    ];
    let counts = SectionCounts { snn: None };
    let tensors = grammar_tensors(&sections, &counts);
    assert_eq!(tensors.len(), 2);
    assert_eq!(tensors[0].offset, 0);
    assert_eq!(tensors[1].offset, 16);
    assert_eq!(tensors[0].shape, vec![2, 2]);
    let kv = grammar_metadata(3, 0, 0, 0);
    let bytes = grammar_file(&kv, &tensors, &sections);
    let h = parse_header(&bytes).unwrap();
    assert_eq!(h.version, 3);
    assert!(is_amadeus(&h));
    let raw = read_grammar_tensor(&h, &bytes, "graph.data").unwrap();
    assert_eq!(load_graph_section(&raw), g);
    let rawc = read_grammar_tensor(&h, &bytes, "lex_to_class.data").unwrap();
    assert_eq!(load_class_section(&rawc), c);
    assert!(read_grammar_tensor(&h, &bytes, "t2.head.data").is_none());
    assert!(read_grammar_tensor(&h, &bytes[..bytes.len() - 1], "lex_to_class.data").is_none());
}

#[test]
fn other_files_are_not_grammars() {
    let mut kv = grammar_metadata(3, 0, 0, 0);
    kv[0].value = GgufValue::String("llama".to_string());
    let bytes = grammar_file(&kv, &[], &[]);
    let h = parse_header(&bytes).unwrap();
    assert!(!is_amadeus(&h));
}
