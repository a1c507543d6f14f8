use amadeus::model::loader::{detect_arch, get_str, get_u32, get_u64, LoaderError};
use amadeus::quant::gguf::{
    parse_header, quant_type_from_ggml, quant_type_to_ggml, GgufError, GgufField, GgufKv,
    GgufTensorInfo, GgufValue, GgufWriter,
};
use amadeus::quant::QuantType;

fn kv(key: &str, value: GgufValue) -> GgufKv {
    GgufKv { key: key.to_string(), value }
}

fn sample_file_with(last: GgufValue) -> Vec<u8> {
    let kvs = vec![
        kv("general.architecture", GgufValue::String("LLaMA".to_string())),
        kv("llama.block_count", GgufValue::U32(4)),
        kv("extra", last),
    ];
    let tensors = vec![GgufTensorInfo {
        name: "tok".to_string(),
        n_dims: 2,
        shape: vec![2, 3],
        quant_type: QuantType::Q8_0,
        offset: 0,
    }];
    let mut w = GgufWriter::new();
    w.write_header(3, 1, 3, &kvs, &tensors);
    w.write_tensor_data(&[9, 8, 7]);
    w.finish()
}

fn sample_file() -> Vec<u8> {
    sample_file_with(GgufValue::I64(-5))
}

#[test]
fn written_header_reads_back() {
    let bytes = sample_file();
    let h = parse_header(&bytes).unwrap();
    assert_eq!(h.version, 3);
    assert_eq!(h.n_tensors, 1);
    assert_eq!(h.n_kv, 3);
    assert_eq!(h.kv_pairs.len(), 3);
    assert_eq!(h.kv_pairs[0].key, "general.architecture");
    assert!(matches!(&h.kv_pairs[0].value, GgufValue::String(s) if s == "LLaMA"));
    assert!(matches!(h.kv_pairs[1].value, GgufValue::U32(4)));
    assert!(matches!(h.kv_pairs[2].value, GgufValue::I64(-5)));
    assert_eq!(h.tensor_infos.len(), 1);
    assert_eq!(h.tensor_infos[0].name, "tok");
    assert_eq!(h.tensor_infos[0].shape, vec![2, 3]);
    assert_eq!(h.tensor_infos[0].quant_type, QuantType::Q8_0);
    // the header ends where the padding before the tensor data begins
    let end = h.data_offset as usize;
    assert!(bytes[end..bytes.len() - 3].iter().all(|&b| b == 0));
    assert_eq!((end + 31) / 32 * 32, bytes.len() - 3);
    assert_eq!(&bytes[bytes.len() - 3..], &[9, 8, 7]);
}

#[test]
fn bad_magic_is_refused() {
    let r = parse_header(&[1, 2, 3, 4, 5, 6, 7, 8]);
    assert!(matches!(r, Err(GgufError::BadMagic(0x0403_0201))));
}

#[test]
fn short_input_reports_the_field() {
    assert!(matches!(parse_header(&[0x47, 0x47]), Err(GgufError::Eof(GgufField::Magic))));
    assert!(matches!(parse_header(b"GGUF\x03\x00"), Err(GgufError::Eof(GgufField::Version))));
    let bytes = sample_file();
    assert!(matches!(parse_header(&bytes[..20]), Err(GgufError::Eof(_))));
}

#[test]
fn unknown_quant_codes_are_refused() {
    let t = GgufTensorInfo { name: "x".to_string(), n_dims: 1, shape: vec![1], quant_type: QuantType::F32, offset: 0 };
    let mut w = GgufWriter::new();
    w.write_header(3, 1, 0, &[], &[t]);
    let mut bytes = w.finish();
    // the type code sits 12 bytes before the end of the descriptor
    let n = bytes.len();
    bytes[n - 12] = 3;
    assert!(matches!(parse_header(&bytes), Err(GgufError::UnsupportedQuant(3))));
}

#[test]
fn ggml_codes_map_both_ways() {
    for (code, q) in [(0, QuantType::F32), (1, QuantType::F16), (2, QuantType::Q4_0), (8, QuantType::Q8_0), (14, QuantType::Q6_K)] {
        assert_eq!(quant_type_from_ggml(code), Some(q));
        assert_eq!(quant_type_to_ggml(q), code);
    }
    assert_eq!(quant_type_from_ggml(3), None);
    assert_eq!(quant_type_from_ggml(15), None);
}

#[test]
fn quant_names_and_sizes() {
    assert_eq!(QuantType::from_str("q8_0"), Some(QuantType::Q8_0));
    assert_eq!(QuantType::from_str("F16"), Some(QuantType::F16));
    assert_eq!(QuantType::from_str("q5_1"), None);
    assert_eq!(QuantType::Q6_K.block_size(), 256);
    assert_eq!(QuantType::Q6_K.bytes_per_block(), 210);
    assert_eq!(QuantType::Q4_0.bytes_per_block(), 18);
    assert_eq!(QuantType::Q8_0.bytes_per_block(), 34);
    assert_eq!(QuantType::F32.bytes_per_block(), 4);
}

#[test]
fn metadata_lookups_convert_integers() {
    let kvs = vec![
        kv("a", GgufValue::U32(7)),
        kv("b", GgufValue::I32(-1)),
        kv("c", GgufValue::U64(0x1_0000_0005)),
        kv("d", GgufValue::I64(-2)),
        kv("e", GgufValue::String("x".to_string())),
        kv("a", GgufValue::U32(99)),
    ];
    assert_eq!(get_u32(&kvs, "a"), Some(7));
    assert_eq!(get_u32(&kvs, "b"), Some(u32::MAX));
    assert_eq!(get_u32(&kvs, "c"), Some(5));
    assert_eq!(get_u32(&kvs, "e"), None);
    assert_eq!(get_u32(&kvs, "z"), None);
    assert_eq!(get_u64(&kvs, "a"), Some(7));
    assert_eq!(get_u64(&kvs, "d"), Some(u64::MAX - 1));
    assert_eq!(get_u64(&kvs, "b"), None);
    assert_eq!(get_str(&kvs, "e"), Some("x"));
    assert_eq!(get_str(&kvs, "a"), None);
}

#[test]
fn architecture_is_named_or_guessed() {
    let named = vec![kv("general.architecture", GgufValue::String("Qwen2".to_string()))];
    assert_eq!(detect_arch(&named).unwrap(), "qwen2");
    let guessed = vec![kv("llama.context_length", GgufValue::U32(4096))];
    assert_eq!(detect_arch(&guessed).unwrap(), "llama");
    let none = vec![kv("other.key", GgufValue::U32(1))];
    assert!(matches!(detect_arch(&none), Err(LoaderError::InvalidFormat(m)) if m == "unknown architecture"));
}

#[test]
fn written_arrays_carry_item_tags_the_reader_does_not_expect() {
    // the writer tags every array item with its type; the reader takes the
    // items as untagged values of the element type
    let bytes = sample_file_with(GgufValue::Array(vec![GgufValue::U8(1), GgufValue::Bool(true)]));
    assert!(matches!(parse_header(&bytes), Err(GgufError::Eof(GgufField::StrData))));
}
