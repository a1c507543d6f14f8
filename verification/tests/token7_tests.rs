use amadeus::amadeus_m::lexicon::Lexicon;
use amadeus::amadeus_m::token7::{decompile_tokens, morph_from_class, Token7, CLASS_VERBO};

#[test]
fn flat_roundtrip_keeps_fields() {
    let t = Token7::new(42, morph_from_class(CLASS_VERBO, 1, 0, 2, 3))
        .with_syn(-3, 1)
        .with_punct(2)
        .with_style(7)
        .with_graph(0xdead_beef);
    let f = t.to_flat();
    assert_eq!(f.len(), 8);
    assert_eq!(Token7::from_flat(&f), t);
}

#[test]
fn morph_fields_read_back() {
    let t = Token7::new(1, morph_from_class(CLASS_VERBO, 1, 0, 2, 3));
    assert_eq!(t.morph_class(), CLASS_VERBO);
    assert_eq!(t.morph_gender(), 1);
    assert_eq!(t.morph_number(), 0);
    assert_eq!(t.morph_person(), 2);
    assert_eq!(t.morph_tense(), 3);
    assert_eq!(t.morph_detail(), t.morph - 1);
    assert_eq!(morph_from_class(2, 0, 1, 0, 0), 2 | 16);
}

#[test]
fn token_streams_flatten_and_read_back() {
    let ts = vec![Token7::new(4, 2).with_syn(-1, 5), Token7::new(7, 1).with_graph(9)];
    let mut flat = Token7::flatten_all(&ts);
    assert_eq!(flat.len(), 16);
    assert_eq!(&flat[..8], &[4, 2, (-1i16) as u32, 5, 0, 0, 0, 0]);
    assert_eq!(Token7::unflatten_all(&flat), ts);
    // a trailing incomplete group is ignored
    flat.push(3);
    assert_eq!(Token7::unflatten_all(&flat), ts);
    assert!(Token7::unflatten_all(&[1, 2, 3]).is_empty());
}

#[test]
fn tokens_decompile_to_text() {
    let mut lex = Lexicon::new();
    lex.insert("o".to_string(), (1, 3, 3, 0));
    lex.insert("gato".to_string(), (2, 0, 0, 0));
    let ts = vec![
        Token7::new(1, 3),
        Token7::new(2, 0),
        Token7::new(0, 5).with_punct(1),
        Token7::new(9, 0),
        Token7::new(2, 5),
        Token7::new(0, 5).with_punct(6),
    ];
    assert_eq!(decompile_tokens(&ts, &lex), "o gato. [9]gato...");
    assert_eq!(decompile_tokens(&[], &lex), "");
}
