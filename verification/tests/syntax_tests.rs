use amadeus::amadeus_m::syntax::assign_dependencies;
use amadeus::amadeus_m::syntax_ast::{build_ast, display_ast, SynNode};
use amadeus::amadeus_m::token7::{Token7, SYN_ADN, SYN_ADV, SYN_OD, SYN_OI, SYN_PREP, SYN_ROOT, SYN_SUJEITO};

fn tok(lex: u32, class: u16) -> Token7 {
    Token7::new(lex, class)
}

fn links(ts: &[Token7]) -> Vec<(i16, u8)> {
    ts.iter().map(|t| (t.syn_off, t.syn_func)).collect()
}

#[test]
fn dependencies_of_a_simple_sentence() {
    // o gato come o peixe .
    let ts = vec![tok(1, 3), tok(2, 0), tok(3, 1), tok(1, 3), tok(4, 0), tok(0, 5).with_punct(1)];
    let out = assign_dependencies(&ts);
    assert_eq!(
        links(&out),
        vec![(-1, SYN_ADN), (-1, SYN_SUJEITO), (0, SYN_ROOT), (-1, SYN_ADN), (2, SYN_OD), (0, 0)]
    );
    assert_eq!(out.iter().map(|t| t.lex).collect::<Vec<_>>(), vec![1, 2, 3, 1, 4, 0]);
}

#[test]
fn prepositions_and_adverbs() {
    // vai a casa de ontem: VERB PREP SUBST OTHER
    let ts = vec![tok(1, 1), tok(2, 4), tok(3, 0), tok(4, 6)];
    let out = assign_dependencies(&ts);
    assert_eq!(links(&out), vec![(0, SYN_ROOT), (-1, SYN_PREP), (2, SYN_OI), (-3, SYN_ADV)]);
    // without a verb the first token is the root
    let nv = assign_dependencies(&[tok(1, 0), tok(2, 2), tok(3, 0)]);
    assert_eq!(links(&nv), vec![(0, SYN_ROOT), (-1, SYN_ADN), (2, SYN_OD)]);
    assert!(assign_dependencies(&[]).is_empty());
}

#[test]
fn ast_groups_phrases_by_function() {
    let parsed = assign_dependencies(&[tok(1, 3), tok(2, 0), tok(3, 1), tok(0, 5).with_punct(1)]);
    let ast = build_ast(&parsed);
    assert_eq!(ast.collect_ids(), vec![1, 2, 3, 0]);
    match &ast {
        SynNode::Clause { children, .. } => assert_eq!(children.len(), 2),
        _ => panic!("the root is a clause"),
    }
    let text = display_ast(&parsed);
    let expected = "\u{2500}\u{2500}\u{2500} AST Sint\u{e1}tico \u{2500}\u{2500}\u{2500}\n\
ORACAO PRINCIPAL\n\
\u{2502} ORACAO PRINCIPAL\n\
\u{2502} \u{2502} ADN\n\
\u{2502} \u{2502} \u{2502} \u{252c}\u{2500}\u{2500} [ADN] id=1 class=3 morph=0x0003\n\
\u{2502} \u{2502} NUC\n\
\u{2502} \u{2502} \u{2502} \u{252c}\u{2500}\u{2500} [S] id=2 class=0 morph=0x0000\n\
\u{2502} \u{2502} \u{2502} \u{252c}\u{2500}\u{2500} [NUC] id=3 class=1 morph=0x0001\n\
\u{2502} S\n\
\u{2502} \u{2502} \u{252c}\u{2500}\u{2500} [S] id=0 class=5 morph=0x0005\n";
    assert_eq!(text, expected);
}
