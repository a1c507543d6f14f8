use amadeus::amadeus_m::compiler::Compiler;
use amadeus::amadeus_m::pcfg::{
    generate_sequence, mk_tok, np_tokens, pick, random_feat, vp_tokens, Feat, NpShape,
    SentenceShape, VpShape,
};
use amadeus::amadeus_m::token7::morph_from_class;

fn grammar_compiler() -> Compiler {
    let mut c = Compiler::new("uw");
    c.lexicon.insert("o".to_string(), (1, morph_from_class(3, 0, 0, 0, 0), 3, 0));
    c.lexicon.insert("gato".to_string(), (2, morph_from_class(0, 0, 0, 0, 0), 0, 0));
    c.lexicon.insert("come".to_string(), (3, morph_from_class(1, 0, 0, 2, 0), 1, 0));
    c.lexicon.insert("de".to_string(), (4, morph_from_class(4, 0, 0, 0, 0), 4, 0));
    c
}

#[test]
fn random_features_stay_in_range() {
    let mut rng = fastrand::Rng::with_seed(11);
    for _ in 0..50 {
        let f = random_feat(&mut rng);
        assert!(f.gender < 2 && f.number < 2 && f.person < 3 && f.tense < 4);
    }
}

#[test]
fn pick_prefers_agreeing_words() {
    let mut c = grammar_compiler();
    c.lexicon.insert("gata".to_string(), (5, morph_from_class(0, 1, 0, 0, 0), 0, 0));
    let mut rng = fastrand::Rng::with_seed(3);
    let fem = Feat { gender: 1, number: 0, person: 0, tense: 0 };
    for _ in 0..20 {
        assert_eq!(pick(&c, &mut rng, 0, &fem), 5);
    }
    // no plural noun: any noun will do
    let plural = Feat { gender: 0, number: 1, person: 0, tense: 0 };
    for _ in 0..20 {
        let id = pick(&c, &mut rng, 0, &plural);
        assert!(id == 2 || id == 5);
    }
    // no adjective at all
    assert_eq!(pick(&c, &mut rng, 2, &fem), 0);
}

#[test]
fn tokens_carry_class_features_and_style() {
    let c = grammar_compiler();
    let mut rng = fastrand::Rng::with_seed(5);
    let f = Feat { gender: 1, number: 1, person: 1, tense: 3 };
    for _ in 0..20 {
        let t = mk_tok(&c, &mut rng, 1, &f);
        assert_eq!(t.lex, 3);
        assert_eq!(t.morph, morph_from_class(1, 1, 1, 1, 3));
        assert!(t.style < 3);
    }
    let p = mk_tok(&c, &mut rng, 5, &f);
    assert_eq!(p.style, 0);
    assert_eq!(p.lex, 0);
}

#[test]
fn phrase_shapes_give_their_classes() {
    let c = grammar_compiler();
    let mut rng = fastrand::Rng::with_seed(9);
    let f = Feat { gender: 0, number: 0, person: 0, tense: 0 };
    let np = np_tokens(&c, &mut rng, NpShape::ArtNounAdj, &f);
    assert_eq!(np.iter().map(|t| t.morph_class()).collect::<Vec<_>>(), vec![3, 0, 2]);
    assert_eq!(np.iter().map(|t| t.lex).collect::<Vec<_>>(), vec![1, 2, 0]);
    let vp = vp_tokens(&c, &mut rng, VpShape::VerbPrepObject(NpShape::ArtNoun), &f);
    assert_eq!(vp.iter().map(|t| t.morph_class()).collect::<Vec<_>>(), vec![1, 4, 3, 0]);
    assert_eq!(vp[1].morph, morph_from_class(4, 0, 0, 0, 0));
    let adv = vp_tokens(&c, &mut rng, VpShape::VerbAdverb, &f);
    assert_eq!(adv.iter().map(|t| t.morph_class()).collect::<Vec<_>>(), vec![1, 6]);
}

#[test]
fn sentences_end_with_a_full_stop() {
    let c = grammar_compiler();
    let mut rng = fastrand::Rng::with_seed(21);
    let s = generate_sequence(&c, &mut rng, SentenceShape::Statement(NpShape::ArtNoun, VpShape::Verb));
    assert_eq!(s.len(), 4);
    assert_eq!(s.iter().map(|t| t.lex).collect::<Vec<_>>(), vec![1, 2, 3, 0]);
    assert_eq!(s[3].punct, 1);
    assert_eq!(s[3].morph, 0);
    // the subject and the verb agree
    assert_eq!(s[1].morph >> 3, s[2].morph >> 3);
}

#[test]
fn commands_are_second_person() {
    let c = grammar_compiler();
    let mut rng = fastrand::Rng::with_seed(2);
    let s = generate_sequence(&c, &mut rng, SentenceShape::Command(VpShape::Verb));
    assert_eq!(s.len(), 2);
    assert_eq!(s[0].lex, 3);
    assert_eq!(s[0].morph, morph_from_class(1, 0, 0, 2, 0));
    let frag = generate_sequence(&c, &mut rng, SentenceShape::Fragment(NpShape::Pronoun));
    assert_eq!(frag.len(), 2);
    assert_eq!(frag[0].lex, 0);
    assert_eq!(frag[0].morph_class(), 6);
}
