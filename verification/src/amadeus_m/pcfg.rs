//! A small random phrase grammar that draws training sentences from the
//! compiler's lexicon: noun phrases and verb phrases whose words agree with
//! the phrase's features where the lexicon has such a word.
use vstd::prelude::*;
use crate::amadeus_m::compiler::Compiler;
use crate::amadeus_m::lexicon::LexSeq;
use crate::amadeus_m::syntax::{assign_dependencies, assign_spec};
use crate::amadeus_m::token7::{
    Token7, spec_token, morph_word, morph_from_class, CLASS_SUBSTANTIVO, CLASS_VERBO,
    CLASS_ADJETIVO, CLASS_ARTIGO, CLASS_PREPOSICAO, CLASS_PONTUACAO, CLASS_OUTRO,
};
use crate::random::{rng_bool, rng_u8_below, rng_usize_below};

verus! {

/// The agreement features of a phrase.
#[derive(Clone, Copy, Debug, PartialEq, Eq, Structural)]
pub struct Feat {
    pub gender: u8,
    pub number: u8,
    pub person: u8,
    pub tense: u8,
}

impl Feat {
    /// Features as the grammar draws them: gender and number 0 or 1, person
    /// below 3, tense below 4.
    pub open spec fn valid(self) -> bool {
        self.gender < 2 && self.number < 2 && self.person < 3 && self.tense < 4
    }

    /// The morphology word of a word of `class` with these features.
    pub open spec fn morph(self, class: u8) -> u16 {
        morph_word(class, self.gender, self.number, self.person, self.tense)
    }
}

/// All features zero, used for adverbs and prepositions.
pub open spec fn neutral() -> Feat {
    Feat { gender: 0, number: 0, person: 0, tense: 0 }
}

/// The features of a command: second person, the rest zero.
pub open spec fn imperative() -> Feat {
    Feat { gender: 0, number: 0, person: 2, tense: 0 }
}

/// Draws features: gender, number, person, tense, in that order.
pub fn random_feat(rng: &mut fastrand::Rng) -> (f: Feat)
    ensures
        f.valid(),
{
    let gender: u8 = if rng_bool(rng) { 1 } else { 0 };
    let number: u8 = if rng_bool(rng) { 1 } else { 0 };
    let person = rng_u8_below(rng, 3);
    let tense = rng_u8_below(rng, 4);
    Feat { gender, number, person, tense }
}

/// The ids of the lexicon entries of `class` (and, when given, of exactly
/// the morphology `morph`), in lexicon order.
pub open spec fn ids_where(s: LexSeq, class: u8, morph: Option<u16>) -> Seq<u32>
    decreases s.len(),
{
    if s.len() == 0 {
        Seq::empty()
    } else {
        let rest = ids_where(s.drop_last(), class, morph);
        let v = s.last().1;
        if v.2 == class && (morph is None || morph == Some(v.1)) {
            rest.push(v.0)
        } else {
            rest
        }
    }
}

/// What a drawn word may be: one of the entries with the class and the exact
/// morphology; failing those, one of the class; failing those, 0.
pub open spec fn pick_ok(s: LexSeq, class: u8, morph: u16, id: u32) -> bool {
    let perfect = ids_where(s, class, Some(morph));
    let any = ids_where(s, class, None);
    if perfect.len() > 0 {
        perfect.contains(id)
    } else if any.len() > 0 {
        any.contains(id)
    } else {
        id == 0
    }
}

/// The ids of the entries matching `class` (and `morph`, when given).
fn collect_ids(c: &Compiler, class: u8, morph: Option<u16>) -> (ids: Vec<u32>)
    ensures
        ids@ == ids_where(c.lexicon@, class, morph),
{
    let n = c.lexicon.len();
    let mut ids: Vec<u32> = Vec::new();
    let mut i: usize = 0;
    while i < n
        invariant
            n == c.lexicon@.len(),
            i <= n,
            ids@ == ids_where(c.lexicon@.take(i as int), class, morph),
        decreases n - i,
    {
        assert(c.lexicon@.take(i + 1).drop_last() =~= c.lexicon@.take(i as int));
        let (_, v) = c.lexicon.entry(i);
        let fits = match morph {
            Some(m) => v.2 == class && v.1 == m,
            None => v.2 == class,
        };
        if fits {
            ids.push(v.0);
        }
        i += 1;
    }
    assert(c.lexicon@.take(n as int) =~= c.lexicon@);
    ids
}

/// Draws a word of `class` that agrees with `f` where the lexicon has one
/// (see `pick_ok`).
pub fn pick(c: &Compiler, rng: &mut fastrand::Rng, class: u8, f: &Feat) -> (id: u32)
    ensures
        pick_ok(c.lexicon@, class, f.morph(class), id),
{
    let morph = morph_from_class(class, f.gender, f.number, f.person, f.tense);
    let perfect = collect_ids(c, class, Some(morph));
    if perfect.len() > 0 {
        let k = rng_usize_below(rng, perfect.len());
        assert(perfect@.contains(perfect@[k as int]));
        return perfect[k];
    }
    let any = collect_ids(c, class, None);
    if any.len() == 0 {
        0
    } else {
        let k = rng_usize_below(rng, any.len());
        assert(any@.contains(any@[k as int]));
        any[k]
    }
}

/// What a drawn token of `class` with features `f` may be: a word allowed by
/// `pick_ok`, the morphology of the class and features, and a style below 3
/// (0 for punctuation).
pub open spec fn token_ok(s: LexSeq, t: Token7, class: u8, f: Feat) -> bool {
    &&& pick_ok(s, class, f.morph(class), t.lex)
    &&& t == Token7 { style: t.style, ..spec_token(t.lex, f.morph(class)) }
    &&& t.style < 3
    &&& class == CLASS_PONTUACAO ==> t.style == 0
}

/// Draws a token of `class` with features `f` (see `token_ok`).
pub fn mk_tok(c: &Compiler, rng: &mut fastrand::Rng, class: u8, f: &Feat) -> (t: Token7)
    ensures
        token_ok(c.lexicon@, t, class, *f),
{
    let lex = pick(c, rng, class, f);
    let morph = morph_from_class(class, f.gender, f.number, f.person, f.tense);
    let style: u16 = if class == CLASS_PONTUACAO { 0 } else { rng_u8_below(rng, 3) as u16 };
    Token7::new(lex, morph).with_style(style)
}

/// The forms of a noun phrase.
#[derive(Clone, Copy, Debug, PartialEq, Eq, Structural)]
pub enum NpShape {
    /// Article, noun, adjective.
    ArtNounAdj,
    /// Article, noun.
    ArtNoun,
    /// A pronoun (a word of the class "other").
    Pronoun,
    /// A bare noun.
    Noun,
}

/// The forms of a verb phrase.
#[derive(Clone, Copy, Debug, PartialEq, Eq, Structural)]
pub enum VpShape {
    /// A verb alone.
    Verb,
    /// A verb and an adverb.
    VerbAdverb,
    /// A verb and an object noun phrase.
    VerbObject(NpShape),
    /// A verb, a preposition and an object noun phrase.
    VerbPrepObject(NpShape),
}

/// The forms of a generated sentence.
#[derive(Clone, Copy, Debug, PartialEq, Eq, Structural)]
pub enum SentenceShape {
    /// Subject noun phrase and verb phrase, agreeing.
    Statement(NpShape, VpShape),
    /// A noun phrase alone.
    Fragment(NpShape),
    /// A verb phrase in the second person.
    Command(VpShape),
}

/// The classes of a noun phrase's words.
pub open spec fn np_classes(shape: NpShape) -> Seq<u8> {
    match shape {
        NpShape::ArtNounAdj => seq![CLASS_ARTIGO, CLASS_SUBSTANTIVO, CLASS_ADJETIVO],
        NpShape::ArtNoun => seq![CLASS_ARTIGO, CLASS_SUBSTANTIVO],
        NpShape::Pronoun => seq![CLASS_OUTRO],
        NpShape::Noun => seq![CLASS_SUBSTANTIVO],
    }
}

/// Tokens drawn for the classes `classes`, all with features `f`.
pub open spec fn phrase_ok(s: LexSeq, ts: Seq<Token7>, classes: Seq<u8>, f: Feat) -> bool {
    ts.len() == classes.len() && forall|i: int| 0 <= i < ts.len() ==> token_ok(s, #[trigger] ts[i], classes[i], f)
}

/// A noun phrase of the given form with features `f`.
pub open spec fn np_ok(s: LexSeq, ts: Seq<Token7>, shape: NpShape, f: Feat) -> bool {
    phrase_ok(s, ts, np_classes(shape), f)
}

/// An object noun phrase: some valid features, the phrase's own.
pub open spec fn object_ok(s: LexSeq, ts: Seq<Token7>, shape: NpShape) -> bool {
    exists|g: Feat| g.valid() && #[trigger] np_ok(s, ts, shape, g)
}

/// A verb phrase of the given form whose verb has features `f`; adverbs
/// and prepositions have neutral features.
pub open spec fn vp_ok(s: LexSeq, ts: Seq<Token7>, shape: VpShape, f: Feat) -> bool {
    match shape {
        VpShape::Verb => ts.len() == 1 && token_ok(s, ts[0], CLASS_VERBO, f),
        VpShape::VerbAdverb => ts.len() == 2 && token_ok(s, ts[0], CLASS_VERBO, f) && token_ok(
            s,
            ts[1],
            CLASS_OUTRO,
            neutral(),
        ),
        VpShape::VerbObject(o) => ts.len() >= 1 && token_ok(s, ts[0], CLASS_VERBO, f) && object_ok(
            s,
            ts.drop_first(),
            o,
        ),
        VpShape::VerbPrepObject(o) => ts.len() >= 2 && token_ok(s, ts[0], CLASS_VERBO, f)
            && token_ok(s, ts[1], CLASS_PREPOSICAO, neutral()) && object_ok(s, ts.skip(2), o),
    }
}

/// A statement: a subject noun phrase of `k` words and a verb phrase,
/// sharing the features `f`.
pub open spec fn statement_ok(s: LexSeq, ts: Seq<Token7>, np: NpShape, vp: VpShape, f: Feat, k: int) -> bool {
    &&& f.valid()
    &&& 0 <= k <= ts.len()
    &&& np_ok(s, ts.take(k), np, f)
    &&& vp_ok(s, ts.skip(k), vp, f)
}

/// The words of a sentence of the given form, before the dependencies are
/// assigned.
pub open spec fn sentence_ok(s: LexSeq, ts: Seq<Token7>, shape: SentenceShape) -> bool {
    match shape {
        SentenceShape::Statement(np, vp) => exists|f: Feat, k: int| #[trigger] statement_ok(s, ts, np, vp, f, k),
        SentenceShape::Fragment(np) => exists|f: Feat| f.valid() && #[trigger] np_ok(s, ts, np, f),
        SentenceShape::Command(vp) => vp_ok(s, ts, vp, imperative()),
    }
}

/// The token that closes a generated sentence.
pub open spec fn end_token() -> Token7 {
    Token7 { punct: 1, ..spec_token(0, 0) }
}

/// Draws a noun phrase of the given form with features `f`.
pub fn np_tokens(c: &Compiler, rng: &mut fastrand::Rng, shape: NpShape, f: &Feat) -> (ts: Vec<Token7>)
    ensures
        np_ok(c.lexicon@, ts@, shape, *f),
        ts@.len() <= 3,
{
    let mut v: Vec<Token7> = Vec::new();
    match shape {
        NpShape::ArtNounAdj => {
            v.push(mk_tok(c, rng, CLASS_ARTIGO, f));
            v.push(mk_tok(c, rng, CLASS_SUBSTANTIVO, f));
            v.push(mk_tok(c, rng, CLASS_ADJETIVO, f));
        },
        NpShape::ArtNoun => {
            v.push(mk_tok(c, rng, CLASS_ARTIGO, f));
            v.push(mk_tok(c, rng, CLASS_SUBSTANTIVO, f));
        },
        NpShape::Pronoun => {
            v.push(mk_tok(c, rng, CLASS_OUTRO, f));
        },
        NpShape::Noun => {
            v.push(mk_tok(c, rng, CLASS_SUBSTANTIVO, f));
        },
    }
    assert(phrase_ok(c.lexicon@, v@, np_classes(shape), *f));
    v
}

/// Draws a verb phrase of the given form whose verb has features `f`; an
/// object noun phrase gets features of its own.
pub fn vp_tokens(c: &Compiler, rng: &mut fastrand::Rng, shape: VpShape, f: &Feat) -> (ts: Vec<Token7>)
    ensures
        vp_ok(c.lexicon@, ts@, shape, *f),
        ts@.len() <= 5,
{
    let zero = Feat { gender: 0, number: 0, person: 0, tense: 0 };
    let mut v: Vec<Token7> = Vec::new();
    v.push(mk_tok(c, rng, CLASS_VERBO, f));
    match shape {
        VpShape::Verb => {},
        VpShape::VerbAdverb => {
            v.push(mk_tok(c, rng, CLASS_OUTRO, &zero));
        },
        VpShape::VerbObject(o) => {
            let obj = random_feat(rng);
            let mut np = np_tokens(c, rng, o, &obj);
            let ghost np_seq = np@;
            v.append(&mut np);
            assert(v@.drop_first() =~= np_seq);
            assert(np_ok(c.lexicon@, v@.drop_first(), o, obj));
        },
        VpShape::VerbPrepObject(o) => {
            v.push(mk_tok(c, rng, CLASS_PREPOSICAO, &zero));
            let obj = random_feat(rng);
            let mut np = np_tokens(c, rng, o, &obj);
            let ghost np_seq = np@;
            v.append(&mut np);
            assert(v@.skip(2) =~= np_seq);
            assert(np_ok(c.lexicon@, v@.skip(2), o, obj));
        },
    }
    v
}

/// Draws a sentence of the given form, assigns its dependencies and closes
/// it with a full stop.
pub fn generate_sequence(c: &Compiler, rng: &mut fastrand::Rng, shape: SentenceShape) -> (out: Vec<Token7>)
    ensures
        exists|body: Seq<Token7>| #[trigger] sentence_ok(c.lexicon@, body, shape) && out@ == assign_spec(
            body,
        ).push(end_token()),
{
    let subj = random_feat(rng);
    let mut body: Vec<Token7> = Vec::new();
    match shape {
        SentenceShape::Statement(np, vp) => {
            let mut a = np_tokens(c, rng, np, &subj);
            let mut b = vp_tokens(c, rng, vp, &subj);
            let ghost sa = a@;
            let ghost sb = b@;
            body.append(&mut a);
            body.append(&mut b);
            assert(body@.take(sa.len() as int) =~= sa);
            assert(body@.skip(sa.len() as int) =~= sb);
            assert(statement_ok(c.lexicon@, body@, np, vp, subj, sa.len() as int));
        },
        SentenceShape::Fragment(np) => {
            let mut a = np_tokens(c, rng, np, &subj);
            body.append(&mut a);
            assert(np_ok(c.lexicon@, body@, np, subj));
        },
        SentenceShape::Command(vp) => {
            let imp = Feat { gender: 0, number: 0, person: 2, tense: 0 };
            let mut b = vp_tokens(c, rng, vp, &imp);
            body.append(&mut b);
        },
    }
    let ghost bs = body@;
    assert(sentence_ok(c.lexicon@, bs, shape));
    let mut out = assign_dependencies(body.as_slice());
    out.push(Token7::new(0, 0).with_punct(1));
    out
}

} // verus!
