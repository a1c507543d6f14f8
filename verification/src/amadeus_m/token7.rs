//! The eight-field morphological token and its packed morphology word.
use vstd::prelude::*;
use crate::amadeus_m::lexicon::{Lexicon, LexSeq, first_form_with_id};
use crate::text::{decimal, push_char, push_str, push_decimal};

verus! {

/// A token of the morphological stream: a lexical root plus morphology,
/// syntax, orthography, punctuation, style and semantic-signature fields.
#[derive(Clone, Copy, Debug, PartialEq, Eq, Structural)]
pub struct Token7 {
    pub lex: u32,
    pub morph: u16,
    pub syn_off: i16,
    pub syn_func: u8,
    pub orth: u8,
    pub punct: u8,
    pub style: u16,
    pub graph: u32,
}

pub const CLASS_SUBSTANTIVO: u8 = 0;
pub const CLASS_VERBO: u8 = 1;
pub const CLASS_ADJETIVO: u8 = 2;
pub const CLASS_ARTIGO: u8 = 3;
pub const CLASS_PREPOSICAO: u8 = 4;
pub const CLASS_PONTUACAO: u8 = 5;
pub const CLASS_OUTRO: u8 = 6;

pub const SYN_ROOT: u8 = 4;
pub const SYN_SUJEITO: u8 = 0;
pub const SYN_OD: u8 = 1;
pub const SYN_OI: u8 = 2;
pub const SYN_ADV: u8 = 3;
pub const SYN_ADN: u8 = 5;
pub const SYN_PREP: u8 = 6;
pub const SYN_PRED: u8 = 7;

pub const PUNCT_PERIOD: u8 = 1;
pub const PUNCT_COMMA: u8 = 2;
pub const PUNCT_SEMICOLON: u8 = 3;
pub const PUNCT_COLON: u8 = 4;
pub const PUNCT_DASH: u8 = 5;
pub const PUNCT_ELLIPSIS: u8 = 6;
pub const PUNCT_QUESTION: u8 = 7;
pub const PUNCT_EXCLAMATION: u8 = 8;

/// Word class stored in bits 0..3 of a morphology word.
pub open spec fn class_of(morph: u16) -> u8 {
    (morph % 8) as u8
}

/// Grammatical gender stored in bit 3.
pub open spec fn gender_of(morph: u16) -> u8 {
    ((morph / 8) % 2) as u8
}

/// Grammatical number stored in bit 4.
pub open spec fn number_of(morph: u16) -> u8 {
    ((morph / 16) % 2) as u8
}

/// Tense stored in bits 5..8.
pub open spec fn tense_of(morph: u16) -> u8 {
    ((morph / 32) % 8) as u8
}

/// Person stored in bits 8..11.
pub open spec fn person_of(morph: u16) -> u8 {
    ((morph / 256) % 8) as u8
}

/// A token with the given root and morphology and every other field zero.
pub open spec fn spec_token(lex: u32, morph: u16) -> Token7 {
    Token7 { lex, morph, syn_off: 0, syn_func: 0, orth: 0, punct: 0, style: 0, graph: 0 }
}

/// The eight fields of a token widened to `u32`, in declaration order
/// (the signed offset is sign-extended).
pub open spec fn flat_of(t: Token7) -> Seq<u32> {
    seq![
        t.lex,
        t.morph as u32,
        t.syn_off as u32,
        t.syn_func as u32,
        t.orth as u32,
        t.punct as u32,
        t.style as u32,
        t.graph,
    ]
}

/// The token read back from eight words, each narrowed to its field's width.
pub open spec fn token_of_flat(f: Seq<u32>) -> Token7 {
    Token7 {
        lex: f[0],
        morph: f[1] as u16,
        syn_off: f[2] as i16,
        syn_func: f[3] as u8,
        orth: f[4] as u8,
        punct: f[5] as u8,
        style: f[6] as u16,
        graph: f[7],
    }
}

/// The flat form of a token sequence: the flat forms of its tokens, concatenated.
pub open spec fn flatten_spec(ts: Seq<Token7>) -> Seq<u32>
    decreases ts.len(),
{
    if ts.len() == 0 {
        Seq::empty()
    } else {
        flatten_spec(ts.drop_last()) + flat_of(ts.last())
    }
}

/// The tokens read from each complete group of eight words; a trailing
/// incomplete group is ignored.
pub open spec fn unflatten_spec(f: Seq<u32>) -> Seq<Token7> {
    Seq::new(f.len() / 8, |i: int| token_of_flat(f.subrange(8 * i, 8 * i + 8)))
}

/// The morphology word with the given class, gender, number, person and tense
/// fields or-ed together at their bit positions.
pub open spec fn morph_word(class: u8, gender: u8, number: u8, person: u8, tense: u8) -> u16 {
    (class as u16) | ((gender as u16) << 3u16) | ((number as u16) << 4u16) | ((tense as u16)
        << 5u16) | ((person as u16) << 8u16)
}

impl Token7 {
    pub fn new(lex: u32, morph: u16) -> (t: Self)
        ensures
            t == spec_token(lex, morph),
    {
        Token7 { lex, morph, syn_off: 0, syn_func: 0, orth: 0, punct: 0, style: 0, graph: 0 }
    }

    pub fn morph_class(&self) -> (c: u8)
        ensures
            c == class_of(self.morph),
            c < 8,
    {
        let m = self.morph;
        assert((m & 0x07) == m % 8 && m % 8 < 8) by (bit_vector);
        (m & 0x07) as u8
    }

    pub fn morph_gender(&self) -> (g: u8)
        ensures
            g == gender_of(self.morph),
            g < 2,
    {
        let m = self.morph;
        assert(((m >> 3) & 0x01) == (m / 8) % 2 && (m / 8) % 2 < 2) by (bit_vector);
        ((m >> 3) & 0x01) as u8
    }

    pub fn morph_number(&self) -> (n: u8)
        ensures
            n == number_of(self.morph),
            n < 2,
    {
        let m = self.morph;
        assert(((m >> 4) & 0x01) == (m / 16) % 2 && (m / 16) % 2 < 2) by (bit_vector);
        ((m >> 4) & 0x01) as u8
    }

    pub fn morph_person(&self) -> (p: u8)
        ensures
            p == person_of(self.morph),
            p < 8,
    {
        let m = self.morph;
        assert(((m >> 8) & 0x07) == (m / 256) % 8 && (m / 256) % 8 < 8) by (bit_vector);
        ((m >> 8) & 0x07) as u8
    }

    pub fn morph_tense(&self) -> (t: u8)
        ensures
            t == tense_of(self.morph),
            t < 8,
    {
        let m = self.morph;
        assert(((m >> 5) & 0x07) == (m / 32) % 8 && (m / 32) % 8 < 8) by (bit_vector);
        ((m >> 5) & 0x07) as u8
    }

    /// The morphology word with its class bits cleared.
    pub fn morph_detail(&self) -> (d: u16)
        ensures
            d == self.morph - self.morph % 8,
    {
        let m = self.morph;
        assert((m & !0x07u16) == m - m % 8) by (bit_vector);
        m & !0x07u16
    }

    pub fn with_syn(self, off: i16, func: u8) -> (t: Self)
        ensures
            t == (Token7 { syn_off: off, syn_func: func, ..self }),
    {
        Token7 { syn_off: off, syn_func: func, ..self }
    }

    pub fn with_punct(self, p: u8) -> (t: Self)
        ensures
            t == (Token7 { punct: p, ..self }),
    {
        Token7 { punct: p, ..self }
    }

    pub fn with_style(self, s: u16) -> (t: Self)
        ensures
            t == (Token7 { style: s, ..self }),
    {
        Token7 { style: s, ..self }
    }

    pub fn with_graph(self, g: u32) -> (t: Self)
        ensures
            t == (Token7 { graph: g, ..self }),
    {
        Token7 { graph: g, ..self }
    }

    pub fn to_flat(&self) -> (v: Vec<u32>)
        ensures
            v@ == flat_of(*self),
    {
        let v = vec![
            self.lex,
            self.morph as u32,
            self.syn_off as u32,
            self.syn_func as u32,
            self.orth as u32,
            self.punct as u32,
            self.style as u32,
            self.graph,
        ];
        assert(v@ =~= flat_of(*self));
        v
    }

    pub fn from_flat(flat: &[u32]) -> (t: Self)
        requires
            flat@.len() >= 8,
        ensures
            t == token_of_flat(flat@),
    {
        Token7 {
            lex: flat[0],
            morph: flat[1] as u16,
            syn_off: flat[2] as i16,
            syn_func: flat[3] as u8,
            orth: flat[4] as u8,
            punct: flat[5] as u8,
            style: flat[6] as u16,
            graph: flat[7],
        }
    }

    /// The flat forms of `tokens`, concatenated.
    pub fn flatten_all(tokens: &[Token7]) -> (v: Vec<u32>)
        ensures
            v@ == flatten_spec(tokens@),
    {
        let mut v: Vec<u32> = Vec::new();
        let n = tokens.len();
        let mut i: usize = 0;
        assert(tokens@.take(0) =~= Seq::<Token7>::empty());
        while i < n
            invariant
                n == tokens@.len(),
                i <= n,
                v@ == flatten_spec(tokens@.take(i as int)),
            decreases n - i,
        {
            let f = tokens[i].to_flat();
            let mut k: usize = 0;
            let ghost v0 = v@;
            while k < 8
                invariant
                    k <= 8,
                    f@ == flat_of(tokens@[i as int]),
                    v@ == v0 + f@.take(k as int),
                decreases 8 - k,
            {
                v.push(f[k]);
                assert(f@.take(k + 1) =~= f@.take(k as int).push(f@[k as int]));
                k += 1;
            }
            assert(f@.take(8) =~= f@);
            assert(tokens@.take(i + 1).drop_last() =~= tokens@.take(i as int));
            i += 1;
        }
        assert(tokens@.take(n as int) =~= tokens@);
        v
    }

    /// The tokens read from each complete group of eight words of `flat`.
    pub fn unflatten_all(flat: &[u32]) -> (v: Vec<Token7>)
        ensures
            v@ == unflatten_spec(flat@),
    {
        let mut v: Vec<Token7> = Vec::new();
        let len = flat.len();
        let n = len / 8;
        let mut i: usize = 0;
        while i < n
            invariant
                len == flat@.len(),
                n == flat@.len() / 8,
                i <= n,
                v@.len() == i,
                forall|k: int| 0 <= k < i ==> v@[k] == token_of_flat(flat@.subrange(8 * k, 8 * k + 8)),
            decreases n - i,
        {
            assert(8 * i + 8 <= flat@.len()) by (nonlinear_arith)
                requires
                    i < n,
                    n == len / 8,
                    len == flat@.len(),
            ;
            let chunk = &flat[8 * i..8 * i + 8];
            assert(chunk@ =~= flat@.subrange(8 * i, 8 * i + 8));
            v.push(Token7::from_flat(chunk));
            i += 1;
        }
        assert(v@ =~= unflatten_spec(flat@));
        v
    }
}

/// Packs the morphological fields into a morphology word.
pub fn morph_from_class(class: u8, gender: u8, number: u8, person: u8, tense: u8) -> (m: u16)
    ensures
        m == morph_word(class, gender, number, person, tense),
{
    (class as u16) | ((gender as u16) << 3u16) | ((number as u16) << 4u16) | ((tense as u16) << 5u16)
        | ((person as u16) << 8u16)
}

/// Converting a token to its flat form and back gives the same token.
pub proof fn lemma_flat_roundtrip(t: Token7)
    ensures
        token_of_flat(flat_of(t)) == t,
{
    let x = t.syn_off;
    assert((x as u32) as i16 == x) by (bit_vector);
}

/// The flat form of a token sequence holds eight words per token.
pub proof fn lemma_flatten_len(ts: Seq<Token7>)
    ensures
        flatten_spec(ts).len() == 8 * ts.len(),
        forall|i: int, k: int| 0 <= i < ts.len() && 0 <= k < 8 ==> #[trigger] flatten_spec(ts)[8 * i + k] == flat_of(ts[i])[k],
    decreases ts.len(),
{
    if ts.len() > 0 {
        lemma_flatten_len(ts.drop_last());
        let p = ts.drop_last();
        assert forall|i: int, k: int| 0 <= i < ts.len() && 0 <= k < 8 implies #[trigger] flatten_spec(ts)[8 * i + k] == flat_of(ts[i])[k] by {
            if i < ts.len() - 1 {
                assert(flatten_spec(p)[8 * i + k] == flat_of(p[i])[k]);
            }
        }
    }
}

/// Reading back the flat form of a token sequence gives the same sequence.
pub proof fn lemma_flatten_roundtrip(ts: Seq<Token7>)
    ensures
        unflatten_spec(flatten_spec(ts)) == ts,
{
    lemma_flatten_len(ts);
    let f = flatten_spec(ts);
    assert forall|i: int| 0 <= i < ts.len() implies #[trigger] unflatten_spec(f)[i] == ts[i] by {
        let c = f.subrange(8 * i, 8 * i + 8);
        assert forall|k: int| 0 <= k < 8 implies c[k] == flat_of(ts[i])[k] by {
            assert(f[8 * i + k] == flat_of(ts[i])[k]);
        }
        assert(c =~= flat_of(ts[i]));
        lemma_flat_roundtrip(ts[i]);
    }
    assert(unflatten_spec(f) =~= ts);
}

/// Each field packed by `morph_from_class` is read back by its accessor when
/// it fits its bit width.
pub proof fn lemma_morph_fields(class: u8, gender: u8, number: u8, person: u8, tense: u8)
    requires
        class < 8,
        gender < 2,
        number < 2,
        tense < 8,
        person < 8,
    ensures
        class_of(morph_word(class, gender, number, person, tense)) == class,
        gender_of(morph_word(class, gender, number, person, tense)) == gender,
        number_of(morph_word(class, gender, number, person, tense)) == number,
        tense_of(morph_word(class, gender, number, person, tense)) == tense,
        person_of(morph_word(class, gender, number, person, tense)) == person,
{
    let c = class as u16;
    let g = gender as u16;
    let n = number as u16;
    let p = person as u16;
    let t = tense as u16;
    assert(c < 8 && g < 2 && n < 2 && t < 8 && p < 8 ==> {
        let m = c | (g << 3u16) | (n << 4u16) | (t << 5u16) | (p << 8u16);
        &&& m % 8 == c
        &&& (m / 8) % 2 == g
        &&& (m / 16) % 2 == n
        &&& (m / 32) % 8 == t
        &&& (m / 256) % 8 == p
    }) by (bit_vector);
}

/// The text of a punctuation code.
pub open spec fn punct_text(p: u8) -> Seq<char> {
    if p == 1 { seq!['.'] }
    else if p == 2 { seq![','] }
    else if p == 3 { seq![';'] }
    else if p == 4 { seq![':'] }
    else if p == 5 { seq!['\u{2014}'] }
    else if p == 6 { seq!['.', '.', '.'] }
    else if p == 7 { seq!['?'] }
    else if p == 8 { seq!['!'] }
    else { Seq::empty() }
}

/// The text after appending one token to `out`.
///
/// Punctuation is glued to the text: its symbol, or, for an unknown code, the
/// lexicon form of a non-zero root. Any other token is separated by one space
/// (unless the text is empty or already ends in a space) and written as its
/// lexicon form, or as `[id]` when no form has that id.
pub open spec fn decompile_step(out: Seq<char>, t: Token7, lex: LexSeq) -> Seq<char> {
    if class_of(t.morph) == CLASS_PONTUACAO {
        let ch = punct_text(t.punct);
        if ch.len() == 0 && t.lex != 0 {
            match first_form_with_id(lex, t.lex) {
                Some(f) => out + f,
                None => out,
            }
        } else {
            out + ch
        }
    } else {
        let out1 = if out.len() > 0 && out.last() != ' ' { out.push(' ') } else { out };
        match first_form_with_id(lex, t.lex) {
            Some(f) => out1 + f,
            None => out1.push('\x5B') + decimal(t.lex as nat) + seq!['\x5D'],
        }
    }
}

/// The text of a token sequence.
pub open spec fn decompile_spec(ts: Seq<Token7>, lex: LexSeq) -> Seq<char>
    decreases ts.len(),
{
    if ts.len() == 0 {
        Seq::empty()
    } else {
        decompile_step(decompile_spec(ts.drop_last(), lex), ts.last(), lex)
    }
}

pub(crate) fn push_punct(out: &mut String, p: u8)
    ensures
        final(out)@ == old(out)@ + punct_text(p),
{
    match p {
        1 => push_char(out, '.'),
        2 => push_char(out, ','),
        3 => push_char(out, ';'),
        4 => push_char(out, ':'),
        5 => push_char(out, '\u{2014}'),
        6 => {
            push_char(out, '.');
            push_char(out, '.');
            push_char(out, '.');
        },
        7 => push_char(out, '?'),
        8 => push_char(out, '!'),
        _ => {},
    }
    assert(final(out)@ =~= old(out)@ + punct_text(p));
}

pub(crate) fn ends_with_space(s: &String) -> (b: bool)
    ensures
        b == (s@.len() > 0 && s@.last() == ' '),
{
    let mut last: Option<char> = None;
    for c in it: s.as_str().chars()
        invariant
            it.seq() == s@,
            last == (if it.index() == 0 { None } else { Some(s@[it.index() - 1]) }),
    {
        last = Some(c);
    }
    match last {
        Some(c) => c == ' ',
        None => false,
    }
}

/// Turns a token sequence back into text using the lexicon's forms.
pub fn decompile_tokens(tokens: &[Token7], lexicon: &Lexicon) -> (out: String)
    ensures
        out@ == decompile_spec(tokens@, lexicon@),
{
    let mut out = String::new();
    let n = tokens.len();
    let mut i: usize = 0;
    assert(tokens@.take(0) =~= Seq::<Token7>::empty());
    while i < n
        invariant
            n == tokens@.len(),
            i <= n,
            out@ == decompile_spec(tokens@.take(i as int), lexicon@),
        decreases n - i,
    {
        let t = tokens[i];
        assert(tokens@.take(i + 1).drop_last() =~= tokens@.take(i as int));
        if t.morph_class() == CLASS_PONTUACAO {
            if t.punct == 0 || t.punct > 8 {
                if t.lex != 0 {
                    if let Some(form) = lexicon.form_with_id(t.lex) {
                        push_str(&mut out, form.as_str());
                    }
                }
            } else {
                push_punct(&mut out, t.punct);
            }
        } else {
            if !out.as_str().is_empty() && !ends_with_space(&out) {
                push_char(&mut out, ' ');
            }
            match lexicon.form_with_id(t.lex) {
                Some(form) => push_str(&mut out, form.as_str()),
                None => {
                    push_char(&mut out, '\x5B');
                    push_decimal(&mut out, t.lex as u64);
                    push_char(&mut out, '\x5D');
                },
            }
        }
        i += 1;
    }
    assert(tokens@.take(n as int) =~= tokens@);
    out
}

} // verus!
