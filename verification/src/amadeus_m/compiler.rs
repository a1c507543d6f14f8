//! The text compiler: words to `Token7` streams through the lexicon, unknown
//! words given a class from their ending, and token streams back to text.
use std::collections::HashMap;
use vstd::prelude::*;
use crate::amadeus_m::lexicon::{
    Lexicon, LexSeq, LexValue, lookup, insert_spec, first_form_with_id, index_of_form, distinct_forms, lemma_lookup_push,
};
use crate::amadeus_m::token7::{
    Token7, spec_token, class_of, gender_of, number_of, person_of, tense_of, morph_word, morph_from_class, punct_text,
    push_punct,
    ends_with_space, CLASS_SUBSTANTIVO, CLASS_VERBO, CLASS_ADJETIVO, CLASS_ARTIGO,
    CLASS_PREPOSICAO, CLASS_PONTUACAO, CLASS_OUTRO,
};
use crate::parse::{
    lines_spec, trim_spec, fields4, parse_unsigned_spec, lines_of, trim, split_fields4,
    parse_unsigned,
};
use crate::text::{
    chars_of, chars_end_with, decimal, ends_with, push_char, push_decimal, push_str, str_eq,
    string_of,
};
use crate::unicode::{
    alphabetic, is_alphabetic, is_whitespace, lower_case, to_lower, to_upper, upper_case,
    white_space,
};

verus! {

broadcast use vstd::std_specs::hash::group_hash_axioms;

// ───────────────────────── word classes and codes ─────────────────────────

/// The class of a part-of-speech tag, given in upper case.
pub open spec fn pos_class_spec(u: Seq<char>) -> u8 {
    if u == "ART"@ || u == "ARTIGO"@ {
        CLASS_ARTIGO
    } else if u == "SUBST"@ || u == "SUBSTANTIVO"@ {
        CLASS_SUBSTANTIVO
    } else if u == "ADJ"@ || u == "ADJETIVO"@ {
        CLASS_ADJETIVO
    } else if u == "VERB"@ || u == "VERBO"@ {
        CLASS_VERBO
    } else if u == "PREP"@ || u == "PREPOSICAO"@ {
        CLASS_PREPOSICAO
    } else {
        CLASS_OUTRO
    }
}

/// The class of a part-of-speech tag (any case); unknown tags are "other".
pub fn pos_to_class(s: &str) -> (c: u8)
    ensures
        c == pos_class_spec(upper_case(s@)),
{
    let u = to_upper(s);
    let u = u.as_str();
    if str_eq(u, "ART") || str_eq(u, "ARTIGO") {
        CLASS_ARTIGO
    } else if str_eq(u, "SUBST") || str_eq(u, "SUBSTANTIVO") {
        CLASS_SUBSTANTIVO
    } else if str_eq(u, "ADJ") || str_eq(u, "ADJETIVO") {
        CLASS_ADJETIVO
    } else if str_eq(u, "VERB") || str_eq(u, "VERBO") {
        CLASS_VERBO
    } else if str_eq(u, "PREP") || str_eq(u, "PREPOSICAO") {
        CLASS_PREPOSICAO
    } else {
        CLASS_OUTRO
    }
}

/// The punctuation code of a token's text (0 when it is no punctuation).
pub open spec fn punct_code_spec(s: Seq<char>) -> u8 {
    if s == "."@ {
        1
    } else if s == ","@ {
        2
    } else if s == ";"@ {
        3
    } else if s == ":"@ {
        4
    } else if s == "\u{2014}"@ || s == "-"@ {
        5
    } else if s == "..."@ {
        6
    } else if s == "?"@ {
        7
    } else if s == "!"@ {
        8
    } else if s == "("@ {
        9
    } else if s == ")"@ {
        10
    } else {
        0
    }
}

pub fn punct_from_str(s: &str) -> (p: u8)
    ensures
        p == punct_code_spec(s@),
{
    if str_eq(s, ".") {
        1
    } else if str_eq(s, ",") {
        2
    } else if str_eq(s, ";") {
        3
    } else if str_eq(s, ":") {
        4
    } else if str_eq(s, "\u{2014}") || str_eq(s, "-") {
        5
    } else if str_eq(s, "...") {
        6
    } else if str_eq(s, "?") {
        7
    } else if str_eq(s, "!") {
        8
    } else if str_eq(s, "(") {
        9
    } else if str_eq(s, ")") {
        10
    } else {
        0
    }
}

/// The register of a word: punctuation is neutral (0); otherwise the
/// multiplicative hash of its id, modulo 2^32, taken modulo 3.
pub open spec fn word_style_spec(id: u32, class: u8) -> u16 {
    if class == CLASS_PONTUACAO {
        0
    } else {
        (((id as nat * 2654435761nat) % 0x1_0000_0000nat) % 3) as u16
    }
}

pub fn word_style(id: u32, class: u8) -> (s: u16)
    ensures
        s == word_style_spec(id, class),
{
    if class == CLASS_PONTUACAO {
        return 0;
    }
    match id.wrapping_mul(2654435761u32) % 3 {
        0 => 0,
        1 => 1,
        _ => 2,
    }
}

/// The morphology word that a hexadecimal feature mask (with or without
/// `0x`; 0 when it does not parse) gives for a class: gender from bit 5,
/// number from bit 7, person from bits 8-9, tense from bits 10-12.
pub open spec fn bits_morph(bits_str: Seq<char>, class: u8) -> u16 {
    let t = trim_spec(bits_str);
    let h = if t.len() >= 2 && t[0] == '0' && t[1] == 'x' { t.skip(2) } else { t };
    let v: nat = match parse_unsigned_spec(h, 16, u128::MAX as nat) {
        Some(v) => v,
        None => 0,
    };
    morph_word(
        class,
        ((v / 32) % 2) as u8,
        ((v / 128) % 2) as u8,
        ((v / 256) % 4) as u8,
        ((v / 1024) % 8) as u8,
    )
}

pub fn old_bits_to_morph(bits_str: &str, class: u8) -> (m: u16)
    ensures
        m == bits_morph(bits_str@, class),
{
    let cs = chars_of(bits_str);
    let t = trim(cs.as_slice());
    let h: Vec<char> = if t.len() >= 2 && t[0] == '0' && t[1] == 'x' {
        let mut h: Vec<char> = Vec::new();
        let mut k: usize = 2;
        while k < t.len()
            invariant
                2 <= k <= t@.len(),
                h@ == t@.subrange(2, k as int),
            decreases t.len() - k,
        {
            h.push(t[k]);
            k += 1;
            assert(h@ =~= t@.subrange(2, k as int));
        }
        h
    } else {
        t.clone()
    };
    assert(h@ == (if t@.len() >= 2 && t@[0] == '0' && t@[1] == 'x' { t@.skip(2) } else { t@ }));
    let bits: u128 = match parse_unsigned(h.as_slice(), 16, u128::MAX) {
        Some(v) => v,
        None => 0,
    };
    let gender: u8 = if bits & 0x20 != 0 { 1 } else { 0 };
    let number: u8 = if bits & 0x80 != 0 { 1 } else { 0 };
    let person: u8 = ((bits >> 8u32) & 0x03) as u8;
    let tense: u8 = ((bits >> 10u32) & 0x07) as u8;
    assert(((bits & 0x20) != 0) == ((bits / 32) % 2 == 1) && (bits / 32) % 2 < 2) by (bit_vector);
    assert(((bits & 0x80) != 0) == ((bits / 128) % 2 == 1) && (bits / 128) % 2 < 2) by (bit_vector);
    assert(((bits >> 8u32) & 0x03) == (bits / 256) % 4) by (bit_vector);
    assert(((bits >> 10u32) & 0x07) == (bits / 1024) % 8) by (bit_vector);
    morph_from_class(class, gender, number, person, tense)
}

// ───────────────────────── the compiler's state ─────────────────────────

/// What compiling changes: the lexicon, the root table and the next free id.
pub type CompileState = (LexSeq, Seq<Seq<char>>, u32);

pub open spec fn views(v: Seq<String>) -> Seq<Seq<char>> {
    v.map_values(|s: String| s@)
}

/// The root table with `s` stored at `id`, grown with empty roots as needed.
pub open spec fn set_root(roots: Seq<Seq<char>>, id: int, s: Seq<char>) -> Seq<Seq<char>> {
    if id < roots.len() {
        roots.update(id, s)
    } else {
        (roots + Seq::new((id - roots.len()) as nat, |_i: int| Seq::<char>::empty())).push(s)
    }
}

/// Stores `s` in the root table at `id`, growing the table with empty roots.
pub(crate) fn store_root(roots: &mut Vec<String>, id: u32, s: String)
    requires
        id < u32::MAX,
    ensures
        views(final(roots)@) == set_root(views(old(roots)@), id as int, s@),
{
    let ghost old_roots = views(roots@);
    let idx = id as usize;
    if idx < roots.len() {
        roots.set(idx, s);
        assert(views(roots@) =~= old_roots.update(id as int, s@));
    } else {
        let start = roots.len();
        while roots.len() < idx
            invariant
                start <= roots@.len() <= idx,
                start == old_roots.len(),
                views(roots@) == old_roots + Seq::new(
                    (roots@.len() - start) as nat,
                    |_i: int| Seq::<char>::empty(),
                ),
            decreases idx - roots.len(),
        {
            let ghost before = views(roots@);
            let e = String::new();
            assert(e@ == Seq::<char>::empty());
            roots.push(e);
            assert(views(roots@) =~= before.push(Seq::<char>::empty()));
            assert(views(roots@) =~= old_roots + Seq::new(
                (roots@.len() - start) as nat,
                |_i: int| Seq::<char>::empty(),
            ));
        }
        roots.push(s);
        assert(views(roots@) =~= set_root(old_roots, id as int, s@));
    }
}

/// Whether a line of a root file names the largest id.
fn line_names_max_id(line: &[char]) -> (b: bool)
    ensures
        b == (root_line(line@) matches Some(r) && r.0 == u32::MAX),
{
    let l = trim(line);
    if l.len() == 0 || l[0] == '#' {
        return false;
    }
    match split_fields4(l.as_slice()) {
        None => false,
        Some((a, _, _, _)) => {
            let ta = trim(a.as_slice());
            match parse_unsigned(ta.as_slice(), 10, u32::MAX as u128) {
                Some(v) => v == u32::MAX as u128,
                None => false,
            }
        },
    }
}

/// The value of a graph entry, 0 where there is none.
pub open spec fn graph_get(g: Map<u32, u32>, k: u32) -> u32 {
    if g.contains_key(k) {
        g[k]
    } else {
        0
    }
}

/// The class given to an unknown word (in lower case) from its ending.
pub open spec fn infer_class(w: Seq<char>) -> u8 {
    if ends_with(w, "a"@) || ends_with(w, "\u{e7}\u{e3}o"@) || ends_with(w, "dade"@) {
        CLASS_SUBSTANTIVO
    } else if ends_with(w, "o"@) || ends_with(w, "or"@) {
        CLASS_SUBSTANTIVO
    } else if ends_with(w, "mente"@) {
        CLASS_OUTRO
    } else {
        CLASS_SUBSTANTIVO
    }
}

/// The entry recorded for an unknown word (in lower case) given id `id`.
pub open spec fn unknown_entry(w: Seq<char>, id: u32) -> LexValue {
    let class = infer_class(w);
    let gender: u8 = if ends_with(w, "a"@) { 1 } else { 0 };
    (id, morph_word(class, gender, 0, 0, 0), class, word_style_spec(id, class))
}

/// Recording an unknown word: its lower-case form takes the next id.
pub open spec fn infer_spec(st: CompileState, w: Seq<char>) -> (CompileState, LexValue) {
    let lower = lower_case(w);
    let v = unknown_entry(lower, st.2);
    ((insert_spec(st.0, lower, v), set_root(st.1, st.2 as int, lower), (st.2 + 1) as u32), v)
}

/// The token of one word, and the state after it.
pub open spec fn compile_word(st: CompileState, g: Map<u32, u32>, w: Seq<char>) -> (CompileState, Token7) {
    match lookup(st.0, lower_case(w)) {
        Some(v) => {
            let p: u8 = if v.2 == CLASS_PONTUACAO { punct_code_spec(w) } else { 0 };
            (st, Token7 { punct: p, graph: graph_get(g, v.0), style: v.3, ..spec_token(v.0, v.1) })
        },
        None => {
            let (st2, v) = infer_spec(st, w);
            (st2, Token7 { graph: graph_get(g, v.0), style: v.3, ..spec_token(v.0, v.1) })
        },
    }
}

/// The tokens of a word sequence, and the state after them.
pub open spec fn compile_words(st: CompileState, g: Map<u32, u32>, ws: Seq<Seq<char>>) -> (CompileState, Seq<Token7>)
    decreases ws.len(),
{
    if ws.len() == 0 {
        (st, Seq::empty())
    } else {
        let (st1, ts) = compile_words(st, g, ws.drop_last());
        let (st2, t) = compile_word(st1, g, ws.last());
        (st2, ts.push(t))
    }
}

/// The number of words that compiling `ws` learns: those whose lower case
/// the lexicon lacks when their turn comes.
pub open spec fn learned_count(st: CompileState, g: Map<u32, u32>, ws: Seq<Seq<char>>) -> nat
    decreases ws.len(),
{
    if ws.len() == 0 {
        0
    } else {
        let stm = compile_words(st, g, ws.drop_last()).0;
        learned_count(st, g, ws.drop_last()) + if lookup(stm.0, lower_case(ws.last())) is None {
            1nat
        } else {
            0nat
        }
    }
}

/// A prefix of the words learns no more than all of them.
proof fn lemma_learned_prefix(st: CompileState, g: Map<u32, u32>, ws: Seq<Seq<char>>, i: int)
    requires
        0 <= i <= ws.len(),
    ensures
        learned_count(st, g, ws.take(i)) <= learned_count(st, g, ws),
    decreases ws.len(),
{
    if i < ws.len() {
        assert(ws.drop_last().take(i) =~= ws.take(i));
        lemma_learned_prefix(st, g, ws.drop_last(), i);
    } else {
        assert(ws.take(i) =~= ws);
    }
}

/// While the ids last, each word learned takes the next id.
proof fn lemma_learned_ids(st: CompileState, g: Map<u32, u32>, ws: Seq<Seq<char>>)
    requires
        st.2 + learned_count(st, g, ws) <= u32::MAX,
    ensures
        compile_words(st, g, ws).0.2 == st.2 + learned_count(st, g, ws),
    decreases ws.len(),
{
    if ws.len() > 0 {
        lemma_learned_ids(st, g, ws.drop_last());
    }
}

/// The words found so far and the word in progress.
pub open spec fn tokenize_state(s: Seq<char>) -> (Seq<Seq<char>>, Seq<char>)
    decreases s.len(),
{
    if s.len() == 0 {
        (Seq::empty(), Seq::empty())
    } else {
        let (ws, cur) = tokenize_state(s.drop_last());
        let c = s.last();
        if alphabetic(c) || c == '\'' {
            (ws, cur.push(c))
        } else {
            let ws1 = if cur.len() > 0 { ws.push(cur) } else { ws };
            (if !white_space(c) { ws1.push(seq![c]) } else { ws1 }, Seq::empty())
        }
    }
}

/// The words of a text: runs of letters and apostrophes, and every other
/// character that is not white space on its own.
pub open spec fn tokenize_spec(s: Seq<char>) -> Seq<Seq<char>> {
    let (ws, cur) = tokenize_state(s);
    if cur.len() > 0 {
        ws.push(cur)
    } else {
        ws
    }
}

proof fn lemma_tokenize_state_len(s: Seq<char>)
    ensures
        tokenize_state(s).0.len() + tokenize_state(s).1.len() <= s.len(),
    decreases s.len(),
{
    if s.len() > 0 {
        lemma_tokenize_state_len(s.drop_last());
    }
}

/// A text has at most as many words as characters.
pub proof fn lemma_tokenize_len(s: Seq<char>)
    ensures
        tokenize_spec(s).len() <= s.len(),
{
    lemma_tokenize_state_len(s);
}

/// The lexicon of a new compiler: each punctuation mark as an entry of id 0.
pub open spec fn punct_forms() -> Seq<Seq<char>> {
    seq![
        ","@, "."@, "!"@, "?"@, ";"@, ":"@, "\u{2014}"@, "-"@, "\""@, "("@, ")"@, "..."@,
    ]
}

pub open spec fn insert_forms(s: LexSeq, forms: Seq<Seq<char>>, v: LexValue) -> LexSeq
    decreases forms.len(),
{
    if forms.len() == 0 {
        s
    } else {
        insert_spec(insert_forms(s, forms.drop_last(), v), forms.last(), v)
    }
}

pub open spec fn punct_entry() -> LexValue {
    (0, morph_word(CLASS_PONTUACAO, 0, 0, 0, 0), CLASS_PONTUACAO, 0)
}

// ───────────────────────── root and exception files ─────────────────────────

/// The id, root, class and morphology a line of a root file gives, if it
/// is neither blank, a comment nor short of fields.
pub open spec fn root_line(line: Seq<char>) -> Option<(u32, Seq<char>, u8, u16)> {
    let l = trim_spec(line);
    if l.len() == 0 || l[0] == '#' {
        None
    } else {
        match fields4(l) {
            Some((a, b, c, d)) => {
                let id: u32 = match parse_unsigned_spec(trim_spec(a), 10, u32::MAX as nat) {
                    Some(v) => v as u32,
                    None => 0,
                };
                let class = pos_class_spec(upper_case(trim_spec(c)));
                Some((id, trim_spec(b), class, bits_morph(trim_spec(d), class)))
            },
            None => None,
        }
    }
}

/// The state after loading one line of a root file.
pub open spec fn load_root_line(st: CompileState, line: Seq<char>) -> CompileState {
    match root_line(line) {
        None => st,
        Some((id, raiz, class, morph)) => {
            let lex = if lookup(st.0, raiz) is Some {
                st.0
            } else {
                insert_spec(st.0, raiz, (id, morph, class, word_style_spec(id, class)))
            };
            (lex, set_root(st.1, id as int, raiz), if id >= st.2 { (id + 1) as u32 } else { st.2 })
        },
    }
}

pub open spec fn load_root_lines(st: CompileState, lines: Seq<Seq<char>>) -> CompileState
    decreases lines.len(),
{
    if lines.len() == 0 {
        st
    } else {
        load_root_line(load_root_lines(st, lines.drop_last()), lines.last())
    }
}

/// No line of a root file names the largest id (whose successor does not
/// fit).
pub open spec fn root_ids_fit(lines: Seq<Seq<char>>) -> bool {
    forall|i: int|
        0 <= i < lines.len() ==> (#[trigger] root_line(lines[i]) matches Some(r) ==> r.0 < u32::MAX)
}

/// The form and entry a line of the exception file gives.
pub open spec fn exception_line(line: Seq<char>) -> Option<(Seq<char>, LexValue)> {
    let l = trim_spec(line);
    if l.len() == 0 || l[0] == '#' {
        None
    } else {
        match fields4(l) {
            Some((a, b, c, d)) => {
                let id: u32 = match parse_unsigned_spec(trim_spec(c), 10, u32::MAX as nat) {
                    Some(v) => v as u32,
                    None => 0,
                };
                Some(
                    (
                        trim_spec(b),
                        (
                            id,
                            bits_morph(trim_spec(d), CLASS_OUTRO),
                            CLASS_OUTRO,
                            word_style_spec(id, CLASS_OUTRO),
                        ),
                    ),
                )
            },
            None => None,
        }
    }
}

pub open spec fn load_exception_lines(lex: LexSeq, lines: Seq<Seq<char>>) -> LexSeq
    decreases lines.len(),
{
    if lines.len() == 0 {
        lex
    } else {
        let l = load_exception_lines(lex, lines.drop_last());
        match exception_line(lines.last()) {
            Some((f, v)) => insert_spec(l, f, v),
            None => l,
        }
    }
}

// ───────────────────────── decompiling ─────────────────────────

/// The text a token adds to `out`: punctuation marks are written as they
/// are, words are separated by a space and written by the first lexicon form
/// with their id, else by their root, else as `[id]`.
pub open spec fn decompile_step(out: Seq<char>, t: Token7, lex: LexSeq, roots: Seq<Seq<char>>) -> Seq<char> {
    if class_of(t.morph) == CLASS_PONTUACAO {
        let ch = punct_text(t.punct);
        if ch.len() == 0 && t.lex != 0 {
            match first_form_with_id(lex, t.lex) {
                Some(f) => out + f,
                None => out,
            }
        } else {
            out + ch
        }
    } else {
        let out1 = if out.len() > 0 && out.last() != ' ' { out.push(' ') } else { out };
        match first_form_with_id(lex, t.lex) {
            Some(f) => out1 + f,
            None => if t.lex < roots.len() && roots[t.lex as int].len() > 0 {
                out1 + roots[t.lex as int]
            } else {
                out1.push('\x5B') + decimal(t.lex as nat) + seq!['\x5D']
            },
        }
    }
}

pub open spec fn decompile_spec(ts: Seq<Token7>, lex: LexSeq, roots: Seq<Seq<char>>) -> Seq<char>
    decreases ts.len(),
{
    if ts.len() == 0 {
        Seq::empty()
    } else {
        decompile_step(decompile_spec(ts.drop_last(), lex, roots), ts.last(), lex, roots)
    }
}

// ───────────────────────── the compiler ─────────────────────────

/// The text compiler: a lexicon of forms, the table of roots by id, the next
/// free id, and each id's semantic signature.
pub struct Compiler {
    pub lexicon: Lexicon,
    pub roots: Vec<String>,
    pub next_id: u32,
    pub graph: HashMap<u32, u32>,
    pub base_path: String,
}

fn graph_lookup(g: &HashMap<u32, u32>, k: u32) -> (v: u32)
    ensures
        v == graph_get(g@, k),
{
    match g.get(&k) {
        Some(v) => *v,
        None => 0,
    }
}

impl Compiler {
    /// The part of the state that compiling changes.
    pub open spec fn state(&self) -> CompileState {
        (self.lexicon@, views(self.roots@), self.next_id)
    }

    /// A compiler for the tree under `underworld_path`: the root files are
    /// read from `<underworld_path>/lingua/raizes` (see `load_roots_text`);
    /// the lexicon starts with the punctuation marks, the root table with
    /// one empty root, and the next id is 1.
    pub fn new(underworld_path: &str) -> (c: Self)
        ensures
            c.lexicon.wf(),
            c.lexicon@ == insert_forms(Seq::empty(), punct_forms(), punct_entry()),
            views(c.roots@) == seq![Seq::<char>::empty()],
            c.next_id == 1,
            c.graph@ == Map::<u32, u32>::empty(),
            c.base_path@ == underworld_path@ + "/lingua/raizes"@,
    {
        let mut base = String::from_str(underworld_path);
        base.append("/lingua/raizes");
        let mut roots: Vec<String> = Vec::new();
        roots.push(String::new());
        let mut lexicon = Lexicon::new();
        let marks: Vec<&str> = vec![",", ".", "!", "?", ";", ":", "\u{2014}", "-", "\"", "(", ")", "..."];
        let morph = morph_from_class(CLASS_PONTUACAO, 0, 0, 0, 0);
        let v: LexValue = (0, morph, CLASS_PONTUACAO, 0);
        let ghost forms = marks@.map_values(|s: &str| s@);
        assert(forms =~= punct_forms());
        let mut i: usize = 0;
        assert(forms.take(0) =~= Seq::<Seq<char>>::empty());
        while i < marks.len()
            invariant
                i <= marks@.len(),
                forms == marks@.map_values(|s: &str| s@),
                v == punct_entry(),
                lexicon.wf(),
                lexicon@ == insert_forms(Seq::empty(), forms.take(i as int), v),
            decreases marks.len() - i,
        {
            assert(forms.take(i + 1).drop_last() =~= forms.take(i as int));
            lexicon.insert(String::from_str(marks[i]), v);
            i += 1;
        }
        assert(forms.take(i as int) =~= forms);
        let c = Compiler { lexicon, roots, next_id: 1, graph: HashMap::new(), base_path: base };
        assert(views(c.roots@) =~= seq![Seq::<char>::empty()]);
        c
    }

    /// Stores `s` as the root of `id`, growing the table with empty roots.
    fn put_root(&mut self, id: u32, s: String)
        requires
            id < u32::MAX,
        ensures
            views(final(self).roots@) == set_root(views(old(self).roots@), id as int, s@),
            final(self).lexicon == old(self).lexicon,
            final(self).next_id == old(self).next_id,
            final(self).graph == old(self).graph,
            final(self).base_path == old(self).base_path,
    {
        store_root(&mut self.roots, id, s);
    }

    /// Records an unknown word under the next id, with the class its ending
    /// suggests.
    fn infer_unknown(&mut self, word: &str) -> (v: LexValue)
        requires
            old(self).lexicon.wf(),
            old(self).next_id < u32::MAX,
        ensures
            final(self).lexicon.wf(),
            (final(self).state(), v) == infer_spec(old(self).state(), word@),
            final(self).graph == old(self).graph,
            final(self).base_path == old(self).base_path,
    {
        let lower = to_lower(word);
        let lc = chars_of(lower.as_str());
        let class = if chars_end_with(lc.as_slice(), "a") || chars_end_with(lc.as_slice(), "\u{e7}\u{e3}o")
            || chars_end_with(lc.as_slice(), "dade") {
            CLASS_SUBSTANTIVO
        } else if chars_end_with(lc.as_slice(), "o") || chars_end_with(lc.as_slice(), "or") {
            CLASS_SUBSTANTIVO
        } else if chars_end_with(lc.as_slice(), "mente") {
            CLASS_OUTRO
        } else {
            CLASS_SUBSTANTIVO
        };
        let gender: u8 = if chars_end_with(lc.as_slice(), "a") { 1 } else { 0 };
        let morph = morph_from_class(class, gender, 0, 0, 0);
        let id = self.next_id;
        self.next_id = id + 1;
        let style = word_style(id, class);
        self.put_root(id, lower.clone());
        let v: LexValue = (id, morph, class, style);
        self.lexicon.insert(lower, v);
        v
    }

    /// The words of a text (see `tokenize_spec`).
    pub fn tokenize(&self, text: &str) -> (words: Vec<String>)
        ensures
            views(words@) == tokenize_spec(text@),
    {
        let cs = chars_of(text);
        let mut words: Vec<String> = Vec::new();
        let mut current: Vec<char> = Vec::new();
        let n = cs.len();
        let mut i: usize = 0;
        while i < n
            invariant
                n == cs@.len(),
                cs@ == text@,
                i <= n,
                views(words@) == tokenize_state(text@.take(i as int)).0,
                current@ == tokenize_state(text@.take(i as int)).1,
            decreases n - i,
        {
            assert(text@.take(i + 1).drop_last() =~= text@.take(i as int));
            let ch = cs[i];
            if is_alphabetic(ch) || ch == '\'' {
                current.push(ch);
            } else {
                if current.len() > 0 {
                    let w = string_of(current.as_slice());
                    words.push(w);
                    current = Vec::new();
                }
                if !is_whitespace(ch) {
                    let mut one: Vec<char> = Vec::new();
                    one.push(ch);
                    let w = string_of(one.as_slice());
                    assert(w@ =~= seq![ch]);
                    words.push(w);
                }
                current = Vec::new();
            }
            i += 1;
            assert(views(words@) =~= tokenize_state(text@.take(i as int)).0);
        }
        assert(text@.take(n as int) =~= text@);
        if current.len() > 0 {
            let w = string_of(current.as_slice());
            words.push(w);
        }
        assert(views(words@) =~= tokenize_spec(text@));
        words
    }

    /// Compiles text into tokens; unknown words are added to the lexicon and
    /// the root table under new ids.
    pub fn compile(&mut self, text: &str) -> (tokens: Vec<Token7>)
        requires
            old(self).lexicon.wf(),
            old(self).next_id + learned_count(old(self).state(), old(self).graph@, tokenize_spec(text@)) <= u32::MAX,
        ensures
            final(self).lexicon.wf(),
            (final(self).state(), tokens@) == compile_words(old(self).state(), old(self).graph@, tokenize_spec(text@)),
            final(self).graph == old(self).graph,
            final(self).base_path == old(self).base_path,
    {
        let words = self.tokenize(text);
        let ghost ws = views(words@);
        let ghost g = self.graph@;
        let ghost st0 = self.state();
        let mut tokens: Vec<Token7> = Vec::new();
        let mut i: usize = 0;
        assert(ws.take(0) =~= Seq::<Seq<char>>::empty());
        while i < words.len()
            invariant
                ws == views(words@),
                i <= ws.len(),
                self.lexicon.wf(),
                self.graph == old(self).graph,
                self.graph@ == g,
                self.base_path == old(self).base_path,
                st0 == old(self).state(),
                st0.2 + learned_count(st0, g, ws) <= u32::MAX,
                self.next_id == st0.2 + learned_count(st0, g, ws.take(i as int)),
                (self.state(), tokens@) == compile_words(st0, g, ws.take(i as int)),
            decreases words.len() - i,
        {
            assert(ws.take(i + 1).drop_last() =~= ws.take(i as int));
            assert(ws.take(i + 1).last() == words@[i as int]@);
            proof {
                lemma_learned_prefix(st0, g, ws, i + 1);
                lemma_learned_ids(st0, g, ws.take(i + 1));
            }
            let w = &words[i];
            let lower = to_lower(w.as_str());
            match self.lexicon.get(&lower) {
                Some(v) => {
                    let (id, morph, class, style) = v;
                    let punct = if class == CLASS_PONTUACAO { punct_from_str(w.as_str()) } else { 0 };
                    let gv = graph_lookup(&self.graph, id);
                    tokens.push(Token7::new(id, morph).with_punct(punct).with_graph(gv).with_style(style));
                },
                None => {
                    let (id, morph, _class, style) = self.infer_unknown(w.as_str());
                    let gv = graph_lookup(&self.graph, id);
                    tokens.push(Token7::new(id, morph).with_graph(gv).with_style(style));
                },
            }
            i += 1;
        }
        assert(ws.take(i as int) =~= ws);
        tokens
    }

    /// The number of words that compiling `text` would learn: those whose
    /// lower case is neither in the lexicon nor among the words learned
    /// before them (each takes the next id).
    pub fn new_word_count(&self, text: &str) -> (n: usize)
        requires
            self.lexicon.wf(),
        ensures
            n as nat == learned_count(self.state(), self.graph@, tokenize_spec(text@)),
    {
        let words = self.tokenize(text);
        let ghost ws = views(words@);
        let ghost g = self.graph@;
        let ghost st0 = self.state();
        let mut fresh = Lexicon::new();
        let mut n: usize = 0;
        let mut i: usize = 0;
        assert(ws.take(0) =~= Seq::<Seq<char>>::empty());
        while i < words.len()
            invariant
                ws == views(words@),
                i <= ws.len(),
                g == self.graph@,
                st0 == self.state(),
                distinct_forms(st0.0),
                fresh.wf(),
                n <= i,
                n as nat == learned_count(st0, g, ws.take(i as int)),
                forall|q: Seq<char>|
                    #[trigger] lookup(compile_words(st0, g, ws.take(i as int)).0.0, q) is Some <==> (lookup(
                        st0.0,
                        q,
                    ) is Some || lookup(fresh@, q) is Some),
            decreases words.len() - i,
        {
            let ghost stm = compile_words(st0, g, ws.take(i as int)).0;
            let ghost fresh0 = fresh@;
            assert(ws.take(i + 1).drop_last() =~= ws.take(i as int));
            assert(ws.take(i + 1).last() == words@[i as int]@);
            proof {
                lemma_compile_words_grow(st0, g, ws.take(i as int));
            }
            let lower = to_lower(words[i].as_str());
            let known = self.lexicon.get(&lower).is_some() || fresh.get(&lower).is_some();
            proof {
                assert(lookup(stm.0, lower@) is Some == known);
            }
            if !known {
                fresh.insert(lower, (0, 0, 0, 0));
                n += 1;
                proof {
                    assert(index_of_form(fresh0, lower@) is None);
                }
            }
            proof {
                assert forall|q: Seq<char>|
                    #[trigger] lookup(compile_words(st0, g, ws.take(i + 1)).0.0, q) is Some <==> (lookup(
                        st0.0,
                        q,
                    ) is Some || lookup(fresh@, q) is Some) by {
                    lemma_compile_word_lookups(stm, g, words@[i as int]@, q);
                    if !known {
                        lemma_lookup_push(fresh0, lower@, (0u32, 0u16, 0u8, 0u16), q);
                    }
                }
            }
            i += 1;
        }
        assert(ws.take(i as int) =~= ws);
        n
    }

    /// The text of a token sequence (see `decompile_step`).
    pub fn decompile(&self, tokens: &[Token7]) -> (out: String)
        ensures
            out@ == decompile_spec(tokens@, self.lexicon@, views(self.roots@)),
    {
        let ghost roots = views(self.roots@);
        let mut out = String::new();
        let n = tokens.len();
        let mut i: usize = 0;
        assert(tokens@.take(0) =~= Seq::<Token7>::empty());
        while i < n
            invariant
                n == tokens@.len(),
                i <= n,
                roots == views(self.roots@),
                out@ == decompile_spec(tokens@.take(i as int), self.lexicon@, roots),
            decreases n - i,
        {
            let t = tokens[i];
            assert(tokens@.take(i + 1).drop_last() =~= tokens@.take(i as int));
            if t.morph_class() == CLASS_PONTUACAO {
                if t.punct == 0 || t.punct > 8 {
                    if t.lex != 0 {
                        if let Some(form) = self.lexicon.form_with_id(t.lex) {
                            push_str(&mut out, form.as_str());
                        }
                    }
                } else {
                    push_punct(&mut out, t.punct);
                }
            } else {
                if !out.as_str().is_empty() && !ends_with_space(&out) {
                    push_char(&mut out, ' ');
                }
                match self.lexicon.form_with_id(t.lex) {
                    Some(form) => push_str(&mut out, form.as_str()),
                    None => {
                        let idx = t.lex as usize;
                        if idx < self.roots.len() && !self.roots[idx].as_str().is_empty() {
                            push_str(&mut out, self.roots[idx].as_str());
                        } else {
                            push_char(&mut out, '\x5B');
                            push_decimal(&mut out, t.lex as u64);
                            push_char(&mut out, '\x5D');
                        }
                    },
                }
            }
            i += 1;
        }
        assert(tokens@.take(n as int) =~= tokens@);
        out
    }

    /// Loads the lines of a root file: each gives a root its id, and the
    /// root becomes a lexicon form unless it is one already.
    pub fn load_roots_text(&mut self, content: &str)
        requires
            old(self).lexicon.wf(),
            root_ids_fit(lines_spec(content@)),
        ensures
            final(self).lexicon.wf(),
            final(self).state() == load_root_lines(old(self).state(), lines_spec(content@)),
            final(self).graph == old(self).graph,
            final(self).base_path == old(self).base_path,
    {
        let cs = chars_of(content);
        let lines = lines_of(&cs);
        let ghost ls = lines_spec(content@);
        let ghost st0 = self.state();
        let mut i: usize = 0;
        assert(ls.take(0) =~= Seq::<Seq<char>>::empty());
        while i < lines.len()
            invariant
                ls == lines_spec(content@),
                lines@.len() == ls.len(),
                forall|k: int| 0 <= k < lines@.len() ==> #[trigger] lines@[k]@ == ls[k],
                root_ids_fit(ls),
                i <= ls.len(),
                self.lexicon.wf(),
                self.graph == old(self).graph,
                self.base_path == old(self).base_path,
                st0 == old(self).state(),
                self.state() == load_root_lines(st0, ls.take(i as int)),
            decreases lines.len() - i,
        {
            assert(ls.take(i + 1).drop_last() =~= ls.take(i as int));
            assert(ls.take(i + 1).last() == lines@[i as int]@);
            assert(root_line(ls[i as int]) matches Some(r) ==> r.0 < u32::MAX);
            self.load_root_line(lines[i].as_slice());
            i += 1;
        }
        assert(ls.take(i as int) =~= ls);
    }

    fn load_root_line(&mut self, line: &[char])
        requires
            old(self).lexicon.wf(),
            root_line(line@) matches Some(r) ==> r.0 < u32::MAX,
        ensures
            final(self).lexicon.wf(),
            final(self).state() == load_root_line(old(self).state(), line@),
            final(self).graph == old(self).graph,
            final(self).base_path == old(self).base_path,
    {
        let l = trim(line);
        if l.len() == 0 || l[0] == '#' {
            return;
        }
        let (a, b, c, d) = match split_fields4(l.as_slice()) {
            Some(p) => p,
            None => return,
        };
        let id: u32 = match parse_unsigned(trim(a.as_slice()).as_slice(), 10, 0xffff_ffffu128) {
            Some(v) => v as u32,
            None => 0,
        };
        let raiz = string_of(trim(b.as_slice()).as_slice());
        let class = pos_to_class(string_of(trim(c.as_slice()).as_slice()).as_str());
        let morph = old_bits_to_morph(string_of(trim(d.as_slice()).as_slice()).as_str(), class);
        self.put_root(id, raiz.clone());
        if !self.lexicon.contains_key(&raiz) {
            let style = word_style(id, class);
            self.lexicon.insert(raiz, (id, morph, class, style));
        }
        if id >= self.next_id {
            self.next_id = id + 1;
        }
    }

    /// Loads a root file (see `load_roots_text`) when no line names the
    /// largest id; otherwise leaves the compiler as it is and returns false.
    pub fn try_load_roots_text(&mut self, content: &str) -> (loaded: bool)
        requires
            old(self).lexicon.wf(),
        ensures
            final(self).lexicon.wf(),
            loaded == root_ids_fit(lines_spec(content@)),
            loaded ==> final(self).state() == load_root_lines(old(self).state(), lines_spec(content@)),
            !loaded ==> final(self).state() == old(self).state(),
            final(self).graph == old(self).graph,
            final(self).base_path == old(self).base_path,
    {
        let cs = chars_of(content);
        let lines = lines_of(&cs);
        let ghost ls = lines_spec(content@);
        let mut i: usize = 0;
        while i < lines.len()
            invariant
                cs@ == content@,
                ls == lines_spec(content@),
                lines@.len() == ls.len(),
                forall|k: int| 0 <= k < lines@.len() ==> #[trigger] lines@[k]@ == ls[k],
                i <= ls.len(),
                forall|k: int| 0 <= k < i ==> (#[trigger] root_line(ls[k]) matches Some(r) ==> r.0 < u32::MAX),
                self.lexicon.wf(),
                self.state() == old(self).state(),
                self.graph == old(self).graph,
                self.base_path == old(self).base_path,
            decreases lines.len() - i,
        {
            assert(lines@[i as int]@ == ls[i as int]);
            if line_names_max_id(lines[i].as_slice()) {
                assert(!root_ids_fit(ls));
                return false;
            }
            i += 1;
        }
        self.load_roots_text(content);
        true
    }

    /// Loads the lines of the exception file: each records a form with a
    /// root id, replacing an earlier entry of the form.
    pub fn load_exceptions_text(&mut self, content: &str)
        requires
            old(self).lexicon.wf(),
        ensures
            final(self).lexicon.wf(),
            final(self).lexicon@ == load_exception_lines(old(self).lexicon@, lines_spec(content@)),
            final(self).roots == old(self).roots,
            final(self).next_id == old(self).next_id,
            final(self).graph == old(self).graph,
            final(self).base_path == old(self).base_path,
    {
        let cs = chars_of(content);
        let lines = lines_of(&cs);
        let ghost ls = lines_spec(content@);
        let mut i: usize = 0;
        assert(ls.take(0) =~= Seq::<Seq<char>>::empty());
        while i < lines.len()
            invariant
                ls == lines_spec(content@),
                lines@.len() == ls.len(),
                forall|k: int| 0 <= k < lines@.len() ==> #[trigger] lines@[k]@ == ls[k],
                i <= ls.len(),
                self.lexicon.wf(),
                self.roots == old(self).roots,
                self.next_id == old(self).next_id,
                self.graph == old(self).graph,
                self.base_path == old(self).base_path,
                self.lexicon@ == load_exception_lines(old(self).lexicon@, ls.take(i as int)),
            decreases lines.len() - i,
        {
            assert(ls.take(i + 1).drop_last() =~= ls.take(i as int));
            assert(ls.take(i + 1).last() == lines@[i as int]@);
            let l = trim(lines[i].as_slice());
            if l.len() > 0 && l[0] != '#' {
                if let Some((_a, b, c, d)) = split_fields4(l.as_slice()) {
                    let form = string_of(trim(b.as_slice()).as_slice());
                    let id: u32 = match parse_unsigned(trim(c.as_slice()).as_slice(), 10, 0xffff_ffffu128) {
                        Some(v) => v as u32,
                        None => 0,
                    };
                    let morph = old_bits_to_morph(string_of(trim(d.as_slice()).as_slice()).as_str(), CLASS_OUTRO);
                    let style = word_style(id, CLASS_OUTRO);
                    self.lexicon.insert(form, (id, morph, CLASS_OUTRO, style));
                }
            }
            i += 1;
        }
        assert(ls.take(i as int) =~= ls);
    }
}

proof fn lemma_first_form_push(s: LexSeq, e: (Seq<char>, LexValue), id: u32)
    ensures
        first_form_with_id(s.push(e), id) == match first_form_with_id(s, id) {
            Some(f) => Some(f),
            None => if e.1.0 == id { Some(e.0) } else { None },
        },
    decreases s.len(),
{
    if s.len() > 0 {
        assert(s.push(e)[0] == s[0]);
        assert(s.push(e).drop_first() =~= s.drop_first().push(e));
        lemma_first_form_push(s.drop_first(), e, id);
    } else {
        assert(s.push(e)[0] == e);
        assert(s.push(e).drop_first() =~= Seq::<(Seq<char>, LexValue)>::empty());
        assert(first_form_with_id(s.push(e).drop_first(), id) is None);
    }
}

/// A word the compiler learns decompiles to its lower-case form: when no
/// form of the lexicon is the word's lower case and none has the next id,
/// compiling the word and decompiling its token appends that form (after a
/// space, unless the text is empty or ends in one).
pub proof fn lemma_learned_word_decompiles(st: CompileState, g: Map<u32, u32>, w: Seq<char>, out: Seq<char>)
    requires
        lookup(st.0, lower_case(w)) is None,
        first_form_with_id(st.0, st.2) is None,
    ensures
        ({
            let (st2, t) = compile_word(st, g, w);
            let out1 = if out.len() > 0 && out.last() != ' ' { out.push(' ') } else { out };
            decompile_step(out, t, st2.0, st2.1) == out1 + lower_case(w)
        }),
{
    let lw = lower_case(w);
    let v = unknown_entry(lw, st.2);
    assert(index_of_form(st.0, lw) is None);
    assert(insert_spec(st.0, lw, v) == st.0.push((lw, v)));
    lemma_first_form_push(st.0, (lw, v), st.2);
    let class = infer_class(lw);
    let gender: u8 = if ends_with(lw, "a"@) { 1 } else { 0 };
    assert(class_of(morph_word(class, gender, 0, 0, 0)) == class) by {
        let m = morph_word(class, gender, 0, 0, 0);
        assert(class < 8 && gender < 2);
        assert((class as u16 | ((gender as u16) << 3u16) | ((0u8 as u16) << 4u16) | ((0u8 as u16) << 5u16)
            | ((0u8 as u16) << 8u16)) % 8 == class as u16) by (bit_vector)
            requires
                class < 8,
                gender < 2,
        ;
    }
}

/// One word compiled: the forms stay distinct, every form found before keeps
/// its value, and the word's lower case is found afterwards.
proof fn lemma_compile_word_grows(st: CompileState, g: Map<u32, u32>, w: Seq<char>)
    requires
        distinct_forms(st.0),
    ensures
        distinct_forms(compile_word(st, g, w).0.0),
        forall|q: Seq<char>|
            lookup(st.0, q) is Some ==> #[trigger] lookup(compile_word(st, g, w).0.0, q) == lookup(st.0, q),
        lookup(compile_word(st, g, w).0.0, lower_case(w)) is Some,
{
    let lw = lower_case(w);
    if lookup(st.0, lw) is None {
        let v = unknown_entry(lw, st.2);
        assert(index_of_form(st.0, lw) is None);
        assert(insert_spec(st.0, lw, v) == st.0.push((lw, v)));
        lemma_lookup_push(st.0, lw, v, lw);
        assert forall|q: Seq<char>| lookup(st.0, q) is Some implies #[trigger] lookup(
            compile_word(st, g, w).0.0,
            q,
        ) == lookup(st.0, q) by {
            lemma_lookup_push(st.0, lw, v, q);
        }
    }
}

/// After one word is compiled, a form is found exactly when it was found
/// before or is the word's lower case.
proof fn lemma_compile_word_lookups(st: CompileState, g: Map<u32, u32>, w: Seq<char>, q: Seq<char>)
    requires
        distinct_forms(st.0),
    ensures
        lookup(compile_word(st, g, w).0.0, q) is Some <==> (lookup(st.0, q) is Some || q == lower_case(w)),
{
    let lw = lower_case(w);
    if lookup(st.0, lw) is None {
        let v = unknown_entry(lw, st.2);
        assert(index_of_form(st.0, lw) is None);
        assert(insert_spec(st.0, lw, v) == st.0.push((lw, v)));
        lemma_lookup_push(st.0, lw, v, q);
    }
}

/// Compiling a word again in a state that finds its lower case as the first
/// compile left it: the state stays and the token is the same.
proof fn lemma_compile_word_replay(st: CompileState, g: Map<u32, u32>, w: Seq<char>, s2: CompileState)
    requires
        distinct_forms(st.0),
        lookup(s2.0, lower_case(w)) == lookup(compile_word(st, g, w).0.0, lower_case(w)),
    ensures
        compile_word(s2, g, w) == (s2, compile_word(st, g, w).1),
{
    let lw = lower_case(w);
    if lookup(st.0, lw) is None {
        let v = unknown_entry(lw, st.2);
        assert(index_of_form(st.0, lw) is None);
        assert(insert_spec(st.0, lw, v) == st.0.push((lw, v)));
        lemma_lookup_push(st.0, lw, v, lw);
        assert(v.2 != CLASS_PONTUACAO);
    }
}

/// Compiling words: the forms stay distinct and every form found before
/// keeps its value.
proof fn lemma_compile_words_grow(st: CompileState, g: Map<u32, u32>, ws: Seq<Seq<char>>)
    requires
        distinct_forms(st.0),
    ensures
        distinct_forms(compile_words(st, g, ws).0.0),
        forall|q: Seq<char>|
            lookup(st.0, q) is Some ==> #[trigger] lookup(compile_words(st, g, ws).0.0, q) == lookup(st.0, q),
    decreases ws.len(),
{
    if ws.len() > 0 {
        lemma_compile_words_grow(st, g, ws.drop_last());
        let stm = compile_words(st, g, ws.drop_last()).0;
        lemma_compile_word_grows(stm, g, ws.last());
        assert forall|q: Seq<char>| lookup(st.0, q) is Some implies #[trigger] lookup(
            compile_words(st, g, ws).0.0,
            q,
        ) == lookup(st.0, q) by {
            assert(lookup(stm.0, q) == lookup(st.0, q));
        }
    }
}

/// Compiling words again in a state that finds every form the first compile
/// left as that compile left it: the state stays and the tokens are the
/// same.
proof fn lemma_compile_words_replay(st: CompileState, g: Map<u32, u32>, ws: Seq<Seq<char>>, s2: CompileState)
    requires
        distinct_forms(st.0),
        forall|q: Seq<char>|
            lookup(compile_words(st, g, ws).0.0, q) is Some ==> #[trigger] lookup(s2.0, q) == lookup(
                compile_words(st, g, ws).0.0,
                q,
            ),
    ensures
        compile_words(s2, g, ws) == (s2, compile_words(st, g, ws).1),
    decreases ws.len(),
{
    if ws.len() > 0 {
        let w = ws.last();
        lemma_compile_words_grow(st, g, ws.drop_last());
        let stm = compile_words(st, g, ws.drop_last()).0;
        let st1 = compile_word(stm, g, w).0;
        assert(st1 == compile_words(st, g, ws).0);
        lemma_compile_word_grows(stm, g, w);
        assert forall|q: Seq<char>| lookup(stm.0, q) is Some implies #[trigger] lookup(s2.0, q) == lookup(
            stm.0,
            q,
        ) by {
            assert(lookup(st1.0, q) == lookup(stm.0, q));
        }
        lemma_compile_words_replay(st, g, ws.drop_last(), s2);
        assert(lookup(s2.0, lower_case(w)) == lookup(st1.0, lower_case(w)));
        lemma_compile_word_replay(stm, g, w, s2);
    }
}

/// Compiling the same words twice: the second pass learns nothing (the
/// lexicon, the roots and the next id stay as the first pass left them)
/// and gives the same tokens. `Compiler::compile` is `compile_words` over
/// the text's words, with the graph unchanged.
pub proof fn lemma_compile_twice(st: CompileState, g: Map<u32, u32>, ws: Seq<Seq<char>>)
    requires
        distinct_forms(st.0),
    ensures
        compile_words(compile_words(st, g, ws).0, g, ws) == compile_words(st, g, ws),
{
    lemma_compile_words_replay(st, g, ws, compile_words(st, g, ws).0);
}

/// A text that ends with `t` has `t`'s `k`-th last character as its own.
proof fn lemma_ends_with_char(s: Seq<char>, t: Seq<char>, k: int)
    requires
        ends_with(s, t),
        1 <= k <= t.len(),
    ensures
        s[s.len() - k] == t[t.len() - k],
{
    assert(s.skip(s.len() - t.len())[t.len() - k] == s[s.len() - k]);
}

/// A word the compiler learns takes the next id and is recorded as a noun,
/// or in the class "other" when its lower case ends in "mente" (an adverb);
/// it is feminine exactly when its lower case ends in 'a' (so a learned
/// word ending in 'o' is masculine), singular and with no person or tense.
pub proof fn lemma_learned_word_morph(st: CompileState, g: Map<u32, u32>, w: Seq<char>)
    requires
        lookup(st.0, lower_case(w)) is None,
    ensures
        compile_word(st, g, w).1.lex == st.2,
        class_of(compile_word(st, g, w).1.morph) == (if ends_with(lower_case(w), "mente"@) {
            CLASS_OUTRO
        } else {
            CLASS_SUBSTANTIVO
        }),
        gender_of(compile_word(st, g, w).1.morph) == (if ends_with(lower_case(w), "a"@) { 1u8 } else { 0u8 }),
        number_of(compile_word(st, g, w).1.morph) == 0,
        person_of(compile_word(st, g, w).1.morph) == 0,
        tense_of(compile_word(st, g, w).1.morph) == 0,
{
    let lw = lower_case(w);
    let class = infer_class(lw);
    let gender: u8 = if ends_with(lw, "a"@) { 1 } else { 0 };
    let m = compile_word(st, g, w).1.morph;
    assert(m == morph_word(class, if ends_with(lw, "a"@) { 1u8 } else { 0u8 }, 0, 0, 0));
    if ends_with(lw, "mente"@) {
        reveal_strlit("mente");
        reveal_strlit("a");
        reveal_strlit("o");
        reveal_strlit("or");
        reveal_strlit("dade");
        reveal_strlit("\u{e7}\u{e3}o");
        lemma_ends_with_char(lw, "mente"@, 1);
        lemma_ends_with_char(lw, "mente"@, 2);
        if ends_with(lw, "a"@) {
            lemma_ends_with_char(lw, "a"@, 1);
        }
        if ends_with(lw, "o"@) {
            lemma_ends_with_char(lw, "o"@, 1);
        }
        if ends_with(lw, "or"@) {
            lemma_ends_with_char(lw, "or"@, 1);
        }
        if ends_with(lw, "\u{e7}\u{e3}o"@) {
            lemma_ends_with_char(lw, "\u{e7}\u{e3}o"@, 1);
        }
        if ends_with(lw, "dade"@) {
            lemma_ends_with_char(lw, "dade"@, 2);
        }
        assert(class == CLASS_OUTRO);
    }
    assert(class < 8);
    assert(gender < 2);
    let c16 = class as u16;
    let g16 = gender as u16;
    assert(((c16 | (g16 << 3u16) | (0u16 << 4u16) | (0u16 << 5u16) | (0u16 << 8u16)) / 8) % 2 == g16
        && ((c16 | (g16 << 3u16) | (0u16 << 4u16) | (0u16 << 5u16) | (0u16 << 8u16)) / 16) % 2 == 0
        && ((c16 | (g16 << 3u16) | (0u16 << 4u16) | (0u16 << 5u16) | (0u16 << 8u16)) / 256) % 8 == 0
        && ((c16 | (g16 << 3u16) | (0u16 << 4u16) | (0u16 << 5u16) | (0u16 << 8u16)) / 32) % 8 == 0
        && (c16 | (g16 << 3u16) | (0u16 << 4u16) | (0u16 << 5u16) | (0u16 << 8u16)) % 8 == c16) by (bit_vector)
        requires
            c16 < 8,
            g16 < 2,
    ;
}

/// Decompiling gives back the punctuation that compiling coded: each mark
/// that has a code of its own (all but the hyphen, which shares the dash's
/// code, and the brackets, which are written from the lexicon) is written
/// back as itself.
pub proof fn lemma_punct_roundtrip(m: Seq<char>)
    requires
        punct_code_spec(m) != 0,
        m != "-"@,
        m != "("@,
        m != ")"@,
    ensures
        punct_text(punct_code_spec(m)) == m,
{
    reveal_strlit(".");
    reveal_strlit(",");
    reveal_strlit(";");
    reveal_strlit(":");
    reveal_strlit("\u{2014}");
    reveal_strlit("-");
    reveal_strlit("...");
    reveal_strlit("?");
    reveal_strlit("!");
    reveal_strlit("(");
    reveal_strlit(")");
    if m == "."@ {
    } else if m == ","@ {
        assert(","@[0] != "."@[0]);
    } else if m == ";"@ {
        assert(";"@[0] != "."@[0] && ";"@[0] != ","@[0]);
    } else if m == ":"@ {
        assert(":"@[0] != "."@[0] && ":"@[0] != ","@[0] && ":"@[0] != ";"@[0]);
    } else if m == "\u{2014}"@ {
        assert("\u{2014}"@[0] != "."@[0] && "\u{2014}"@[0] != ","@[0] && "\u{2014}"@[0] != ";"@[0]
            && "\u{2014}"@[0] != ":"@[0]);
    } else if m == "..."@ {
        assert("..."@.len() != "."@.len() && "..."@.len() != "\u{2014}"@.len() && "..."@.len() != "-"@.len());
    } else if m == "?"@ {
        assert("?"@[0] != "."@[0] && "?"@[0] != ","@[0] && "?"@[0] != ";"@[0] && "?"@[0] != ":"@[0]
            && "?"@[0] != "\u{2014}"@[0] && "?"@[0] != "-"@[0] && "?"@.len() != "..."@.len());
    } else if m == "!"@ {
        assert("!"@[0] != "."@[0] && "!"@[0] != ","@[0] && "!"@[0] != ";"@[0] && "!"@[0] != ":"@[0]
            && "!"@[0] != "\u{2014}"@[0] && "!"@[0] != "-"@[0] && "!"@.len() != "..."@.len() && "!"@[0] != "?"@[0]);
    }
}

/// Trimming twice is trimming once.
pub proof fn lemma_trim_idempotent(s: Seq<char>)
    ensures
        trim_spec(trim_spec(s)) == trim_spec(s),
    decreases s.len(),
{
    if s.len() > 0 && white_space(s[0]) {
        lemma_trim_idempotent(s.drop_first());
    } else if s.len() > 0 && white_space(s.last()) {
        lemma_trim_idempotent(s.drop_last());
    }
}

} // verus!
