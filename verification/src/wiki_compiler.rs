//! A compiler that learns its vocabulary from running text, as the corpus
//! trainer uses it: a word not yet in the lexicon gets the next id and a class
//! guessed from its ending or from a short list of function words.
use vstd::prelude::*;
use crate::amadeus_m::compiler::{CompileState, views, set_root, store_root};
use crate::amadeus_m::lexicon::{Lexicon, LexSeq, LexValue, lookup, insert_spec};
use crate::amadeus_m::token7::{Token7, spec_token};
use crate::text::{chars_of, chars_end_with, ends_with, str_eq, string_of};
use crate::unicode::{is_whitespace, lower_case, to_lower, white_space};

verus! {

// ───────────────────────── words ─────────────────────────

/// The characters that end a word: white space and `, . ! ? ; :`.
pub open spec fn wiki_separator(c: char) -> bool {
    white_space(c) || c == ',' || c == '.' || c == '!' || c == '?' || c == ';' || c == ':'
}

/// The words found so far and the word in progress.
pub open spec fn wiki_split_state(s: Seq<char>) -> (Seq<Seq<char>>, Seq<char>)
    decreases s.len(),
{
    if s.len() == 0 {
        (Seq::empty(), Seq::empty())
    } else {
        let (ws, cur) = wiki_split_state(s.drop_last());
        let c = s.last();
        if wiki_separator(c) {
            (if cur.len() > 0 { ws.push(cur) } else { ws }, Seq::empty())
        } else {
            (ws, cur.push(c))
        }
    }
}

/// The words of a text: its maximal runs of characters that are not
/// separators.
pub open spec fn wiki_words(s: Seq<char>) -> Seq<Seq<char>> {
    let (ws, cur) = wiki_split_state(s);
    if cur.len() > 0 {
        ws.push(cur)
    } else {
        ws
    }
}

proof fn lemma_split_state_len(s: Seq<char>)
    ensures
        wiki_split_state(s).0.len() + wiki_split_state(s).1.len() <= s.len(),
    decreases s.len(),
{
    if s.len() > 0 {
        lemma_split_state_len(s.drop_last());
    }
}

/// A text has at most as many words as characters.
pub proof fn lemma_wiki_words_len(s: Seq<char>)
    ensures
        wiki_words(s).len() <= s.len(),
{
    lemma_split_state_len(s);
}

/// The words of a text (see `wiki_words`).
pub fn split_words(text: &str) -> (words: Vec<String>)
    ensures
        views(words@) == wiki_words(text@),
{
    let cs = chars_of(text);
    let mut words: Vec<String> = Vec::new();
    let mut current: Vec<char> = Vec::new();
    let n = cs.len();
    let mut i: usize = 0;
    while i < n
        invariant
            n == cs@.len(),
            cs@ == text@,
            i <= n,
            views(words@) == wiki_split_state(text@.take(i as int)).0,
            current@ == wiki_split_state(text@.take(i as int)).1,
        decreases n - i,
    {
        assert(text@.take(i + 1).drop_last() =~= text@.take(i as int));
        let c = cs[i];
        let sep = is_whitespace(c) || c == ',' || c == '.' || c == '!' || c == '?' || c == ';'
            || c == ':';
        if sep {
            if current.len() > 0 {
                let w = string_of(current.as_slice());
                words.push(w);
                assert(views(words@) =~= wiki_split_state(text@.take(i as int)).0.push(w@));
            }
            current = Vec::new();
        } else {
            current.push(c);
        }
        i += 1;
    }
    assert(text@.take(n as int) =~= text@);
    if current.len() > 0 {
        let w = string_of(current.as_slice());
        words.push(w);
        assert(views(words@) =~= wiki_split_state(text@).0.push(w@));
    }
    words
}

// ───────────────────────── guessing a class ─────────────────────────

/// Noun endings: `-ção`, `-ões`, `-mento`, `-ismo`, `-idade`, `-agem`.
pub open spec fn noun_ending(w: Seq<char>) -> bool {
    ends_with(w, "\u{e7}\u{e3}o"@) || ends_with(w, "\u{f5}es"@) || ends_with(w, "mento"@)
        || ends_with(w, "ismo"@) || ends_with(w, "idade"@) || ends_with(w, "agem"@)
}

/// Adjective endings: `-oso`, `-osa`, `-vel`, `-al`, `-ível`, `-ário`,
/// `-ico`, `-ica`, `-nte`.
pub open spec fn adjective_ending(w: Seq<char>) -> bool {
    ends_with(w, "oso"@) || ends_with(w, "osa"@) || ends_with(w, "vel"@) || ends_with(w, "al"@)
        || ends_with(w, "\u{ed}vel"@) || ends_with(w, "\u{e1}rio"@) || ends_with(w, "ico"@)
        || ends_with(w, "ica"@) || ends_with(w, "nte"@)
}

/// Infinitive endings: `-ar`, `-ear`, `-izar`, `-or`.
pub open spec fn infinitive_ending(w: Seq<char>) -> bool {
    ends_with(w, "ar"@) || ends_with(w, "ear"@) || ends_with(w, "izar"@) || ends_with(w, "or"@)
}

/// Finite verb endings: `-ou`, `-iu`, `-eu`, `-amos`, `-eis`, `-em`.
pub open spec fn finite_ending(w: Seq<char>) -> bool {
    ends_with(w, "ou"@) || ends_with(w, "iu"@) || ends_with(w, "eu"@) || ends_with(w, "amos"@)
        || ends_with(w, "eis"@) || ends_with(w, "em"@)
}

/// Participle endings: `-ado`, `-ido`, `-ito`, `-sto`.
pub open spec fn participle_ending(w: Seq<char>) -> bool {
    ends_with(w, "ado"@) || ends_with(w, "ido"@) || ends_with(w, "ito"@) || ends_with(w, "sto"@)
}

/// The low byte of the id's hash, the feature bits of a word no rule knows.
pub open spec fn id_bits(id: u32) -> u16 {
    ((id as int * 0x9E37) % 256) as u16
}

/// The class and feature bits guessed for a word (in lower case) with id
/// `id`: the first rule that applies wins.
pub open spec fn wiki_guess(w: Seq<char>, id: u32) -> (u8, u16) {
    if noun_ending(w) {
        (0, 0b0000_0001)
    } else if ends_with(w, "mente"@) {
        (4, 0b0000_0010)
    } else if adjective_ending(w) {
        (2, 0b0000_0100)
    } else if infinitive_ending(w) {
        (1, 0b0000_1000)
    } else if finite_ending(w) {
        (1, 0b0001_0000)
    } else if participle_ending(w) {
        (1, 0b0010_0000)
    } else if w == "o"@ || w == "os"@ {
        (3, 0b0100_0000)
    } else if w == "a"@ || w == "as"@ {
        (3, 0b1000_0000)
    } else if w == "um"@ || w == "uns"@ {
        (3, 0b0100_0001)
    } else if w == "uma"@ || w == "umas"@ {
        (3, 0b1000_0001)
    } else if w == "de"@ || w == "do"@ || w == "da"@ || w == "dos"@ || w == "das"@ {
        (5, 0b0000_0011)
    } else if w == "em"@ || w == "no"@ || w == "na"@ || w == "nos"@ || w == "nas"@ {
        (5, 0b0000_0110)
    } else if w == "por"@ || w == "para"@ || w == "com"@ || w == "sem"@ || w == "sob"@ {
        (5, 0b0000_1001)
    } else if w == "e"@ || w == "ou"@ || w == "mas"@ || w == "por\u{e9}m"@ || w == "ent\u{e3}o"@ {
        (5, 0b0000_1100)
    } else if w == "que"@ || w == "se"@ || w == "como"@ || w == "quando"@ {
        (5, 0b0000_1111)
    } else if w == "eu"@ || w == "tu"@ || w == "ele"@ || w == "ela"@ || w == "n\u{f3}s"@
        || w == "v\u{f3}s"@ || w == "eles"@ || w == "elas"@ {
        (3, 0b0001_0000)
    } else if w == "isto"@ || w == "isso"@ || w == "aquilo"@ || w == "este"@ || w == "esse"@
        || w == "aquele"@ {
        (3, 0b0010_0000)
    } else if w == "bem"@ || w == "mal"@ || w == "muito"@ || w == "pouco"@ || w == "mais"@
        || w == "menos"@ {
        (4, 0b0001_0001)
    } else if w == "aqui"@ || w == "a\u{ed}"@ || w == "ali"@ || w == "l\u{e1}"@ || w == "c\u{e1}"@
        || w == "onde"@ {
        (4, 0b0010_0010)
    } else if w == "agora"@ || w == "ent\u{e3}o"@ || w == "depois"@ || w == "antes"@
        || w == "sempre"@ || w == "nunca"@ {
        (4, 0b0011_0011)
    } else {
        (0, id_bits(id))
    }
}

/// The style of a learned word: the low six bits of
/// `id * 0x9E37 + class * 0x7C5`.
pub open spec fn wiki_style(id: u32, class: u8) -> u16 {
    ((id as int * 0x9E37 + class as int * 0x7C5) % 64) as u16
}

/// The lexicon value of a learned word: its morphology holds the class in
/// bits 0..3 and the guessed feature bits from bit 3 on.
pub open spec fn wiki_entry(w: Seq<char>, id: u32) -> LexValue {
    let (class, bits) = wiki_guess(w, id);
    (id, (bits * 8 + class) as u16, class, wiki_style(id, class))
}

/// The state after learning `w` under the next id, and its value.
pub open spec fn wiki_learn(st: CompileState, w: Seq<char>) -> (CompileState, LexValue) {
    let v = wiki_entry(w, st.2);
    ((insert_spec(st.0, w, v), set_root(st.1, st.2 as int, w), (st.2 + 1) as u32), v)
}

/// The token of a lexicon value.
pub open spec fn wiki_token(v: LexValue) -> Token7 {
    Token7 { style: v.3, ..spec_token(v.0, v.1) }
}

/// The token of one word and the state after it: the word as written, then
/// in lower case, is looked up; a word found in neither form is learned in
/// lower case.
pub open spec fn wiki_word(st: CompileState, w: Seq<char>) -> (CompileState, Token7) {
    match lookup(st.0, w) {
        Some(v) => (st, wiki_token(v)),
        None => match lookup(st.0, lower_case(w)) {
            Some(v) => (st, wiki_token(v)),
            None => {
                let (st2, v) = wiki_learn(st, lower_case(w));
                (st2, wiki_token(v))
            },
        },
    }
}

/// The tokens of a word sequence and the state after them.
pub open spec fn wiki_compile_words(st: CompileState, ws: Seq<Seq<char>>) -> (CompileState, Seq<Token7>)
    decreases ws.len(),
{
    if ws.len() == 0 {
        (st, Seq::empty())
    } else {
        let (st1, ts) = wiki_compile_words(st, ws.drop_last());
        let (st2, t) = wiki_word(st1, ws.last());
        (st2, ts.push(t))
    }
}

/// The punctuation marks the compiler starts with.
pub open spec fn wiki_marks() -> Seq<Seq<char>> {
    seq![
        ","@, "."@, "!"@, "?"@, ";"@, ":"@, "\u{2014}"@, "-"@, "\""@, "("@, ")"@, "..."@,
    ]
}

/// The lexicon value of a punctuation mark.
pub open spec fn wiki_mark_entry() -> LexValue {
    (0, 6, 6, 0)
}

/// The lexicon after recording `v` for each form in turn.
pub open spec fn record_all(s: LexSeq, forms: Seq<Seq<char>>, v: LexValue) -> LexSeq
    decreases forms.len(),
{
    if forms.len() == 0 {
        s
    } else {
        insert_spec(record_all(s, forms.drop_last(), v), forms.last(), v)
    }
}

fn has_noun_ending(w: &[char]) -> (b: bool)
    ensures
        b == noun_ending(w@),
{
    chars_end_with(w, "\u{e7}\u{e3}o") || chars_end_with(w, "\u{f5}es") || chars_end_with(w, "mento")
        || chars_end_with(w, "ismo") || chars_end_with(w, "idade") || chars_end_with(w, "agem")
}

fn has_adjective_ending(w: &[char]) -> (b: bool)
    ensures
        b == adjective_ending(w@),
{
    chars_end_with(w, "oso") || chars_end_with(w, "osa") || chars_end_with(w, "vel")
        || chars_end_with(w, "al") || chars_end_with(w, "\u{ed}vel") || chars_end_with(w, "\u{e1}rio")
        || chars_end_with(w, "ico") || chars_end_with(w, "ica") || chars_end_with(w, "nte")
}

fn has_infinitive_ending(w: &[char]) -> (b: bool)
    ensures
        b == infinitive_ending(w@),
{
    chars_end_with(w, "ar") || chars_end_with(w, "ear") || chars_end_with(w, "izar")
        || chars_end_with(w, "or")
}

fn has_finite_ending(w: &[char]) -> (b: bool)
    ensures
        b == finite_ending(w@),
{
    chars_end_with(w, "ou") || chars_end_with(w, "iu") || chars_end_with(w, "eu")
        || chars_end_with(w, "amos") || chars_end_with(w, "eis") || chars_end_with(w, "em")
}

fn has_participle_ending(w: &[char]) -> (b: bool)
    ensures
        b == participle_ending(w@),
{
    chars_end_with(w, "ado") || chars_end_with(w, "ido") || chars_end_with(w, "ito")
        || chars_end_with(w, "sto")
}

/// The class and feature bits of a word in lower case (see `wiki_guess`).
pub fn guess_class(w: &str, id: u32) -> (r: (u8, u16))
    ensures
        r == wiki_guess(w@, id),
{
    let cs = chars_of(w);
    let lc = cs.as_slice();
    if has_noun_ending(lc) {
        (0, 0b0000_0001)
    } else if chars_end_with(lc, "mente") {
        (4, 0b0000_0010)
    } else if has_adjective_ending(lc) {
        (2, 0b0000_0100)
    } else if has_infinitive_ending(lc) {
        (1, 0b0000_1000)
    } else if has_finite_ending(lc) {
        (1, 0b0001_0000)
    } else if has_participle_ending(lc) {
        (1, 0b0010_0000)
    } else if str_eq(w, "o") || str_eq(w, "os") {
        (3, 0b0100_0000)
    } else if str_eq(w, "a") || str_eq(w, "as") {
        (3, 0b1000_0000)
    } else if str_eq(w, "um") || str_eq(w, "uns") {
        (3, 0b0100_0001)
    } else if str_eq(w, "uma") || str_eq(w, "umas") {
        (3, 0b1000_0001)
    } else if str_eq(w, "de") || str_eq(w, "do") || str_eq(w, "da") || str_eq(w, "dos")
        || str_eq(w, "das") {
        (5, 0b0000_0011)
    } else if str_eq(w, "em") || str_eq(w, "no") || str_eq(w, "na") || str_eq(w, "nos")
        || str_eq(w, "nas") {
        (5, 0b0000_0110)
    } else if str_eq(w, "por") || str_eq(w, "para") || str_eq(w, "com") || str_eq(w, "sem")
        || str_eq(w, "sob") {
        (5, 0b0000_1001)
    } else if str_eq(w, "e") || str_eq(w, "ou") || str_eq(w, "mas") || str_eq(w, "por\u{e9}m")
        || str_eq(w, "ent\u{e3}o") {
        (5, 0b0000_1100)
    } else if str_eq(w, "que") || str_eq(w, "se") || str_eq(w, "como") || str_eq(w, "quando") {
        (5, 0b0000_1111)
    } else if str_eq(w, "eu") || str_eq(w, "tu") || str_eq(w, "ele") || str_eq(w, "ela")
        || str_eq(w, "n\u{f3}s") || str_eq(w, "v\u{f3}s") || str_eq(w, "eles") || str_eq(w, "elas") {
        (3, 0b0001_0000)
    } else if str_eq(w, "isto") || str_eq(w, "isso") || str_eq(w, "aquilo") || str_eq(w, "este")
        || str_eq(w, "esse") || str_eq(w, "aquele") {
        (3, 0b0010_0000)
    } else if str_eq(w, "bem") || str_eq(w, "mal") || str_eq(w, "muito") || str_eq(w, "pouco")
        || str_eq(w, "mais") || str_eq(w, "menos") {
        (4, 0b0001_0001)
    } else if str_eq(w, "aqui") || str_eq(w, "a\u{ed}") || str_eq(w, "ali") || str_eq(w, "l\u{e1}")
        || str_eq(w, "c\u{e1}") || str_eq(w, "onde") {
        (4, 0b0010_0010)
    } else if str_eq(w, "agora") || str_eq(w, "ent\u{e3}o") || str_eq(w, "depois")
        || str_eq(w, "antes") || str_eq(w, "sempre") || str_eq(w, "nunca") {
        (4, 0b0011_0011)
    } else {
        (0, (((id as u64) * 0x9E37) % 256) as u16)
    }
}

/// The style of a learned word (see `wiki_style`).
pub fn word_style(id: u32, class: u8) -> (s: u16)
    ensures
        s == wiki_style(id, class),
{
    (((id as u64) * 0x9E37 + (class as u64) * 0x7C5) % 64) as u16
}

/// A compiler whose vocabulary grows with the text it reads.
pub struct SimpleCompiler {
    pub lexicon: Lexicon,
    pub roots: Vec<String>,
    pub next_id: u32,
}

impl SimpleCompiler {
    pub open spec fn state(&self) -> CompileState {
        (self.lexicon@, views(self.roots@), self.next_id)
    }

    /// A compiler knowing only the punctuation marks, with one empty root
    /// and the next id 1.
    pub fn new() -> (c: Self)
        ensures
            c.lexicon.wf(),
            c.lexicon@ == record_all(Seq::empty(), wiki_marks(), wiki_mark_entry()),
            views(c.roots@) == seq![Seq::<char>::empty()],
            c.next_id == 1,
    {
        let mut roots: Vec<String> = Vec::new();
        roots.push(String::new());
        let mut lexicon = Lexicon::new();
        let marks: Vec<&str> = vec![",", ".", "!", "?", ";", ":", "\u{2014}", "-", "\"", "(", ")", "..."];
        let v: LexValue = (0, 6, 6, 0);
        let ghost forms = marks@.map_values(|s: &str| s@);
        assert(forms =~= wiki_marks());
        let mut i: usize = 0;
        assert(forms.take(0) =~= Seq::<Seq<char>>::empty());
        while i < marks.len()
            invariant
                i <= marks@.len(),
                forms == marks@.map_values(|s: &str| s@),
                v == wiki_mark_entry(),
                lexicon.wf(),
                lexicon@ == record_all(Seq::empty(), forms.take(i as int), v),
            decreases marks.len() - i,
        {
            assert(forms.take(i + 1).drop_last() =~= forms.take(i as int));
            lexicon.insert(String::from_str(marks[i]), v);
            i += 1;
        }
        assert(forms.take(i as int) =~= forms);
        let c = SimpleCompiler { lexicon, roots, next_id: 1 };
        assert(views(c.roots@) =~= seq![Seq::<char>::empty()]);
        c
    }

    /// Learns `word` (in lower case) under the next id: its root is stored
    /// and its class guessed (see `wiki_learn`).
    pub fn infer_word(&mut self, word: &str) -> (v: LexValue)
        requires
            old(self).lexicon.wf(),
            old(self).next_id < u32::MAX,
        ensures
            final(self).lexicon.wf(),
            (final(self).state(), v) == wiki_learn(old(self).state(), word@),
            v.1 % 8 == v.2 as u16,
    {
        let id = self.next_id;
        self.next_id = id + 1;
        store_root(&mut self.roots, id, String::from_str(word));
        let (class, bits) = guess_class(word, id);
        let style = word_style(id, class);
        assert(bits < 256 && class < 8);
        let v: LexValue = (id, bits * 8 + class as u16, class, style);
        assert(v.1 % 8 == class);
        self.lexicon.insert(String::from_str(word), v);
        v
    }

    /// The tokens of a text (see `wiki_compile_words`), learning the words
    /// not yet known.
    pub fn compile(&mut self, text: &str) -> (tokens: Vec<Token7>)
        requires
            old(self).lexicon.wf(),
            old(self).next_id + text@.len() < u32::MAX,
        ensures
            final(self).lexicon.wf(),
            (final(self).state(), tokens@) == wiki_compile_words(old(self).state(), wiki_words(text@)),
    {
        let words = split_words(text);
        proof {
            lemma_wiki_words_len(text@);
        }
        let ghost ws = views(words@);
        let ghost st0 = self.state();
        let mut tokens: Vec<Token7> = Vec::new();
        let mut i: usize = 0;
        assert(ws.take(0) =~= Seq::<Seq<char>>::empty());
        while i < words.len()
            invariant
                ws == views(words@),
                ws.len() <= text@.len(),
                i <= ws.len(),
                self.lexicon.wf(),
                st0 == old(self).state(),
                self.next_id <= old(self).next_id + i,
                old(self).next_id + text@.len() < u32::MAX,
                (self.state(), tokens@) == wiki_compile_words(st0, ws.take(i as int)),
            decreases words.len() - i,
        {
            assert(ws.take(i + 1).drop_last() =~= ws.take(i as int));
            assert(ws.take(i + 1).last() == words@[i as int]@);
            let w = &words[i];
            let v = match self.lexicon.get(w) {
                Some(v) => v,
                None => {
                    let lower = to_lower(w.as_str());
                    match self.lexicon.get(&lower) {
                        Some(v) => v,
                        None => self.infer_word(lower.as_str()),
                    }
                },
            };
            tokens.push(Token7::new(v.0, v.1).with_style(v.3));
            i += 1;
        }
        assert(ws.take(i as int) =~= ws);
        tokens
    }
}


// ───────────────────────── the benchmark's compiler ─────────────────────────

/// The class and feature bits the benchmark's compiler gives a word in lower
/// case; the feature bits repeat the class.
pub open spec fn bench_guess(w: Seq<char>) -> (u8, u16) {
    if ends_with(w, "\u{e7}\u{e3}o"@) || ends_with(w, "\u{f5}es"@) {
        (0, 0)
    } else if ends_with(w, "mente"@) {
        (4, 4)
    } else if ends_with(w, "oso"@) || ends_with(w, "osa"@) || ends_with(w, "vel"@) {
        (2, 2)
    } else if ends_with(w, "ar"@) || ends_with(w, "er"@) || ends_with(w, "ir"@) {
        (1, 1)
    } else if w == "o"@ || w == "a"@ || w == "os"@ || w == "as"@ {
        (3, 3)
    } else if w == "de"@ || w == "do"@ || w == "da"@ || w == "em"@ || w == "no"@ || w == "na"@ {
        (5, 5)
    } else {
        (0, 0)
    }
}

/// The lexicon value the benchmark's compiler gives a word learned with id
/// `id`: its style is the low six bits of `id * 0x9E37`.
pub open spec fn bench_entry(w: Seq<char>, id: u32) -> LexValue {
    let (class, morph) = bench_guess(w);
    (id, morph | (class as u16), class, ((id as int * 0x9E37) % 64) as u16)
}

/// The benchmark compiler's lexicon and root table.
pub type BenchState = (LexSeq, Seq<Seq<char>>);

/// The token of one word and the state after it: as `wiki_word`, but a new
/// word's id is the number of roots, and its root is appended.
pub open spec fn bench_word(st: BenchState, w: Seq<char>) -> (BenchState, Token7) {
    match lookup(st.0, w) {
        Some(v) => (st, wiki_token(v)),
        None => match lookup(st.0, lower_case(w)) {
            Some(v) => (st, wiki_token(v)),
            None => {
                let lw = lower_case(w);
                let v = bench_entry(lw, st.1.len() as u32);
                ((insert_spec(st.0, lw, v), st.1.push(lw)), wiki_token(v))
            },
        },
    }
}

/// The tokens of a word sequence and the state after them.
pub open spec fn bench_compile_words(st: BenchState, ws: Seq<Seq<char>>) -> (BenchState, Seq<Token7>)
    decreases ws.len(),
{
    if ws.len() == 0 {
        (st, Seq::empty())
    } else {
        let (st1, ts) = bench_compile_words(st, ws.drop_last());
        let (st2, t) = bench_word(st1, ws.last());
        (st2, ts.push(t))
    }
}

/// The class and feature bits of a word (see `bench_guess`).
pub fn bench_class(w: &str) -> (r: (u8, u16))
    ensures
        r == bench_guess(w@),
{
    let cs = chars_of(w);
    let lc = cs.as_slice();
    if chars_end_with(lc, "\u{e7}\u{e3}o") || chars_end_with(lc, "\u{f5}es") {
        (0, 0)
    } else if chars_end_with(lc, "mente") {
        (4, 4)
    } else if chars_end_with(lc, "oso") || chars_end_with(lc, "osa") || chars_end_with(lc, "vel") {
        (2, 2)
    } else if chars_end_with(lc, "ar") || chars_end_with(lc, "er") || chars_end_with(lc, "ir") {
        (1, 1)
    } else if str_eq(w, "o") || str_eq(w, "a") || str_eq(w, "os") || str_eq(w, "as") {
        (3, 3)
    } else if str_eq(w, "de") || str_eq(w, "do") || str_eq(w, "da") || str_eq(w, "em")
        || str_eq(w, "no") || str_eq(w, "na") {
        (5, 5)
    } else {
        (0, 0)
    }
}

/// The benchmark's compiler: new words get the number of roots as id.
pub struct BenchCompiler {
    pub lexicon: Lexicon,
    pub roots: Vec<String>,
}

impl BenchCompiler {
    pub open spec fn state(&self) -> BenchState {
        (self.lexicon@, views(self.roots@))
    }

    /// A compiler knowing only the punctuation marks, with one empty root.
    pub fn new() -> (c: Self)
        ensures
            c.lexicon.wf(),
            c.lexicon@ == record_all(Seq::empty(), wiki_marks(), wiki_mark_entry()),
            views(c.roots@) == seq![Seq::<char>::empty()],
    {
        let s = SimpleCompiler::new();
        BenchCompiler { lexicon: s.lexicon, roots: s.roots }
    }

    /// The tokens of a text (see `bench_compile_words`), learning the words
    /// not yet known.
    pub fn compile(&mut self, text: &str) -> (tokens: Vec<Token7>)
        requires
            old(self).lexicon.wf(),
            old(self).roots@.len() + text@.len() <= u32::MAX,
        ensures
            final(self).lexicon.wf(),
            (final(self).state(), tokens@) == bench_compile_words(old(self).state(), wiki_words(text@)),
    {
        let words = split_words(text);
        proof {
            lemma_wiki_words_len(text@);
        }
        let ghost ws = views(words@);
        let ghost st0 = self.state();
        let mut tokens: Vec<Token7> = Vec::new();
        let mut i: usize = 0;
        assert(ws.take(0) =~= Seq::<Seq<char>>::empty());
        while i < words.len()
            invariant
                ws == views(words@),
                ws.len() <= text@.len(),
                i <= ws.len(),
                self.lexicon.wf(),
                st0 == old(self).state(),
                self.roots@.len() <= old(self).roots@.len() + i,
                old(self).roots@.len() + text@.len() <= u32::MAX,
                (self.state(), tokens@) == bench_compile_words(st0, ws.take(i as int)),
            decreases words.len() - i,
        {
            assert(ws.take(i + 1).drop_last() =~= ws.take(i as int));
            assert(ws.take(i + 1).last() == words@[i as int]@);
            let w = &words[i];
            let v = match self.lexicon.get(w) {
                Some(v) => v,
                None => {
                    let lower = to_lower(w.as_str());
                    match self.lexicon.get(&lower) {
                        Some(v) => v,
                        None => {
                            let id = self.roots.len() as u32;
                            let ghost old_roots = views(self.roots@);
                            self.roots.push(lower.clone());
                            assert(views(self.roots@) =~= old_roots.push(lower@));
                            let (class, morph) = bench_class(lower.as_str());
                            let style = (((id as u64) * 0x9E37) % 64) as u16;
                            let v: LexValue = (id, morph | (class as u16), class, style);
                            self.lexicon.insert(lower, v);
                            v
                        },
                    }
                },
            };
            tokens.push(Token7::new(v.0, v.1).with_style(v.3));
            i += 1;
        }
        assert(ws.take(i as int) =~= ws);
        tokens
    }

    /// Each lexicon entry's id with its form, in lexicon order.
    pub fn reverse(&self) -> (r: Vec<(u32, String)>)
        ensures
            r@.len() == self.lexicon@.len(),
            forall|i: int| 0 <= i < r@.len() ==> (#[trigger] r@[i]).0 == self.lexicon@[i].1.0
                && r@[i].1@ == self.lexicon@[i].0,
    {
        let mut r: Vec<(u32, String)> = Vec::new();
        let n = self.lexicon.len();
        let mut i: usize = 0;
        while i < n
            invariant
                n == self.lexicon@.len(),
                i <= n,
                r@.len() == i,
                forall|j: int| 0 <= j < i ==> (#[trigger] r@[j]).0 == self.lexicon@[j].1.0
                    && r@[j].1@ == self.lexicon@[j].0,
            decreases n - i,
        {
            let (f, v) = self.lexicon.entry(i);
            r.push((v.0, f.clone()));
            i += 1;
        }
        r
    }
}

} // verus!
