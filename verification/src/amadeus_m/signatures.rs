//! Semantic signatures by random indexing: each root gets a random base
//! word, and its signature folds in the rotated base words of its contexts.
use std::collections::HashMap;
use vstd::prelude::*;
use crate::amadeus_m::compiler::{Compiler, views};
use crate::amadeus_m::compiler_state::insert_pairs;
use crate::amadeus_m::token7::Token7;
use crate::random::{seeded_u32s, seeded_words};

verus! {

broadcast use vstd::std_specs::hash::group_hash_axioms;

/// `x` rotated right by `n` bits (`n` taken modulo 32).
pub open spec fn rotr(x: u32, n: u32) -> u32 {
    let k = n % 32;
    if k == 0 {
        x
    } else {
        ((x >> k) | (x << ((32 - k) as u32))) as u32
    }
}

pub fn rotate_right(x: u32, n: u32) -> (r: u32)
    ensures
        r == rotr(x, n),
{
    let k = n % 32;
    if k == 0 {
        x
    } else {
        (x >> k) | (x << (32 - k))
    }
}

/// The distinct roots of a token stream, in order of first occurrence.
pub open spec fn first_lexes(ts: Seq<Token7>) -> Seq<u32>
    decreases ts.len(),
{
    if ts.len() == 0 {
        Seq::empty()
    } else {
        let f = first_lexes(ts.drop_last());
        if f.contains(ts.last().lex) {
            f
        } else {
            f.push(ts.last().lex)
        }
    }
}

/// The base words: root `lexes[i]` gets `vals[i]`.
pub open spec fn base_of(lexes: Seq<u32>, vals: Seq<u32>) -> Map<u32, u32> {
    insert_pairs(Map::empty(), Seq::new(lexes.len(), |i: int| (lexes[i], vals[i])))
}

pub open spec fn window_start(i: int, w: int) -> int {
    if i > w {
        i - w
    } else {
        0
    }
}

pub open spec fn window_end(i: int, w: int, n: int) -> int {
    if i + w + 1 < n {
        i + w + 1
    } else {
        n
    }
}

pub open spec fn distance(i: int, j: int) -> u32 {
    (if j < i { i - j } else { j - i }) as u32
}

/// The signatures after folding in the contexts of position `i` that lie
/// before `j`: each other non-zero root's base word, rotated by its
/// distance, is XORed into the signature of root `ts[i].lex`.
pub open spec fn row_step(sig: Map<u32, u32>, ts: Seq<Token7>, w: int, base: Map<u32, u32>, i: int, j: int) -> Map<u32, u32>
    decreases j - window_start(i, w),
{
    if j <= window_start(i, w) {
        sig
    } else {
        let m = row_step(sig, ts, w, base, i, j - 1);
        let c = ts[j - 1].lex;
        let lex = ts[i].lex;
        if j - 1 == i || c == 0 || !m.contains_key(lex) || !base.contains_key(c) {
            m
        } else {
            m.insert(lex, m[lex] ^ rotr(base[c], distance(i, j - 1)))
        }
    }
}

/// The signatures after the first `n` positions (root 0 gets nothing).
pub open spec fn sig_upto(ts: Seq<Token7>, w: int, base: Map<u32, u32>, n: int) -> Map<u32, u32>
    decreases n,
{
    if n <= 0 {
        base
    } else {
        let m = sig_upto(ts, w, base, n - 1);
        if ts[n - 1].lex == 0 {
            m
        } else {
            row_step(m, ts, w, base, n - 1, window_end(n - 1, w, ts.len() as int))
        }
    }
}

/// The signatures of a token stream under base words `base` and a context
/// window of `w` positions on each side.
pub open spec fn signatures_spec(ts: Seq<Token7>, w: int, base: Map<u32, u32>) -> Map<u32, u32> {
    sig_upto(ts, w, base, ts.len() as int)
}

proof fn lemma_row_step_domain(sig: Map<u32, u32>, ts: Seq<Token7>, w: int, base: Map<u32, u32>, i: int, j: int)
    ensures
        row_step(sig, ts, w, base, i, j).dom() == sig.dom(),
    decreases j - window_start(i, w),
{
    if j > window_start(i, w) {
        lemma_row_step_domain(sig, ts, w, base, i, j - 1);
        let m = row_step(sig, ts, w, base, i, j - 1);
        let lex = ts[i].lex;
        if m.contains_key(lex) {
            assert(m.insert(lex, 0).dom() =~= m.dom());
            assert(m.dom().insert(lex) =~= m.dom());
        }
    }
}

/// The signatures are given to exactly the roots that have base words.
pub proof fn lemma_signatures_domain(ts: Seq<Token7>, w: int, base: Map<u32, u32>, n: int)
    ensures
        sig_upto(ts, w, base, n).dom() == base.dom(),
    decreases n,
{
    if n > 0 {
        lemma_signatures_domain(ts, w, base, n - 1);
        let m = sig_upto(ts, w, base, n - 1);
        lemma_row_step_domain(m, ts, w, base, n - 1, window_end(n - 1, w, ts.len() as int));
    }
}

fn map_get(m: &HashMap<u32, u32>, k: u32) -> (r: Option<u32>)
    ensures
        r == (if m@.contains_key(k) { Some(m@[k]) } else { None::<u32> }),
{
    match m.get(&k) {
        Some(v) => Some(*v),
        None => None,
    }
}

/// The signatures of a token stream for the given base words (see
/// `signatures_spec`).
pub fn graph_signatures(tokens: &[Token7], window: usize, base: &HashMap<u32, u32>) -> (sig: HashMap<u32, u32>)
    requires
        tokens@.len() + window + 1 <= usize::MAX,
    ensures
        sig@ == signatures_spec(tokens@, window as int, base@),
{
    let n = tokens.len();
    let mut sig = base.clone();
    let mut i: usize = 0;
    while i < n
        invariant
            n == tokens@.len(),
            n + window + 1 <= usize::MAX,
            i <= n,
            sig@ == sig_upto(tokens@, window as int, base@, i as int),
        decreases n - i,
    {
        let lex = tokens[i].lex;
        if lex != 0 {
            let start = if i > window { i - window } else { 0 };
            let end = if i + window + 1 < n { i + window + 1 } else { n };
            let ghost m0 = sig@;
            let mut j: usize = start;
            while j < end
                invariant
                    n == tokens@.len(),
                    i < n,
                    lex == tokens@[i as int].lex,
                    start == window_start(i as int, window as int),
                    end == window_end(i as int, window as int, n as int),
                    start <= j <= end <= n,
                    sig@ == row_step(m0, tokens@, window as int, base@, i as int, j as int),
                decreases end - j,
            {
                let ctx = tokens[j].lex;
                if i != j && ctx != 0 {
                    let offset: u32 = if j < i { (i - j) as u32 } else { (j - i) as u32 };
                    match map_get(&sig, lex) {
                        Some(g) => {
                            match map_get(base, ctx) {
                                Some(b) => {
                                    sig.insert(lex, g ^ rotate_right(b, offset));
                                },
                                None => {},
                            }
                        },
                        None => {},
                    }
                }
                j += 1;
            }
        }
        i += 1;
    }
    sig
}

impl Compiler {
    /// Gives each root of the stream a signature: a random base word (from a
    /// generator seeded with 42, one word per root in order of first
    /// occurrence) folded with the rotated base words of the roots within
    /// `window` positions (see `signatures_spec`).
    pub fn build_graph(&mut self, tokens: &[Token7], window: usize)
        requires
            tokens@.len() + window + 1 <= usize::MAX,
        ensures
            final(self).graph@ == signatures_spec(
                tokens@,
                window as int,
                base_of(first_lexes(tokens@), seeded_words(42, first_lexes(tokens@).len())),
            ),
            forall|k: u32| final(self).graph@.contains_key(k) <==> first_lexes(tokens@).contains(k),
            final(self).lexicon == old(self).lexicon,
            final(self).roots == old(self).roots,
            final(self).next_id == old(self).next_id,
            final(self).base_path == old(self).base_path,
    {
        let mut firsts: Vec<u32> = Vec::new();
        let mut seen: HashMap<u32, u32> = HashMap::new();
        let mut i: usize = 0;
        assert(tokens@.take(0) =~= Seq::<Token7>::empty());
        while i < tokens.len()
            invariant
                i <= tokens@.len(),
                firsts@ == first_lexes(tokens@.take(i as int)),
                forall|k: u32| seen@.contains_key(k) <==> firsts@.contains(k),
            decreases tokens.len() - i,
        {
            let ghost f = firsts@;
            assert(tokens@.take(i + 1).drop_last() =~= tokens@.take(i as int));
            let lex = tokens[i].lex;
            if map_get(&seen, lex).is_none() {
                seen.insert(lex, 0);
                firsts.push(lex);
                proof {
                    assert forall|k: u32| seen@.contains_key(k) <==> firsts@.contains(k) by {
                        if firsts@.contains(k) && k != lex {
                            let q = choose|q: int| 0 <= q < firsts@.len() && firsts@[q] == k;
                            assert(f[q] == k);
                        }
                        if f.contains(k) {
                            let q = choose|q: int| 0 <= q < f.len() && f[q] == k;
                            assert(firsts@[q] == k);
                        }
                        assert(firsts@[f.len() as int] == lex);
                    }
                }
            }
            i += 1;
        }
        assert(tokens@.take(i as int) =~= tokens@);
        let words = seeded_u32s(42, firsts.len());
        let mut base: HashMap<u32, u32> = HashMap::new();
        let mut j: usize = 0;
        while j < firsts.len()
            invariant
                j <= firsts@.len(),
                words@.len() == firsts@.len(),
                base@ == insert_pairs(Map::empty(), Seq::new(j as nat, |k: int| (firsts@[k], words@[k]))),
                forall|k: u32| base@.contains_key(k) <==> firsts@.take(j as int).contains(k),
            decreases firsts@.len() - j,
        {
            let ghost t = firsts@.take(j as int);
            base.insert(firsts[j], words[j]);
            proof {
                assert(Seq::new((j + 1) as nat, |k: int| (firsts@[k], words@[k])).drop_last() =~= Seq::new(
                    j as nat,
                    |k: int| (firsts@[k], words@[k]),
                ));
                let t2 = firsts@.take(j + 1);
                assert forall|k: u32| base@.contains_key(k) <==> t2.contains(k) by {
                    if t2.contains(k) && k != firsts@[j as int] {
                        let q = choose|q: int| 0 <= q < t2.len() && t2[q] == k;
                        assert(t[q] == k);
                    }
                    if t.contains(k) {
                        let q = choose|q: int| 0 <= q < t.len() && t[q] == k;
                        assert(t2[q] == k);
                    }
                    assert(t2[j as int] == firsts@[j as int]);
                }
            }
            j += 1;
        }
        assert(firsts@.take(j as int) =~= firsts@);
        assert(Seq::new(firsts@.len(), |k: int| (firsts@[k], words@[k])) =~= Seq::new(
            first_lexes(tokens@).len(),
            |k: int| (first_lexes(tokens@)[k], seeded_words(42, first_lexes(tokens@).len())[k]),
        ));
        self.graph = graph_signatures(tokens, window, &base);
        proof {
            lemma_signatures_domain(tokens@, window as int, base@, tokens@.len() as int);
        }
    }
}

} // verus!
