//! Which counts of the grammar a training pass and a reinforcement touch:
//! for each token its class and graph signature, the lexical cascade from
//! the most specific key to the class alone, and the agreement of its
//! morphology and style with its head, its head's head, its predecessor
//! and its class.
use vstd::prelude::*;
use crate::amadeus_m::token7::{Token7, class_of};

verus! {

/// A count of the grammar, named by its table and keys.
#[derive(Debug, Clone, Copy, PartialEq, Eq, Structural)]
pub enum CountKey {
    /// A root's class (kept from the first token that has the root).
    RootClass(u32, u8),
    /// A root's graph signature (kept from the first non-zero one).
    RootGraph(u32, u32),
    /// Morphology, function and style to root.
    Lexicon(u16, u8, u16, u32),
    /// Class, function and style to root.
    ClassSynStyle(u8, u8, u16, u32),
    /// Class and function to root.
    ClassSyn(u8, u8, u32),
    /// Class and style to root.
    ClassStyle(u8, u16, u32),
    /// Class to root.
    Class(u8, u32),
    /// A head's morphology and style and the class, to morphology and style.
    Agreement(u16, u16, u8, u16, u16),
    /// The same from the head's head.
    Grandparent(u16, u16, u8, u16, u16),
    /// The class to morphology and style.
    AgreementClass(u8, u16, u16),
}

/// A position as a 16-bit signed number (positions from 32768 on wrap).
pub open spec fn pos16(i: int) -> int {
    (i as i16) as int
}

/// Every token's head offset, added to its position as a 16-bit signed
/// number, stays within `i16`.
pub open spec fn links_fit(ts: Seq<Token7>) -> bool {
    forall|i: int| 0 <= i < ts.len() ==> -32768 <= pos16(i) + (#[trigger] ts[i]).syn_off <= 32767
}

/// The position a token's head offset points to.
pub open spec fn head_at(ts: Seq<Token7>, i: int) -> int {
    pos16(i) + ts[i].syn_off
}

/// The head of token `i`, when it points inside the stream and elsewhere.
pub open spec fn has_head(ts: Seq<Token7>, i: int) -> bool {
    let h = head_at(ts, i);
    0 <= h < ts.len() && h != i
}

/// Whether every head offset fits (see `links_fit`).
pub fn links_fit_exec(ts: &[Token7]) -> (b: bool)
    ensures
        b == links_fit(ts@),
{
    let mut i: usize = 0;
    while i < ts.len()
        invariant
            i <= ts@.len(),
            forall|j: int| 0 <= j < i ==> -32768 <= pos16(j) + (#[trigger] ts@[j]).syn_off <= 32767,
        decreases ts.len() - i,
    {
        let h = (i as i16) as i32 + ts[i].syn_off as i32;
        if h < -32768 || h > 32767 {
            return false;
        }
        i += 1;
    }
    true
}

/// The lexical cascade of a token.
pub open spec fn lexical_keys(t: Token7) -> Seq<CountKey> {
    let c = class_of(t.morph);
    seq![
        CountKey::Lexicon(t.morph, t.syn_func, t.style, t.lex),
        CountKey::ClassSynStyle(c, t.syn_func, t.style, t.lex),
        CountKey::ClassSyn(c, t.syn_func, t.lex),
        CountKey::ClassStyle(c, t.style, t.lex),
        CountKey::Class(c, t.lex),
    ]
}

pub open spec fn agreement_with(from: Token7, t: Token7) -> CountKey {
    CountKey::Agreement(from.morph, from.style, class_of(t.morph), t.morph, t.style)
}

/// The agreement counts of token `i` (after the first): with its head and
/// its head's head when they are other tokens of the stream, with its
/// predecessor, and with its class.
pub open spec fn agreement_keys(ts: Seq<Token7>, i: int) -> Seq<CountKey> {
    let t = ts[i];
    let c = class_of(t.morph);
    let h = head_at(ts, i);
    let via_head = if has_head(ts, i) {
        let head = ts[h];
        let g = head_at(ts, h);
        seq![agreement_with(head, t)] + if 0 <= g < ts.len() && g != h && g != i {
            seq![CountKey::Grandparent(ts[g].morph, ts[g].style, c, t.morph, t.style)]
        } else {
            Seq::empty()
        }
    } else {
        Seq::empty()
    };
    via_head + seq![agreement_with(ts[i - 1], t), CountKey::AgreementClass(c, t.morph, t.style)]
}

/// The counts training adds one to for token `i`.
pub open spec fn train_keys_at(ts: Seq<Token7>, i: int) -> Seq<CountKey> {
    let t = ts[i];
    seq![CountKey::RootClass(t.lex, class_of(t.morph))] + (if t.graph != 0 {
        seq![CountKey::RootGraph(t.lex, t.graph)]
    } else {
        Seq::empty()
    }) + lexical_keys(t) + (if i > 0 {
        agreement_keys(ts, i)
    } else {
        Seq::empty()
    })
}

/// The counts training touches for the first `n` tokens, in order.
pub open spec fn train_keys(ts: Seq<Token7>, n: int) -> Seq<CountKey>
    decreases n,
{
    if n <= 0 {
        Seq::empty()
    } else {
        train_keys(ts, n - 1) + train_keys_at(ts, n - 1)
    }
}

/// The counts reinforcement touches for token `i` (after the first): its
/// lexical cascade, its head agreement when it has a head, and its
/// agreement with its predecessor.
pub open spec fn reinforce_keys_at(ts: Seq<Token7>, i: int) -> Seq<CountKey> {
    let t = ts[i];
    lexical_keys(t) + (if has_head(ts, i) {
        seq![agreement_with(ts[head_at(ts, i)], t)]
    } else {
        Seq::empty()
    }) + seq![agreement_with(ts[i - 1], t)]
}

pub open spec fn reinforce_keys(ts: Seq<Token7>, n: int) -> Seq<CountKey>
    decreases n,
{
    if n <= 1 {
        Seq::empty()
    } else {
        reinforce_keys(ts, n - 1) + reinforce_keys_at(ts, n - 1)
    }
}

fn push_lexical(out: &mut Vec<CountKey>, t: &Token7)
    ensures
        final(out)@ == old(out)@ + lexical_keys(*t),
{
    let c = t.morph_class();
    out.push(CountKey::Lexicon(t.morph, t.syn_func, t.style, t.lex));
    out.push(CountKey::ClassSynStyle(c, t.syn_func, t.style, t.lex));
    out.push(CountKey::ClassSyn(c, t.syn_func, t.lex));
    out.push(CountKey::ClassStyle(c, t.style, t.lex));
    out.push(CountKey::Class(c, t.lex));
    assert(out@ =~= old(out)@ + lexical_keys(*t));
}

/// The position token `i`'s head offset points to, when it is another
/// token of the stream.
fn head_index(ts: &[Token7], i: usize) -> (r: Option<usize>)
    requires
        links_fit(ts@),
        i < ts@.len(),
    ensures
        r matches Some(h) ==> has_head(ts@, i as int) && h == head_at(ts@, i as int),
        r is None ==> !has_head(ts@, i as int),
{
    assert(-32768 <= pos16(i as int) + ts@[i as int].syn_off <= 32767);
    let h = (i as i16) + ts[i].syn_off;
    if h >= 0 && (h as usize) < ts.len() && h as usize != i {
        Some(h as usize)
    } else {
        None
    }
}

/// The counts training adds one to, token by token (see `train_keys`).
pub fn train_counts(ts: &[Token7]) -> (out: Vec<CountKey>)
    requires
        links_fit(ts@),
    ensures
        out@ == train_keys(ts@, ts@.len() as int),
{
    let mut out: Vec<CountKey> = Vec::new();
    let mut i: usize = 0;
    while i < ts.len()
        invariant
            i <= ts@.len(),
            links_fit(ts@),
            out@ == train_keys(ts@, i as int),
        decreases ts.len() - i,
    {
        let ghost before = out@;
        let t = &ts[i];
        let c = t.morph_class();
        out.push(CountKey::RootClass(t.lex, c));
        if t.graph != 0 {
            out.push(CountKey::RootGraph(t.lex, t.graph));
        }
        push_lexical(&mut out, t);
        let ghost mid = out@;
        if i > 0 {
            if let Some(h) = head_index(ts, i) {
                let head = &ts[h];
                out.push(CountKey::Agreement(head.morph, head.style, c, t.morph, t.style));
                if let Some(g) = head_index(ts, h) {
                    if g != i {
                        let gp = &ts[g];
                        out.push(CountKey::Grandparent(gp.morph, gp.style, c, t.morph, t.style));
                    }
                }
            }
            let prev = &ts[i - 1];
            out.push(CountKey::Agreement(prev.morph, prev.style, c, t.morph, t.style));
            out.push(CountKey::AgreementClass(c, t.morph, t.style));
            assert(out@ =~= mid + agreement_keys(ts@, i as int));
        }
        assert(out@ =~= before + train_keys_at(ts@, i as int));
        i += 1;
    }
    out
}

/// The counts reinforcement touches, token by token from the second (see
/// `reinforce_keys`).
pub fn reinforce_counts(ts: &[Token7]) -> (out: Vec<CountKey>)
    requires
        links_fit(ts@),
    ensures
        out@ == reinforce_keys(ts@, ts@.len() as int),
{
    let mut out: Vec<CountKey> = Vec::new();
    if ts.len() == 0 {
        return out;
    }
    let mut i: usize = 1;
    while i < ts.len()
        invariant
            1 <= i <= ts@.len(),
            links_fit(ts@),
            out@ == reinforce_keys(ts@, i as int),
        decreases ts.len() - i,
    {
        let ghost before = out@;
        let t = &ts[i];
        let c = t.morph_class();
        push_lexical(&mut out, t);
        if let Some(h) = head_index(ts, i) {
            let head = &ts[h];
            out.push(CountKey::Agreement(head.morph, head.style, c, t.morph, t.style));
        }
        let prev = &ts[i - 1];
        out.push(CountKey::Agreement(prev.morph, prev.style, c, t.morph, t.style));
        assert(out@ =~= before + reinforce_keys_at(ts@, i as int));
        i += 1;
    }
    out
}

/// A lexical count made for token `t`: its morphology, class, syntactic
/// function, style and root in the fields each kind of count keeps.
pub open spec fn counts_token(k: CountKey, t: Token7) -> bool {
    match k {
        CountKey::Lexicon(m, f, s, l) => m == t.morph && f == t.syn_func && s == t.style && l == t.lex,
        CountKey::ClassSynStyle(c, f, s, l) => c == class_of(t.morph) && f == t.syn_func && s == t.style && l == t.lex,
        CountKey::ClassSyn(c, f, l) => c == class_of(t.morph) && f == t.syn_func && l == t.lex,
        CountKey::ClassStyle(c, s, l) => c == class_of(t.morph) && s == t.style && l == t.lex,
        CountKey::Class(c, l) => c == class_of(t.morph) && l == t.lex,
        _ => false,
    }
}

/// Whether a count is one of the lexical cascade's kinds.
pub open spec fn is_lexical(k: CountKey) -> bool {
    k is Lexicon || k is ClassSynStyle || k is ClassSyn || k is ClassStyle || k is Class
}

/// The per-token counts of token `i`: every lexical count among them is
/// one for that token, and the token's counts of each lexical kind are
/// among them.
proof fn lemma_keys_at_lexical(ts: Seq<Token7>, i: int)
    requires
        0 <= i < ts.len(),
    ensures
        ({
            let t = ts[i];
            let b = train_keys_at(ts, i);
            &&& forall|j: int| 0 <= j < b.len() && is_lexical(#[trigger] b[j]) ==> counts_token(b[j], t)
            &&& b.contains(CountKey::Lexicon(t.morph, t.syn_func, t.style, t.lex))
            &&& b.contains(CountKey::ClassSynStyle(class_of(t.morph), t.syn_func, t.style, t.lex))
            &&& b.contains(CountKey::ClassSyn(class_of(t.morph), t.syn_func, t.lex))
            &&& b.contains(CountKey::ClassStyle(class_of(t.morph), t.style, t.lex))
            &&& b.contains(CountKey::Class(class_of(t.morph), t.lex))
        }),
{
    let t = ts[i];
    let pre = seq![CountKey::RootClass(t.lex, class_of(t.morph))] + (if t.graph != 0 {
        seq![CountKey::RootGraph(t.lex, t.graph)]
    } else {
        Seq::empty()
    });
    let lex = lexical_keys(t);
    let agr = if i > 0 { agreement_keys(ts, i) } else { Seq::empty() };
    let b = train_keys_at(ts, i);
    assert(b == pre + lex + agr);
    assert forall|j: int| 0 <= j < agr.len() implies !is_lexical(agr[j]) by {
        if i > 0 {
            let c = class_of(t.morph);
            let h = head_at(ts, i);
            if has_head(ts, i) {
                let g = head_at(ts, h);
                if 0 <= g < ts.len() && g != h && g != i {
                    assert(agr == seq![agreement_with(ts[h], t)] + seq![CountKey::Grandparent(ts[g].morph, ts[g].style, c, t.morph, t.style)] + seq![agreement_with(ts[i - 1], t), CountKey::AgreementClass(c, t.morph, t.style)]);
                } else {
                    assert(agr == seq![agreement_with(ts[h], t)] + Seq::<CountKey>::empty() + seq![agreement_with(ts[i - 1], t), CountKey::AgreementClass(c, t.morph, t.style)]);
                }
            } else {
                assert(agr == Seq::<CountKey>::empty() + seq![agreement_with(ts[i - 1], t), CountKey::AgreementClass(c, t.morph, t.style)]);
            }
        }
    }
    assert forall|j: int| 0 <= j < pre.len() implies !is_lexical(pre[j]) by {
        if j > 0 {
            assert(pre[j] == CountKey::RootGraph(t.lex, t.graph));
        }
    }
    assert forall|j: int| 0 <= j < lex.len() implies counts_token(lex[j], t) by {}
    let o = pre.len() as int;
    assert(b[o] == lex[0]);
    assert(b[o + 1] == lex[1]);
    assert(b[o + 2] == lex[2]);
    assert(b[o + 3] == lex[3]);
    assert(b[o + 4] == lex[4]);
}

/// Training only extends what it counted for earlier tokens.
proof fn lemma_train_keys_prefix(ts: Seq<Token7>, m: int, n: int)
    requires
        0 <= m <= n,
    ensures
        train_keys(ts, m).len() <= train_keys(ts, n).len(),
        forall|j: int| 0 <= j < train_keys(ts, m).len() ==> train_keys(ts, n)[j] == train_keys(ts, m)[j],
    decreases n,
{
    if m < n {
        lemma_train_keys_prefix(ts, m, n - 1);
    }
}

proof fn lemma_train_lexical_sound(ts: Seq<Token7>, n: int)
    requires
        0 <= n <= ts.len(),
    ensures
        forall|k: CountKey|
            #[trigger] train_keys(ts, n).contains(k) && is_lexical(k) ==> exists|i: int|
                0 <= i < n && counts_token(k, ts[i]),
    decreases n,
{
    if n > 0 {
        lemma_train_lexical_sound(ts, n - 1);
        lemma_keys_at_lexical(ts, n - 1);
        let a = train_keys(ts, n - 1);
        let b = train_keys_at(ts, n - 1);
        assert(train_keys(ts, n) == a + b);
        assert forall|k: CountKey| #[trigger] train_keys(ts, n).contains(k) && is_lexical(k) implies exists|i: int|
            0 <= i < n && counts_token(k, ts[i]) by {
            let p = choose|p: int| 0 <= p < (a + b).len() && (a + b)[p] == k;
            if p < a.len() {
                assert(a[p] == k);
                assert(a.contains(k));
                let i = choose|i: int| 0 <= i < n - 1 && counts_token(k, ts[i]);
                assert(0 <= i < n);
            } else {
                assert(b[p - a.len()] == k);
                assert(counts_token(k, ts[n - 1]));
            }
        }
    }
}

/// Training counts every token's root under the token's own morphology,
/// class, syntactic function and style, one count of each lexical kind
/// (so the (class, function) count carries the token's syntactic
/// function), and every lexical count it makes is one of some token's.
pub proof fn lemma_train_lexical_counts(ts: Seq<Token7>)
    ensures
        forall|i: int|
            #![trigger ts[i]]
            0 <= i < ts.len() ==> {
                let t = ts[i];
                let out = train_keys(ts, ts.len() as int);
                &&& out.contains(CountKey::Lexicon(t.morph, t.syn_func, t.style, t.lex))
                &&& out.contains(CountKey::ClassSynStyle(class_of(t.morph), t.syn_func, t.style, t.lex))
                &&& out.contains(CountKey::ClassSyn(class_of(t.morph), t.syn_func, t.lex))
                &&& out.contains(CountKey::ClassStyle(class_of(t.morph), t.style, t.lex))
                &&& out.contains(CountKey::Class(class_of(t.morph), t.lex))
            },
        forall|k: CountKey|
            #[trigger] train_keys(ts, ts.len() as int).contains(k) && is_lexical(k) ==> exists|i: int|
                0 <= i < ts.len() && counts_token(k, ts[i]),
{
    let n = ts.len() as int;
    assert forall|i: int| #![trigger ts[i]] 0 <= i < n implies {
        let t = ts[i];
        let out = train_keys(ts, n);
        &&& out.contains(CountKey::Lexicon(t.morph, t.syn_func, t.style, t.lex))
        &&& out.contains(CountKey::ClassSynStyle(class_of(t.morph), t.syn_func, t.style, t.lex))
        &&& out.contains(CountKey::ClassSyn(class_of(t.morph), t.syn_func, t.lex))
        &&& out.contains(CountKey::ClassStyle(class_of(t.morph), t.style, t.lex))
        &&& out.contains(CountKey::Class(class_of(t.morph), t.lex))
    } by {
        let t = ts[i];
        lemma_keys_at_lexical(ts, i);
        lemma_train_keys_prefix(ts, i + 1, n);
        let a = train_keys(ts, i);
        let b = train_keys_at(ts, i);
        assert(train_keys(ts, i + 1) == a + b);
        assert forall|x: CountKey| b.contains(x) implies #[trigger] train_keys(ts, n).contains(x) by {
            let p = choose|p: int| 0 <= p < b.len() && b[p] == x;
            assert(train_keys(ts, i + 1)[a.len() as int + p] == x);
            assert(train_keys(ts, n)[a.len() as int + p] == x);
        }
    }
    lemma_train_lexical_sound(ts, n);
}

} // verus!
