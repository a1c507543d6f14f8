//! Syntax tree built from dependency-annotated tokens.
use vstd::prelude::*;
use crate::amadeus_m::token7::{Token7, class_of, CLASS_PONTUACAO, SYN_PREP};
use crate::text::{push_str, push_decimal, push_hex_padded, decimal, hex_padded};

verus! {

#[derive(Debug)]
pub enum SynNode {
    Clause { kind: ClauseKind, children: Vec<SynNode> },
    Phrase { function: u8, children: Vec<SynNode> },
    TokenLeaf { id: u32, morph: u16, syn_func: u8, class: u8 },
}

#[derive(Debug, Clone, Copy, PartialEq, Eq, Structural)]
pub enum ClauseKind {
    Main,
    Coordinated,
    Subordinated,
}

/// Mathematical view of a syntax node.
pub enum SynTree {
    Clause { kind: ClauseKind, children: Seq<SynTree> },
    Phrase { function: u8, children: Seq<SynTree> },
    TokenLeaf { id: u32, morph: u16, syn_func: u8, class: u8 },
}

pub open spec fn tree_of(n: SynNode) -> SynTree
    decreases n, 1int,
{
    match n {
        SynNode::Clause { kind, children } => SynTree::Clause { kind, children: trees_of(children@) },
        SynNode::Phrase { function, children } => SynTree::Phrase { function, children: trees_of(children@) },
        SynNode::TokenLeaf { id, morph, syn_func, class } => SynTree::TokenLeaf { id, morph, syn_func, class },
    }
}

pub open spec fn trees_of(s: Seq<SynNode>) -> Seq<SynTree>
    decreases s, 0int,
{
    if s.len() == 0 {
        Seq::empty()
    } else {
        trees_of(s.subrange(0, s.len() - 1)).push(tree_of(s[s.len() - 1]))
    }
}

/// The token ids at the leaves of a tree, left to right.
pub open spec fn tree_ids(t: SynTree) -> Seq<u32>
    decreases t, 1int,
{
    match t {
        SynTree::Clause { children, .. } => forest_ids(children),
        SynTree::Phrase { children, .. } => forest_ids(children),
        SynTree::TokenLeaf { id, .. } => seq![id],
    }
}

pub open spec fn forest_ids(s: Seq<SynTree>) -> Seq<u32>
    decreases s, 0int,
{
    if s.len() == 0 {
        Seq::empty()
    } else {
        forest_ids(s.subrange(0, s.len() - 1)) + tree_ids(s[s.len() - 1])
    }
}

/// The leaf for a token.
pub open spec fn leaf_of(t: Token7) -> SynTree {
    SynTree::TokenLeaf { id: t.lex, morph: t.morph, syn_func: t.syn_func, class: class_of(t.morph) }
}

pub open spec fn leaves_of(ts: Seq<Token7>) -> Seq<SynTree> {
    ts.map_values(|t: Token7| leaf_of(t))
}

/// Splits a token sequence into clauses: each punctuation token is a clause
/// of its own, and each maximal run of other tokens is a clause.
pub open spec fn split_spec(ts: Seq<Token7>) -> Seq<Seq<Token7>> {
    let (done, cur) = split_fold(ts);
    if cur.len() > 0 { done.push(cur) } else { done }
}

/// Clauses completed so far, and the clause still being read.
pub open spec fn split_fold(ts: Seq<Token7>) -> (Seq<Seq<Token7>>, Seq<Token7>)
    decreases ts.len(),
{
    if ts.len() == 0 {
        (Seq::empty(), Seq::empty())
    } else {
        let (done, cur) = split_fold(ts.drop_last());
        let t = ts.last();
        if class_of(t.morph) == CLASS_PONTUACAO {
            let done1 = if cur.len() > 0 { done.push(cur) } else { done };
            (done1.push(seq![t]), Seq::empty())
        } else {
            (done, cur.push(t))
        }
    }
}

/// State of phrase grouping inside a clause: finished phrases, the function
/// of the open phrase (0 when none is open), and the open phrase's tokens.
pub type GroupState = (Seq<SynTree>, u8, Seq<Token7>);

/// Closes the open phrase, if it has tokens.
pub open spec fn flush_spec(st: GroupState) -> GroupState {
    if st.2.len() == 0 {
        st
    } else {
        (st.0.push(SynTree::Phrase { function: st.1, children: leaves_of(st.2) }), 0, Seq::empty())
    }
}

/// Reads one token: a preposition always opens a new phrase; a token whose
/// function matches the open phrase (or when none is open) joins it; any
/// other token closes the open phrase and opens a new one.
pub open spec fn group_step(st: GroupState, t: Token7) -> GroupState {
    let syn = t.syn_func;
    if syn == SYN_PREP {
        let f = flush_spec(st);
        (f.0, SYN_PREP, f.2.push(t))
    } else if syn == st.1 || st.1 == 0 {
        (st.0, syn, st.2.push(t))
    } else {
        let f = flush_spec(st);
        (f.0, syn, f.2.push(t))
    }
}

pub open spec fn group_fold(ts: Seq<Token7>) -> GroupState
    decreases ts.len(),
{
    if ts.len() == 0 {
        (Seq::empty(), 0, Seq::empty())
    } else {
        group_step(group_fold(ts.drop_last()), ts.last())
    }
}

/// The tree of one clause.
pub open spec fn clause_spec(c: Seq<Token7>) -> SynTree {
    if c.len() == 1 && class_of(c[0].morph) == CLASS_PONTUACAO {
        SynTree::Phrase { function: c[0].syn_func, children: seq![leaf_of(c[0])] }
    } else {
        SynTree::Clause { kind: ClauseKind::Main, children: flush_spec(group_fold(c)).0 }
    }
}

/// The tree of a token sequence: a main clause over the trees of its clauses.
pub open spec fn ast_spec(ts: Seq<Token7>) -> SynTree {
    SynTree::Clause { kind: ClauseKind::Main, children: split_spec(ts).map_values(|c: Seq<Token7>| clause_spec(c)) }
}

proof fn lemma_trees_of(s: Seq<SynNode>)
    ensures
        trees_of(s).len() == s.len(),
        forall|i: int| 0 <= i < s.len() ==> #[trigger] trees_of(s)[i] == tree_of(s[i]),
    decreases s.len(),
{
    if s.len() > 0 {
        lemma_trees_of(s.subrange(0, s.len() - 1));
    }
}

proof fn lemma_trees_of_push(s: Seq<SynNode>, x: SynNode)
    ensures
        trees_of(s.push(x)) == trees_of(s).push(tree_of(x)),
{
    assert(s.push(x).subrange(0, s.len() as int) =~= s);
}

proof fn lemma_forest_ids_push(s: Seq<SynTree>, x: SynTree)
    ensures
        forest_ids(s.push(x)) == forest_ids(s) + tree_ids(x),
{
    assert(s.push(x).subrange(0, s.len() as int) =~= s);
}

proof fn lemma_trees_eq(a: Seq<SynNode>, t: Seq<SynTree>)
    requires
        a.len() == t.len(),
        forall|i: int| 0 <= i < a.len() ==> tree_of(#[trigger] a[i]) == t[i],
    ensures
        trees_of(a) == t,
{
    lemma_trees_of(a);
    assert(trees_of(a) =~= t);
}

/// The lexical roots of a token sequence.
pub open spec fn lexes(ts: Seq<Token7>) -> Seq<u32> {
    ts.map_values(|t: Token7| t.lex)
}

proof fn lemma_leaves_ids(ts: Seq<Token7>)
    ensures
        forest_ids(leaves_of(ts)) == lexes(ts),
    decreases ts.len(),
{
    if ts.len() > 0 {
        let p = ts.drop_last();
        lemma_leaves_ids(p);
        assert(leaves_of(ts) =~= leaves_of(p).push(leaf_of(ts.last())));
        lemma_forest_ids_push(leaves_of(p), leaf_of(ts.last()));
        assert(lexes(ts) =~= lexes(p).push(ts.last().lex));
        assert(tree_ids(leaf_of(ts.last())) =~= seq![ts.last().lex]);
    } else {
        assert(lexes(ts) =~= Seq::<u32>::empty());
        assert(leaves_of(ts) =~= Seq::<SynTree>::empty());
    }
}

proof fn lemma_flush_ids(st: GroupState)
    ensures
        forest_ids(flush_spec(st).0) + lexes(flush_spec(st).2) == forest_ids(st.0) + lexes(st.2),
{
    if st.2.len() > 0 {
        let node = SynTree::Phrase { function: st.1, children: leaves_of(st.2) };
        lemma_forest_ids_push(st.0, node);
        lemma_leaves_ids(st.2);
        assert(lexes(Seq::<Token7>::empty()) =~= Seq::<u32>::empty());
        assert(forest_ids(flush_spec(st).0) + lexes(flush_spec(st).2) =~= forest_ids(st.0) + lexes(st.2));
    }
}

proof fn lemma_group_ids(ts: Seq<Token7>)
    ensures
        forest_ids(group_fold(ts).0) + lexes(group_fold(ts).2) == lexes(ts),
    decreases ts.len(),
{
    if ts.len() == 0 {
        assert(lexes(ts) =~= Seq::<u32>::empty());
        assert(forest_ids(Seq::<SynTree>::empty()) + lexes(Seq::<Token7>::empty()) =~= Seq::<u32>::empty());
    } else {
        let p = ts.drop_last();
        let t = ts.last();
        lemma_group_ids(p);
        let st = group_fold(p);
        lemma_flush_ids(st);
        let f = flush_spec(st);
        assert(lexes(ts) =~= lexes(p).push(t.lex));
        assert(lexes(f.2.push(t)) =~= lexes(f.2).push(t.lex));
        assert(lexes(st.2.push(t)) =~= lexes(st.2).push(t.lex));
        assert(forest_ids(f.0) + lexes(f.2).push(t.lex) =~= (forest_ids(f.0) + lexes(f.2)).push(t.lex));
        assert(forest_ids(st.0) + lexes(st.2).push(t.lex) =~= (forest_ids(st.0) + lexes(st.2)).push(t.lex));
    }
}

proof fn lemma_clause_ids(c: Seq<Token7>)
    ensures
        tree_ids(clause_spec(c)) == lexes(c),
{
    if c.len() == 1 && class_of(c[0].morph) == CLASS_PONTUACAO {
        let l = leaf_of(c[0]);
        lemma_forest_ids_push(Seq::<SynTree>::empty(), l);
        assert(seq![l] =~= Seq::<SynTree>::empty().push(l));
        assert(lexes(c) =~= seq![c[0].lex]);
        assert(forest_ids(Seq::<SynTree>::empty()) + tree_ids(l) =~= seq![c[0].lex]);
    } else {
        lemma_group_ids(c);
        lemma_flush_ids(group_fold(c));
        assert(lexes(Seq::<Token7>::empty()) =~= Seq::<u32>::empty());
        let f = flush_spec(group_fold(c));
        assert(f.2.len() == 0);
        assert(forest_ids(f.0) + lexes(f.2) =~= forest_ids(f.0));
    }
}

proof fn lemma_split_ids(ts: Seq<Token7>)
    ensures
        forest_ids(split_fold(ts).0.map_values(|c: Seq<Token7>| clause_spec(c))) + lexes(split_fold(ts).1) == lexes(ts),
    decreases ts.len(),
{
    let cs = |c: Seq<Token7>| clause_spec(c);
    if ts.len() == 0 {
        assert(lexes(ts) =~= Seq::<u32>::empty());
        assert(split_fold(ts).0.map_values(cs) =~= Seq::<SynTree>::empty());
        assert(forest_ids(Seq::<SynTree>::empty()) + lexes(Seq::<Token7>::empty()) =~= Seq::<u32>::empty());
    } else {
        let p = ts.drop_last();
        let t = ts.last();
        lemma_split_ids(p);
        let (done, cur) = split_fold(p);
        assert(lexes(ts) =~= lexes(p).push(t.lex));
        if class_of(t.morph) == CLASS_PONTUACAO {
            let done1 = if cur.len() > 0 { done.push(cur) } else { done };
            if cur.len() > 0 {
                assert(done.push(cur).map_values(cs) =~= done.map_values(cs).push(clause_spec(cur)));
                lemma_forest_ids_push(done.map_values(cs), clause_spec(cur));
                lemma_clause_ids(cur);
            } else {
                assert(lexes(cur) =~= Seq::<u32>::empty());
            }
            assert(forest_ids(done1.map_values(cs)) == forest_ids(done.map_values(cs)) + lexes(cur)) by {
                if cur.len() == 0 {
                    assert(forest_ids(done.map_values(cs)) + lexes(cur) =~= forest_ids(done.map_values(cs)));
                }
            }
            assert(done1.push(seq![t]).map_values(cs) =~= done1.map_values(cs).push(clause_spec(seq![t])));
            lemma_forest_ids_push(done1.map_values(cs), clause_spec(seq![t]));
            lemma_clause_ids(seq![t]);
            assert(lexes(seq![t]) =~= seq![t.lex]);
            assert(lexes(Seq::<Token7>::empty()) =~= Seq::<u32>::empty());
            assert(forest_ids(done1.push(seq![t]).map_values(cs)) + lexes(Seq::<Token7>::empty()) =~= lexes(ts));
        } else {
            assert(lexes(cur.push(t)) =~= lexes(cur).push(t.lex));
            assert(forest_ids(done.map_values(cs)) + lexes(cur).push(t.lex) =~= (forest_ids(done.map_values(cs)) + lexes(cur)).push(t.lex));
        }
    }
}

/// The leaves of the syntax tree of a token sequence are its tokens' roots,
/// in order: building the tree loses and reorders nothing.
pub proof fn lemma_ast_preserves_tokens(ts: Seq<Token7>)
    ensures
        tree_ids(ast_spec(ts)) == lexes(ts),
{
    let cs = |c: Seq<Token7>| clause_spec(c);
    lemma_split_ids(ts);
    let (done, cur) = split_fold(ts);
    if cur.len() > 0 {
        assert(done.push(cur).map_values(cs) =~= done.map_values(cs).push(clause_spec(cur)));
        lemma_forest_ids_push(done.map_values(cs), clause_spec(cur));
        lemma_clause_ids(cur);
    } else {
        assert(lexes(cur) =~= Seq::<u32>::empty());
        assert(forest_ids(done.map_values(cs)) + lexes(cur) =~= forest_ids(done.map_values(cs)));
    }
}

impl SynNode {
    /// The token ids at the leaves, left to right.
    pub fn collect_ids(&self) -> (ids: Vec<u32>)
        ensures
            ids@ == tree_ids(tree_of(*self)),
        decreases self,
    {
        let children: &Vec<SynNode> = match self {
            SynNode::TokenLeaf { id, .. } => {
                let v = vec![*id];
                assert(v@ =~= seq![*id]);
                return v;
            },
            SynNode::Phrase { children, .. } => children,
            SynNode::Clause { children, .. } => children,
        };
        assert(tree_ids(tree_of(*self)) == forest_ids(trees_of(children@)));
        let mut ids: Vec<u32> = Vec::new();
        let n = children.len();
        let mut i: usize = 0;
        assert(children@.take(0) =~= Seq::<SynNode>::empty());
        while i < n
            invariant
                n == children@.len(),
                i <= n,
                ids@ == forest_ids(trees_of(children@.take(i as int))),
                (self is Phrase && *children == self->Phrase_children) || (self is Clause && *children
                    == self->Clause_children),
            decreases n - i,
        {
            let c = &children[i];
            proof {
                assert(decreases_to!(children@ => children@[i as int]));
                assert(decreases_to!(*children => children@));
                if self is Phrase {
                    assert(decreases_to!(*self => self->Phrase_children));
                } else {
                    assert(decreases_to!(*self => self->Clause_children));
                }
            }
            let mut sub = c.collect_ids();
            proof {
                assert(children@.take(i + 1) =~= children@.take(i as int).push(children@[i as int]));
                lemma_trees_of_push(children@.take(i as int), children@[i as int]);
                lemma_forest_ids_push(trees_of(children@.take(i as int)), tree_of(children@[i as int]));
            }
            ids.append(&mut sub);
            i += 1;
        }
        assert(children@.take(n as int) =~= children@);
        ids
    }
}

fn leaf(t: Token7) -> (n: SynNode)
    ensures
        tree_of(n) == leaf_of(t),
{
    SynNode::TokenLeaf { id: t.lex, morph: t.morph, syn_func: t.syn_func, class: t.morph_class() }
}

fn leaves(ts: &Vec<Token7>) -> (v: Vec<SynNode>)
    ensures
        trees_of(v@) == leaves_of(ts@),
{
    let mut v: Vec<SynNode> = Vec::new();
    let n = ts.len();
    let mut i: usize = 0;
    while i < n
        invariant
            n == ts@.len(),
            i <= n,
            v@.len() == i,
            forall|k: int| 0 <= k < i ==> tree_of(#[trigger] v@[k]) == leaf_of(ts@[k]),
        decreases n - i,
    {
        v.push(leaf(ts[i]));
        i += 1;
    }
    proof {
        lemma_trees_eq(v@, leaves_of(ts@));
    }
    v
}

fn split_clauses(tokens: &[Token7]) -> (r: Vec<Vec<Token7>>)
    ensures
        r@.map_values(|c: Vec<Token7>| c@) == split_spec(tokens@),
{
    let mut clauses: Vec<Vec<Token7>> = Vec::new();
    let mut current: Vec<Token7> = Vec::new();
    let n = tokens.len();
    let mut i: usize = 0;
    assert(tokens@.take(0) =~= Seq::<Token7>::empty());
    assert(clauses@.map_values(|c: Vec<Token7>| c@) =~= Seq::<Seq<Token7>>::empty());
    while i < n
        invariant
            n == tokens@.len(),
            i <= n,
            (clauses@.map_values(|c: Vec<Token7>| c@), current@) == split_fold(tokens@.take(i as int)),
        decreases n - i,
    {
        let t = tokens[i];
        assert(tokens@.take(i + 1).drop_last() =~= tokens@.take(i as int));
        let ghost before = clauses@;
        if t.morph_class() == CLASS_PONTUACAO {
            if current.len() > 0 {
                let ghost cur = current@;
                clauses.push(current);
                current = Vec::new();
                assert(clauses@.map_values(|c: Vec<Token7>| c@) =~= before.map_values(|c: Vec<Token7>| c@).push(cur));
            }
            let ghost before2 = clauses@;
            let single = vec![t];
            assert(single@ =~= seq![t]);
            clauses.push(single);
            assert(clauses@.map_values(|c: Vec<Token7>| c@) =~= before2.map_values(|c: Vec<Token7>| c@).push(seq![t]));
        } else {
            current.push(t);
        }
        i += 1;
    }
    assert(tokens@.take(n as int) =~= tokens@);
    if current.len() > 0 {
        let ghost before = clauses@;
        let ghost cur = current@;
        clauses.push(current);
        assert(clauses@.map_values(|c: Vec<Token7>| c@) =~= before.map_values(|c: Vec<Token7>| c@).push(cur));
    }
    clauses
}

fn flush_phrase(phrases: &mut Vec<SynNode>, syn: &mut u8, tokens: &mut Vec<Token7>)
    ensures
        (trees_of(final(phrases)@), *final(syn), final(tokens)@) == flush_spec((trees_of(old(phrases)@), *old(syn), old(tokens)@)),
{
    if tokens.len() == 0 {
        return;
    }
    let children = leaves(tokens);
    let node = SynNode::Phrase { function: *syn, children };
    proof {
        lemma_trees_of_push(phrases@, node);
    }
    phrases.push(node);
    *syn = 0;
    tokens.clear();
}

fn build_clause(tokens: Vec<Token7>) -> (n: SynNode)
    ensures
        tree_of(n) == clause_spec(tokens@),
{
    if tokens.len() == 1 {
        let t = tokens[0];
        if t.morph_class() == CLASS_PONTUACAO {
            let children = vec![leaf(t)];
            proof {
                lemma_trees_eq(children@, seq![leaf_of(t)]);
            }
            return SynNode::Phrase { function: t.syn_func, children };
        }
    }
    let mut phrases: Vec<SynNode> = Vec::new();
    let mut current_syn: u8 = 0;
    let mut current_tokens: Vec<Token7> = Vec::new();
    let n = tokens.len();
    let mut i: usize = 0;
    assert(tokens@.take(0) =~= Seq::<Token7>::empty());
    assert(trees_of(phrases@) =~= Seq::<SynTree>::empty());
    while i < n
        invariant
            n == tokens@.len(),
            i <= n,
            (trees_of(phrases@), current_syn, current_tokens@) == group_fold(tokens@.take(i as int)),
        decreases n - i,
    {
        let t = tokens[i];
        assert(tokens@.take(i + 1).drop_last() =~= tokens@.take(i as int));
        let syn = t.syn_func;
        if syn == SYN_PREP {
            if current_tokens.len() > 0 {
                flush_phrase(&mut phrases, &mut current_syn, &mut current_tokens);
            }
            current_tokens.push(t);
            current_syn = SYN_PREP;
        } else if syn == current_syn || current_syn == 0 {
            current_tokens.push(t);
            current_syn = syn;
        } else {
            flush_phrase(&mut phrases, &mut current_syn, &mut current_tokens);
            current_tokens.push(t);
            current_syn = syn;
        }
        i += 1;
    }
    assert(tokens@.take(n as int) =~= tokens@);
    flush_phrase(&mut phrases, &mut current_syn, &mut current_tokens);
    SynNode::Clause { kind: ClauseKind::Main, children: phrases }
}

/// Builds the syntax tree of a token sequence: a main clause whose children
/// are the trees of its clauses (see `split_spec` and `clause_spec`).
pub fn build_ast(tokens: &[Token7]) -> (n: SynNode)
    ensures
        tree_of(n) == ast_spec(tokens@),
{
    let clauses = split_clauses(tokens);
    let ghost cs = clauses@.map_values(|c: Vec<Token7>| c@);
    let mut children: Vec<SynNode> = Vec::new();
    let mut clauses = clauses;
    let ghost all = clauses@;
    let m = clauses.len();
    let mut i: usize = 0;
    while i < m
        invariant
            m == all.len(),
            clauses@.len() == m - i,
            forall|k: int| 0 <= k < clauses@.len() ==> #[trigger] clauses@[k] == all[i + k],
            cs == all.map_values(|c: Vec<Token7>| c@),
            i <= m,
            children@.len() == i,
            forall|k: int| 0 <= k < i ==> tree_of(#[trigger] children@[k]) == clause_spec(cs[k]),
        decreases m - i,
    {
        let c = clauses.remove(0);
        children.push(build_clause(c));
        i += 1;
    }
    proof {
        lemma_trees_eq(children@, cs.map_values(|c: Seq<Token7>| clause_spec(c)));
    }
    SynNode::Clause { kind: ClauseKind::Main, children }
}

/// The short name of a syntactic function code.
pub open spec fn syn_name_spec(code: u8) -> Seq<char> {
    if code == 0 { "S"@ }
    else if code == 1 { "OD"@ }
    else if code == 2 { "OI"@ }
    else if code == 3 { "ADV"@ }
    else if code == 4 { "NUC"@ }
    else if code == 5 { "ADN"@ }
    else if code == 6 { "PREP"@ }
    else if code == 7 { "PRED"@ }
    else { "?"@ }
}

fn syn_name(code: u8) -> (r: &'static str)
    ensures
        r@ == syn_name_spec(code),
{
    match code {
        0 => "S",
        1 => "OD",
        2 => "OI",
        3 => "ADV",
        4 => "NUC",
        5 => "ADN",
        6 => "PREP",
        7 => "PRED",
        _ => "?",
    }
}

pub open spec fn clause_tag(kind: ClauseKind) -> Seq<char> {
    match kind {
        ClauseKind::Main => "ORACAO PRINCIPAL"@,
        ClauseKind::Coordinated => "ORACAO COORDENADA"@,
        ClauseKind::Subordinated => "ORACAO SUBORDINADA"@,
    }
}

/// `s` repeated `n` times.
pub open spec fn repeat(s: Seq<char>, n: nat) -> Seq<char>
    decreases n,
{
    if n == 0 { Seq::empty() } else { repeat(s, (n - 1) as nat) + s }
}

/// The number of edges on the longest path from a node down to a leaf.
pub open spec fn tree_height(t: SynTree) -> nat
    decreases t, 1int,
{
    match t {
        SynTree::Clause { children, .. } => 1 + forest_height(children),
        SynTree::Phrase { children, .. } => 1 + forest_height(children),
        SynTree::TokenLeaf { .. } => 0,
    }
}

pub open spec fn forest_height(s: Seq<SynTree>) -> nat
    decreases s, 0int,
{
    if s.len() == 0 {
        0
    } else {
        let a = forest_height(s.subrange(0, s.len() - 1));
        let b = tree_height(s[s.len() - 1]);
        if a >= b { a } else { b }
    }
}

/// The indented text of a tree: one line per node, each prefixed by
/// `depth` copies of "│ "; clauses show their kind, phrases their function,
/// leaves their function, id, class and morphology in hexadecimal.
pub open spec fn format_spec(t: SynTree, depth: nat) -> Seq<char>
    decreases t, 1int,
{
    let prefix = repeat("│ "@, depth);
    match t {
        SynTree::Clause { kind, children } => prefix + clause_tag(kind) + "\n"@ + format_forest(children, depth + 1),
        SynTree::Phrase { function, children } => prefix + syn_name_spec(function) + "\n"@ + format_forest(children, depth + 1),
        SynTree::TokenLeaf { id, morph, syn_func, class } => prefix + "┬── ["@ + syn_name_spec(syn_func) + "] id="@
            + decimal(id as nat) + " class="@ + decimal(class as nat) + " morph=0x"@ + hex_padded(morph as nat, 4)
            + "\n"@,
    }
}

pub open spec fn format_forest(s: Seq<SynTree>, depth: nat) -> Seq<char>
    decreases s, 0int,
{
    if s.len() == 0 {
        Seq::empty()
    } else {
        format_forest(s.subrange(0, s.len() - 1), depth) + format_spec(s[s.len() - 1], depth)
    }
}

proof fn lemma_format_forest_push(s: Seq<SynTree>, x: SynTree, depth: nat)
    ensures
        format_forest(s.push(x), depth) == format_forest(s, depth) + format_spec(x, depth),
{
    assert(s.push(x).subrange(0, s.len() as int) =~= s);
}

proof fn lemma_forest_height(s: Seq<SynTree>, i: int)
    requires
        0 <= i < s.len(),
    ensures
        tree_height(s[i]) <= forest_height(s),
    decreases s.len(),
{
    if i < s.len() - 1 {
        lemma_forest_height(s.subrange(0, s.len() - 1), i);
    }
}

fn format_tree_simple(node: &SynNode, depth: usize) -> (out: String)
    requires
        depth + tree_height(tree_of(*node)) < usize::MAX,
    ensures
        out@ == format_spec(tree_of(*node), depth as nat),
    decreases node,
{
    let mut out = String::new();
    let mut k: usize = 0;
    while k < depth
        invariant
            k <= depth,
            out@ == repeat("│ "@, k as nat),
        decreases depth - k,
    {
        push_str(&mut out, "│ ");
        k += 1;
    }
    let (children, name): (&Vec<SynNode>, &str) = match node {
        SynNode::TokenLeaf { id, morph, syn_func, class } => {
            push_str(&mut out, "┬── [");
            push_str(&mut out, syn_name(*syn_func));
            push_str(&mut out, "] id=");
            push_decimal(&mut out, *id as u64);
            push_str(&mut out, " class=");
            push_decimal(&mut out, *class as u64);
            push_str(&mut out, " morph=0x");
            push_hex_padded(&mut out, *morph as u64, 4);
            push_str(&mut out, "\n");
            return out;
        },
        SynNode::Clause { kind, children } => {
            let tag = match kind {
                ClauseKind::Main => "ORACAO PRINCIPAL",
                ClauseKind::Coordinated => "ORACAO COORDENADA",
                ClauseKind::Subordinated => "ORACAO SUBORDINADA",
            };
            (children, tag)
        },
        SynNode::Phrase { function, children } => (children, syn_name(*function)),
    };
    push_str(&mut out, name);
    push_str(&mut out, "\n");
    let ghost head = out@;
    let ghost kids = trees_of(children@);
    proof {
        lemma_trees_of(children@);
    }
    let n = children.len();
    let mut i: usize = 0;
    assert(children@.take(0) =~= Seq::<SynNode>::empty());
    while i < n
        invariant
            n == children@.len(),
            i <= n,
            kids == trees_of(children@),
            kids.len() == n,
            forall|j: int| 0 <= j < n ==> #[trigger] kids[j] == tree_of(children@[j]),
            depth + 1 + forest_height(kids) < usize::MAX,
            out@ == head + format_forest(kids.take(i as int), (depth + 1) as nat),
            (node is Phrase && *children == node->Phrase_children) || (node is Clause && *children
                == node->Clause_children),
        decreases n - i,
    {
        proof {
            assert(decreases_to!(children@ => children@[i as int]));
            assert(decreases_to!(*children => children@));
            if node is Phrase {
                assert(decreases_to!(*node => node->Phrase_children));
            } else {
                assert(decreases_to!(*node => node->Clause_children));
            }
            lemma_forest_height(kids, i as int);
            assert(kids.take(i + 1) =~= kids.take(i as int).push(kids[i as int]));
            lemma_format_forest_push(kids.take(i as int), kids[i as int], (depth + 1) as nat);
        }
        let sub = format_tree_simple(&children[i], depth + 1);
        push_str(&mut out, sub.as_str());
        i += 1;
    }
    assert(kids.take(n as int) =~= kids);
    out
}

proof fn lemma_ast_height(ts: Seq<Token7>)
    ensures
        tree_height(ast_spec(ts)) <= 3,
{
    let cs = split_spec(ts).map_values(|c: Seq<Token7>| clause_spec(c));
    assert forall|i: int| 0 <= i < cs.len() implies tree_height(#[trigger] cs[i]) <= 2 by {
        let c = split_spec(ts)[i];
        if c.len() == 1 && class_of(c[0].morph) == CLASS_PONTUACAO {
            lemma_forest_height_bound(seq![leaf_of(c[0])], 0);
        } else {
            let ph = flush_spec(group_fold(c)).0;
            lemma_phrases_height(c);
            lemma_forest_height_bound(ph, 1);
        }
    }
    lemma_forest_height_bound(cs, 2);
}

proof fn lemma_forest_height_bound(s: Seq<SynTree>, h: nat)
    requires
        forall|i: int| 0 <= i < s.len() ==> tree_height(#[trigger] s[i]) <= h,
    ensures
        forest_height(s) <= h,
    decreases s.len(),
{
    if s.len() > 0 {
        lemma_forest_height_bound(s.subrange(0, s.len() - 1), h);
    }
}

proof fn lemma_leaves_height(ts: Seq<Token7>)
    ensures
        forest_height(leaves_of(ts)) == 0,
{
    lemma_forest_height_bound(leaves_of(ts), 0);
}

proof fn lemma_phrases_height(c: Seq<Token7>)
    ensures
        forall|i: int| 0 <= i < flush_spec(group_fold(c)).0.len() ==> tree_height(#[trigger] flush_spec(group_fold(c)).0[i]) <= 1,
{
    lemma_group_height(c);
    let st = group_fold(c);
    if st.2.len() > 0 {
        lemma_leaves_height(st.2);
    }
}

proof fn lemma_group_height(c: Seq<Token7>)
    ensures
        forall|i: int| 0 <= i < group_fold(c).0.len() ==> tree_height(#[trigger] group_fold(c).0[i]) <= 1,
    decreases c.len(),
{
    if c.len() > 0 {
        let p = c.drop_last();
        lemma_group_height(p);
        let st = group_fold(p);
        if st.2.len() > 0 {
            lemma_leaves_height(st.2);
        }
    }
}

/// The indented text of the syntax tree of a token sequence, under a title line.
pub fn display_ast(tokens: &[Token7]) -> (out: String)
    ensures
        out@ == "─── AST Sintático ───\n"@ + format_spec(ast_spec(tokens@), 0),
{
    let ast = build_ast(tokens);
    proof {
        lemma_ast_height(tokens@);
    }
    let mut out = String::new();
    push_str(&mut out, "─── AST Sintático ───\n");
    let body = format_tree_simple(&ast, 0);
    push_str(&mut out, body.as_str());
    out
}

} // verus!
