//! Dependency assignment: gives each token a head offset and a syntactic function.
use vstd::prelude::*;
use crate::amadeus_m::token7::{
    Token7, class_of, CLASS_SUBSTANTIVO, CLASS_VERBO, CLASS_ADJETIVO, CLASS_ARTIGO, CLASS_PREPOSICAO,
    CLASS_PONTUACAO, SYN_ROOT, SYN_SUJEITO, SYN_OD, SYN_OI, SYN_ADV, SYN_ADN, SYN_PREP, SYN_PRED,
};

verus! {

/// The word class of each token.
pub open spec fn classes(ts: Seq<Token7>) -> Seq<u8> {
    ts.map_values(|t: Token7| class_of(t.morph))
}

/// The first index whose class is `c`, if any.
pub open spec fn first_of_class(cls: Seq<u8>, c: u8) -> Option<int> {
    if exists|j: int| 0 <= j < cls.len() && cls[j] == c {
        Some(choose|j: int| 0 <= j < cls.len() && cls[j] == c && forall|k: int| 0 <= k < j ==> cls[k] != c)
    } else {
        None
    }
}

/// The root of a sentence: its first verb, or its first token when it has no verb.
pub open spec fn root_index(cls: Seq<u8>) -> int {
    match first_of_class(cls, CLASS_VERBO) {
        Some(j) => j,
        None => 0,
    }
}

pub open spec fn abs_int(x: int) -> int {
    if x < 0 { -x } else { x }
}

/// Index `j` is a candidate head of class `c` for the token at `from`.
pub open spec fn is_candidate(cls: Seq<u8>, from: int, c: u8, j: int) -> bool {
    0 <= j < cls.len() && cls[j] == c && j != from
}

/// Among the candidates below `lim`, `j` is the nearest to `from`, and the
/// leftmost of those at that distance.
pub open spec fn is_nearest_below(cls: Seq<u8>, from: int, c: u8, j: int, lim: int) -> bool {
    &&& j < lim
    &&& is_candidate(cls, from, c, j)
    &&& forall|k: int| #![trigger cls[k]] 0 <= k < lim && is_candidate(cls, from, c, k) ==> abs_int(j - from) < abs_int(k - from)
        || (abs_int(j - from) == abs_int(k - from) && j <= k)
}

/// The offset from `from` to its nearest token of class `c` (the leftmost at
/// the smallest distance), if any.
#[verifier::opaque]
pub open spec fn nearest_offset(cls: Seq<u8>, from: int, c: u8) -> Option<int> {
    if exists|j: int| is_candidate(cls, from, c, j) {
        Some((choose|j: int| is_nearest_below(cls, from, c, j, cls.len() as int)) - from)
    } else {
        None
    }
}

/// The first noun to the right of `i`, if any.
#[verifier::opaque]
pub open spec fn next_noun(cls: Seq<u8>, i: int) -> Option<int> {
    if exists|j: int| i < j < cls.len() && cls[j] == CLASS_SUBSTANTIVO {
        Some(choose|j: int| i < j < cls.len() && cls[j] == CLASS_SUBSTANTIVO && forall|k: int| i < k < j ==> cls[k] != CLASS_SUBSTANTIVO)
    } else {
        None
    }
}

/// The (head offset, function) pair given to token `i`, or `None` when the
/// token keeps its fields (an adjective with no noun and no verb to attach to).
#[verifier::opaque]
pub open spec fn assignment(cls: Seq<u8>, i: int) -> Option<(int, u8)> {
    let r = root_index(cls);
    let c = cls[i];
    if i == r {
        Some((0, SYN_ROOT))
    } else if c == CLASS_SUBSTANTIVO {
        let has_prep = i > 0 && cls[i - 1] == CLASS_PREPOSICAO;
        Some((i - r, if has_prep { SYN_OI } else if i < r { SYN_SUJEITO } else { SYN_OD }))
    } else if c == CLASS_VERBO {
        Some((i - r, SYN_PRED))
    } else if c == CLASS_ADJETIVO {
        match nearest_offset(cls, i, CLASS_SUBSTANTIVO) {
            Some(d) => Some((d, SYN_ADN)),
            None => match nearest_offset(cls, i, CLASS_VERBO) {
                Some(d) => Some((d, SYN_PRED)),
                None => None,
            },
        }
    } else if c == CLASS_ARTIGO || c == CLASS_PREPOSICAO {
        let f = if c == CLASS_ARTIGO { SYN_ADN } else { SYN_PREP };
        match next_noun(cls, i) {
            Some(h) => Some((i - h, f)),
            None => Some((0, f)),
        }
    } else if c == CLASS_PONTUACAO {
        Some((0, 0))
    } else {
        match nearest_offset(cls, i, CLASS_VERBO) {
            Some(d) => Some((d, SYN_ADV)),
            None => Some((i - r, SYN_ADV)),
        }
    }
}

/// Token `i` after dependency assignment.
pub open spec fn assigned_token(ts: Seq<Token7>, i: int) -> Token7 {
    match assignment(classes(ts), i) {
        Some((off, f)) => Token7 { syn_off: off as i16, syn_func: f, ..ts[i] },
        None => ts[i],
    }
}

/// The whole sentence after dependency assignment.
pub open spec fn assign_spec(ts: Seq<Token7>) -> Seq<Token7> {
    Seq::new(ts.len(), |i: int| assigned_token(ts, i))
}

/// Dependency assignment changes only the head offset and the syntactic
/// function of each token.
pub proof fn lemma_assign_keeps_fields(ts: Seq<Token7>, i: int)
    requires
        0 <= i < ts.len(),
    ensures
        ({
            let t = assign_spec(ts)[i];
            &&& t.lex == ts[i].lex
            &&& t.morph == ts[i].morph
            &&& t.orth == ts[i].orth
            &&& t.punct == ts[i].punct
            &&& t.style == ts[i].style
            &&& t.graph == ts[i].graph
        }),
{
}

/// Dependency assignment leaves the word classes unchanged.
pub proof fn lemma_assign_keeps_classes(ts: Seq<Token7>)
    ensures
        classes(assign_spec(ts)) == classes(ts),
{
    assert(classes(assign_spec(ts)) =~= classes(ts));
}

/// Assigning dependencies twice gives the same sentence as assigning them once.
pub proof fn lemma_assign_idempotent(ts: Seq<Token7>)
    ensures
        assign_spec(assign_spec(ts)) == assign_spec(ts),
{
    let out = assign_spec(ts);
    lemma_assign_keeps_classes(ts);
    assert(assign_spec(out) =~= out);
}

/// The root is the only token to which assignment gives the root function,
/// and it gets offset zero.
pub proof fn lemma_root_unique(ts: Seq<Token7>, i: int)
    requires
        0 <= i < ts.len(),
        assignment(classes(ts), i) is Some,
    ensures
        (assign_spec(ts)[i].syn_func == SYN_ROOT) <==> i == root_index(classes(ts)),
        i == root_index(classes(ts)) ==> assign_spec(ts)[i].syn_off == 0,
{
    reveal(assignment);
}

fn find_root(tokens: &[Token7]) -> (r: usize)
    requires
        tokens@.len() > 0,
    ensures
        r == root_index(classes(tokens@)),
        r < tokens@.len(),
{
    let ghost cls = classes(tokens@);
    let n = tokens.len();
    let mut i: usize = 0;
    while i < n
        invariant
            n == tokens@.len(),
            cls == classes(tokens@),
            i <= n,
            forall|k: int| 0 <= k < i ==> cls[k] != CLASS_VERBO,
        decreases n - i,
    {
        if tokens[i].morph_class() == CLASS_VERBO {
            assert(cls[i as int] == CLASS_VERBO);
            assert(first_of_class(cls, CLASS_VERBO) == Some(i as int)) by {
                let j = choose|j: int| 0 <= j < cls.len() && cls[j] == CLASS_VERBO && forall|k: int| 0 <= k < j ==> cls[k] != CLASS_VERBO;
                assert(j == i);
            }
            return i;
        }
        i += 1;
    }
    0
}

fn nearest_head(tokens: &[Token7], from: usize, target_class: u8) -> (r: Option<i16>)
    requires
        tokens@.len() < 32768,
        from < tokens@.len(),
    ensures
        r matches Some(d) ==> nearest_offset(classes(tokens@), from as int, target_class) == Some(d as int),
        r is None ==> nearest_offset(classes(tokens@), from as int, target_class) is None,
{
    let ghost cls = classes(tokens@);
    let mut best: Option<(i16, i16)> = None;
    let ghost mut bj: int = 0;
    let n = tokens.len();
    let mut j: usize = 0;
    while j < n
        invariant
            n == tokens@.len(),
            n < 32768,
            from < n,
            cls == classes(tokens@),
            j <= n,
            best is None ==> forall|k: int| 0 <= k < j ==> !is_candidate(cls, from as int, target_class, k),
            best matches Some(p) ==> {
                &&& is_nearest_below(cls, from as int, target_class, bj, j as int)
                &&& p.0 == bj - from
                &&& p.1 == abs_int(bj - from)
            },
        decreases n - j,
    {
        if tokens[j].morph_class() == target_class && j != from {
            let dist: i16 = j as i16 - from as i16;
            let abs: i16 = if dist < 0 { -dist } else { dist };
            let better = match best {
                None => true,
                Some((_, b)) => abs < b,
            };
            if better {
                best = Some((dist, abs));
                proof {
                    bj = j as int;
                }
            }
        }
        j += 1;
    }
    match best {
        Some((d, _)) => {
            assert(is_candidate(cls, from as int, target_class, bj));
            assert(nearest_offset(cls, from as int, target_class) == Some(d as int)) by {
                reveal(nearest_offset);
                let w = choose|w: int| is_nearest_below(cls, from as int, target_class, w, cls.len() as int);
                assert(is_nearest_below(cls, from as int, target_class, w, cls.len() as int));
                assert(cls[w] == target_class);
                assert(cls[bj] == target_class);
            }
            Some(d)
        },
        None => {
            assert(nearest_offset(cls, from as int, target_class) is None) by {
                reveal(nearest_offset);
            }
            None
        },
    }
}

fn next_noun_index(tokens: &[Token7], i: usize) -> (r: usize)
    requires
        i < tokens@.len(),
        tokens@.len() < 32768,
    ensures
        i < r <= tokens@.len(),
        r < tokens@.len() ==> next_noun(classes(tokens@), i as int) == Some(r as int),
        r == tokens@.len() ==> next_noun(classes(tokens@), i as int) is None,
{
    let ghost cls = classes(tokens@);
    let mut head = i + 1;
    while head < tokens.len() && tokens[head].morph_class() != CLASS_SUBSTANTIVO
        invariant
            cls == classes(tokens@),
            i < head <= tokens@.len(),
            forall|k: int| i < k < head ==> cls[k] != CLASS_SUBSTANTIVO,
        decreases tokens@.len() - head,
    {
        head += 1;
    }
    if head < tokens.len() {
        assert(cls[head as int] == CLASS_SUBSTANTIVO);
        assert(next_noun(cls, i as int) == Some(head as int)) by {
            reveal(next_noun);
            let j = choose|j: int| i < j < cls.len() && cls[j] == CLASS_SUBSTANTIVO && forall|k: int| i < k < j ==> cls[k] != CLASS_SUBSTANTIVO;
            assert(j == head);
        }
    } else {
        assert(next_noun(cls, i as int) is None) by {
            reveal(next_noun);
        }
    }
    head
}

/// Shared precondition of the assignment steps: `out` still has the input's
/// morphology, so it has the input's classes.
pub open spec fn step_pre(out: Seq<Token7>, cls: Seq<u8>, i: int, root_idx: int) -> bool {
    &&& classes(out) == cls
    &&& out.len() < 32768
    &&& 0 <= i < out.len()
    &&& root_idx == root_index(cls)
    &&& 0 <= root_idx < out.len()
    &&& i != root_idx
}

/// `out` changed at index `i` only, as `assignment` says.
pub open spec fn step_post(old_out: Seq<Token7>, new_out: Seq<Token7>, cls: Seq<u8>, i: int) -> bool {
    &&& new_out.len() == old_out.len()
    &&& forall|k: int| 0 <= k < old_out.len() && k != i ==> new_out[k] == old_out[k]
    &&& new_out[i] == (match assignment(cls, i) {
        Some((off, f)) => Token7 { syn_off: off as i16, syn_func: f, ..old_out[i] },
        None => old_out[i],
    })
}

proof fn lemma_assign_noun(cls: Seq<u8>, i: int)
    requires
        0 <= i < cls.len(),
        i != root_index(cls),
        cls[i] == CLASS_SUBSTANTIVO,
    ensures
        assignment(cls, i) == Some((i - root_index(cls), if i > 0 && cls[i - 1] == CLASS_PREPOSICAO { SYN_OI } else if i < root_index(cls) { SYN_SUJEITO } else { SYN_OD })),
{
    reveal(assignment);
}

proof fn lemma_assign_verb(cls: Seq<u8>, i: int)
    requires
        0 <= i < cls.len(),
        i != root_index(cls),
        cls[i] == CLASS_VERBO,
    ensures
        assignment(cls, i) == Some((i - root_index(cls), SYN_PRED)),
{
    reveal(assignment);
}

proof fn lemma_assign_adj(cls: Seq<u8>, i: int)
    requires
        0 <= i < cls.len(),
        i != root_index(cls),
        cls[i] == CLASS_ADJETIVO,
    ensures
        assignment(cls, i) == (match nearest_offset(cls, i, CLASS_SUBSTANTIVO) {
            Some(d) => Some((d, SYN_ADN)),
            None => match nearest_offset(cls, i, CLASS_VERBO) {
                Some(d) => Some((d, SYN_PRED)),
                None => None,
            },
        }),
{
    reveal(assignment);
}

proof fn lemma_assign_art_prep(cls: Seq<u8>, i: int)
    requires
        0 <= i < cls.len(),
        i != root_index(cls),
        cls[i] == CLASS_ARTIGO || cls[i] == CLASS_PREPOSICAO,
    ensures
        assignment(cls, i) == (match next_noun(cls, i) {
            Some(h) => Some((i - h, if cls[i] == CLASS_ARTIGO { SYN_ADN } else { SYN_PREP })),
            None => Some((0, if cls[i] == CLASS_ARTIGO { SYN_ADN } else { SYN_PREP })),
        }),
{
    reveal(assignment);
}

proof fn lemma_assign_punct(cls: Seq<u8>, i: int)
    requires
        0 <= i < cls.len(),
        i != root_index(cls),
        cls[i] == CLASS_PONTUACAO,
    ensures
        assignment(cls, i) == Some((0int, 0u8)),
{
    reveal(assignment);
}

proof fn lemma_assign_root(cls: Seq<u8>)
    requires
        0 <= root_index(cls) < cls.len(),
    ensures
        assignment(cls, root_index(cls)) == Some((0int, SYN_ROOT)),
{
    reveal(assignment);
}

proof fn lemma_assign_other(cls: Seq<u8>, i: int)
    requires
        0 <= i < cls.len(),
        i != root_index(cls),
        cls[i] != CLASS_SUBSTANTIVO,
        cls[i] != CLASS_VERBO,
        cls[i] != CLASS_ADJETIVO,
        cls[i] != CLASS_ARTIGO,
        cls[i] != CLASS_PREPOSICAO,
        cls[i] != CLASS_PONTUACAO,
    ensures
        assignment(cls, i) == (match nearest_offset(cls, i, CLASS_VERBO) {
            Some(d) => Some((d, SYN_ADV)),
            None => Some((i - root_index(cls), SYN_ADV)),
        }),
{
    reveal(assignment);
}

fn set_syn(out: &mut Vec<Token7>, i: usize, off: i16, func: u8)
    requires
        i < old(out)@.len(),
    ensures
        final(out)@ == old(out)@.update(i as int, Token7 { syn_off: off, syn_func: func, ..old(out)@[i as int] }),
{
    let t = out[i].with_syn(off, func);
    out.set(i, t);
}

proof fn lemma_set_keeps_classes(out: Seq<Token7>, i: int, t: Token7)
    requires
        0 <= i < out.len(),
        t.morph == out[i].morph,
    ensures
        classes(out.update(i, t)) == classes(out),
{
    assert(classes(out.update(i, t)) =~= classes(out));
}

fn assign_noun(out: &mut Vec<Token7>, i: usize, root_idx: usize, Ghost(cls): Ghost<Seq<u8>>)
    requires
        step_pre(old(out)@, cls, i as int, root_idx as int),
        cls[i as int] == CLASS_SUBSTANTIVO,
    ensures
        step_post(old(out)@, final(out)@, cls, i as int),
{
    proof {
        lemma_assign_noun(cls, i as int);
        if i > 0 {
            assert(cls[i - 1] == class_of(out@[i - 1].morph));
        }
    }
    let has_prep = i > 0 && out[i - 1].morph_class() == CLASS_PREPOSICAO;
    let off: i16 = -(root_idx as i16 - i as i16);
    if i < root_idx {
        set_syn(out, i, off, if has_prep { SYN_OI } else { SYN_SUJEITO });
    } else {
        set_syn(out, i, off, if has_prep { SYN_OI } else { SYN_OD });
    }
}

fn assign_verb(out: &mut Vec<Token7>, i: usize, root_idx: usize, Ghost(cls): Ghost<Seq<u8>>)
    requires
        step_pre(old(out)@, cls, i as int, root_idx as int),
        cls[i as int] == CLASS_VERBO,
    ensures
        step_post(old(out)@, final(out)@, cls, i as int),
{
    proof {
        lemma_assign_verb(cls, i as int);
    }
    let off: i16 = -(root_idx as i16 - i as i16);
    assert(off == i - root_idx);
    set_syn(out, i, off, SYN_PRED);
}

fn assign_adj(out: &mut Vec<Token7>, i: usize, _root_idx: usize, Ghost(cls): Ghost<Seq<u8>>)
    requires
        step_pre(old(out)@, cls, i as int, _root_idx as int),
        cls[i as int] == CLASS_ADJETIVO,
    ensures
        step_post(old(out)@, final(out)@, cls, i as int),
{
    proof {
        lemma_assign_adj(cls, i as int);
    }
    if let Some(dist) = nearest_head(out.as_slice(), i, CLASS_SUBSTANTIVO) {
        set_syn(out, i, dist, SYN_ADN);
    } else if let Some(dist) = nearest_head(out.as_slice(), i, CLASS_VERBO) {
        set_syn(out, i, dist, SYN_PRED);
    }
}

fn assign_art(out: &mut Vec<Token7>, i: usize, _root_idx: usize, Ghost(cls): Ghost<Seq<u8>>)
    requires
        step_pre(old(out)@, cls, i as int, _root_idx as int),
        cls[i as int] == CLASS_ARTIGO,
    ensures
        step_post(old(out)@, final(out)@, cls, i as int),
{
    proof {
        lemma_assign_art_prep(cls, i as int);
    }
    let head = next_noun_index(out.as_slice(), i);
    let off: i16 = if head < out.len() { -(head as i16 - i as i16) } else { 0 };
    set_syn(out, i, off, SYN_ADN);
}

fn assign_prep(out: &mut Vec<Token7>, i: usize, _root_idx: usize, Ghost(cls): Ghost<Seq<u8>>)
    requires
        step_pre(old(out)@, cls, i as int, _root_idx as int),
        cls[i as int] == CLASS_PREPOSICAO,
    ensures
        step_post(old(out)@, final(out)@, cls, i as int),
{
    proof {
        lemma_assign_art_prep(cls, i as int);
    }
    let head = next_noun_index(out.as_slice(), i);
    let off: i16 = if head < out.len() { -(head as i16 - i as i16) } else { 0 };
    set_syn(out, i, off, SYN_PREP);
}

fn assign_other(out: &mut Vec<Token7>, i: usize, root_idx: usize, Ghost(cls): Ghost<Seq<u8>>)
    requires
        step_pre(old(out)@, cls, i as int, root_idx as int),
        cls[i as int] != CLASS_SUBSTANTIVO,
        cls[i as int] != CLASS_VERBO,
        cls[i as int] != CLASS_ADJETIVO,
        cls[i as int] != CLASS_ARTIGO,
        cls[i as int] != CLASS_PREPOSICAO,
        cls[i as int] != CLASS_PONTUACAO,
    ensures
        step_post(old(out)@, final(out)@, cls, i as int),
{
    proof {
        lemma_assign_other(cls, i as int);
    }
    if let Some(dist) = nearest_head(out.as_slice(), i, CLASS_VERBO) {
        set_syn(out, i, dist, SYN_ADV);
    } else {
        set_syn(out, i, -(root_idx as i16 - i as i16), SYN_ADV);
    }
}

/// Gives every token a head offset and a syntactic function: the first verb
/// is the root; nouns attach to it as subject (left), object (right) or
/// indirect object (after a preposition); other verbs are predicates of the
/// root; adjectives attach to the nearest noun (else the nearest verb);
/// articles and prepositions to the next noun; punctuation gets nothing;
/// anything else is an adverbial of the nearest verb.
pub fn assign_dependencies(tokens: &[Token7]) -> (out: Vec<Token7>)
    requires
        tokens@.len() < 32768,
    ensures
        out@ == assign_spec(tokens@),
{
    if tokens.len() == 0 {
        let v: Vec<Token7> = Vec::new();
        assert(v@ =~= assign_spec(tokens@));
        return v;
    }
    let ghost cls = classes(tokens@);
    let mut out: Vec<Token7> = vstd::slice::slice_to_vec(tokens);
    let len = out.len();
    let root_idx = find_root(tokens);
    let mut i: usize = 0;
    while i < len
        invariant
            len == tokens@.len(),
            len < 32768,
            cls == classes(tokens@),
            root_idx == root_index(cls),
            root_idx < len,
            out@.len() == len,
            classes(out@) == cls,
            i <= len,
            forall|k: int| 0 <= k < i ==> #[trigger] out@[k] == assigned_token(tokens@, k),
            forall|k: int| i <= k < len ==> #[trigger] out@[k] == tokens@[k],
        decreases len - i,
    {
        let ghost before = out@;
        if i == root_idx {
            proof {
                lemma_assign_root(cls);
            }
            set_syn(&mut out, i, 0, SYN_ROOT);
        } else {
            let cls_i = out[i].morph_class();
            assert(cls_i == cls[i as int]);
            match cls_i {
                CLASS_SUBSTANTIVO => assign_noun(&mut out, i, root_idx, Ghost(cls)),
                CLASS_VERBO => assign_verb(&mut out, i, root_idx, Ghost(cls)),
                CLASS_ADJETIVO => assign_adj(&mut out, i, root_idx, Ghost(cls)),
                CLASS_ARTIGO => assign_art(&mut out, i, root_idx, Ghost(cls)),
                CLASS_PREPOSICAO => assign_prep(&mut out, i, root_idx, Ghost(cls)),
                CLASS_PONTUACAO => {
                    proof {
                        lemma_assign_punct(cls, i as int);
                    }
                    set_syn(&mut out, i, 0, 0);
                },
                _ => assign_other(&mut out, i, root_idx, Ghost(cls)),
            }
        }
        proof {
            assert(out@[i as int].morph == before[i as int].morph);
            lemma_set_keeps_classes(before, i as int, out@[i as int]);
            assert(out@ =~= before.update(i as int, out@[i as int]));
        }
        i += 1;
    }
    assert(out@ =~= assign_spec(tokens@));
    out
}

} // verus!
