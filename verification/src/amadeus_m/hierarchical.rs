//! Clause, sentence and paragraph segmentation for the hierarchical cube.
use vstd::prelude::*;
use crate::amadeus_m::syntax::{assign_dependencies, assign_spec};
use crate::amadeus_m::token7::{Token7, class_of, spec_token, CLASS_PONTUACAO, CLASS_VERBO, CLASS_SUBSTANTIVO, SYN_ROOT};

verus! {

pub const ORDER_CLAUSE: usize = 9;
pub const ORDER_SENTENCE: usize = 4;
pub const ORDER_PARAGRAPH: usize = 64;
pub const ORDER_TEXT: usize = 4;

/// A token opens a clause level: a preposition, or an adverbial that is not
/// punctuation or a verb.
pub open spec fn opens_clause(t: Token7) -> bool {
    let c = class_of(t.morph);
    c == 4 || (t.syn_func == 3 && c != 5 && c != 1)
}

/// The depth while reading `t` at depth `d` (capped at 15).
pub open spec fn depth_at(t: Token7, d: u8) -> u8 {
    if opens_clause(t) && d < 15 { (d + 1) as u8 } else { d }
}

/// The depth after reading `t` at depth `d`: punctuation closes one level.
pub open spec fn depth_after(t: Token7, d: u8) -> u8 {
    let e = depth_at(t, d);
    if class_of(t.morph) == 5 && e > 0 { (e - 1) as u8 } else { e }
}

/// The depth after reading a whole token sequence from depth 0.
pub open spec fn depth_fold(ts: Seq<Token7>) -> u8
    decreases ts.len(),
{
    if ts.len() == 0 { 0 } else { depth_after(ts.last(), depth_fold(ts.drop_last())) }
}

/// The depth recorded at each token: the depth while it is read.
pub open spec fn clause_depths_spec(ts: Seq<Token7>) -> Seq<u8> {
    Seq::new(ts.len(), |i: int| depth_at(ts[i], depth_fold(ts.take(i))))
}

proof fn lemma_depth_fold_bound(ts: Seq<Token7>)
    ensures
        depth_fold(ts) <= 15,
    decreases ts.len(),
{
    if ts.len() > 0 {
        lemma_depth_fold_bound(ts.drop_last());
    }
}

/// Clause depths never exceed 15.
pub proof fn lemma_clause_depths_bounded(ts: Seq<Token7>, i: int)
    requires
        0 <= i < ts.len(),
    ensures
        clause_depths_spec(ts)[i] <= 15,
{
    lemma_depth_fold_bound(ts.take(i));
}

pub fn compute_clause_depths(tokens: &[Token7]) -> (depths: Vec<u8>)
    ensures
        depths@ == clause_depths_spec(tokens@),
{
    let mut depths: Vec<u8> = Vec::new();
    let mut depth: u8 = 0;
    let n = tokens.len();
    let mut i: usize = 0;
    assert(tokens@.take(0) =~= Seq::<Token7>::empty());
    while i < n
        invariant
            n == tokens@.len(),
            i <= n,
            depth == depth_fold(tokens@.take(i as int)),
            depths@.len() == i,
            forall|k: int| 0 <= k < i ==> #[trigger] depths@[k] == clause_depths_spec(tokens@)[k],
        decreases n - i,
    {
        proof {
            lemma_depth_fold_bound(tokens@.take(i as int));
            assert(tokens@.take(i + 1).drop_last() =~= tokens@.take(i as int));
        }
        let t = &tokens[i];
        let cls = t.morph_class();
        let sf = t.syn_func;
        if cls == 4 || (sf == 3 && cls != 5 && cls != 1) {
            if depth < 15 {
                depth += 1;
            }
        }
        depths.push(depth);
        if cls == 5 && depth > 0 {
            depth = depth - 1;
        }
        i += 1;
    }
    assert(depths@ =~= clause_depths_spec(tokens@));
    depths
}

/// The clause depth after reading `t` at depth `prev_depth`.
pub fn next_clause_depth(t: &Token7, prev_depth: u8) -> (d: u8)
    ensures
        d == depth_after(*t, prev_depth),
{
    let cls = t.morph_class();
    let sf = t.syn_func;
    let mut depth = prev_depth;
    if cls == 4 || (sf == 3 && cls != 5 && cls != 1) {
        if depth < 15 {
            depth += 1;
        }
    }
    if cls == 5 && depth > 0 {
        depth = depth - 1;
    }
    depth
}

/// A token ends a clause: punctuation with code 1 to 4 (. , ; :).
pub open spec fn ends_clause(t: Token7) -> bool {
    class_of(t.morph) == CLASS_PONTUACAO && 1 <= t.punct <= 4
}

/// A token ends a sentence: punctuation with code 1, 7 or 8 (. ? !).
pub open spec fn ends_sentence(t: Token7) -> bool {
    class_of(t.morph) == CLASS_PONTUACAO && (t.punct == 1 || t.punct == 7 || t.punct == 8)
}

/// Boundaries below `n`: index 0, then each index in `1..n` whose
/// predecessor ends a unit (clauses when `sentences` is false).
pub open spec fn bounds_upto(ts: Seq<Token7>, n: int, sentences: bool) -> Seq<usize>
    decreases n,
{
    if n <= 1 {
        seq![0usize]
    } else {
        let prev = ts[n - 2];
        let ends = if sentences { ends_sentence(prev) } else { ends_clause(prev) };
        if ends { bounds_upto(ts, n - 1, sentences).push((n - 1) as usize) } else { bounds_upto(ts, n - 1, sentences) }
    }
}

pub open spec fn clause_bounds_spec(ts: Seq<Token7>) -> Seq<usize> {
    bounds_upto(ts, ts.len() as int, false)
}

pub open spec fn sentence_bounds_spec(ts: Seq<Token7>) -> Seq<usize> {
    bounds_upto(ts, ts.len() as int, true)
}

fn find_bounds(tokens: &[Token7], sentences: bool) -> (bounds: Vec<usize>)
    ensures
        bounds@ == bounds_upto(tokens@, tokens@.len() as int, sentences),
{
    let mut bounds: Vec<usize> = vec![0];
    let n = tokens.len();
    let mut i: usize = 1;
    assert(bounds@ =~= seq![0usize]);
    while i < n
        invariant
            n == tokens@.len(),
            1 <= i,
            i <= n || (n <= 1 && i == 1),
            bounds@ == bounds_upto(tokens@, i as int, sentences),
        decreases n - i,
    {
        let prev = &tokens[i - 1];
        let ends = if sentences {
            prev.morph_class() == CLASS_PONTUACAO && (prev.punct == 1 || prev.punct == 7 || prev.punct == 8)
        } else {
            prev.morph_class() == CLASS_PONTUACAO && prev.punct >= 1 && prev.punct <= 4
        };
        if ends {
            bounds.push(i);
        }
        i += 1;
    }
    assert(bounds_upto(tokens@, i as int, sentences) == bounds_upto(tokens@, n as int, sentences));
    bounds
}

fn find_clause_boundaries(tokens: &[Token7]) -> (bounds: Vec<usize>)
    ensures
        bounds@ == clause_bounds_spec(tokens@),
{
    find_bounds(tokens, false)
}

fn find_sentence_boundaries(tokens: &[Token7]) -> (bounds: Vec<usize>)
    ensures
        bounds@ == sentence_bounds_spec(tokens@),
{
    find_bounds(tokens, true)
}

/// The non-empty ranges between consecutive boundaries, the last one ending
/// at `total_len`.
pub open spec fn ranges_upto(b: Seq<usize>, total_len: usize, n: int) -> Seq<(usize, usize)>
    decreases n,
{
    if n <= 0 {
        Seq::empty()
    } else {
        let i = n - 1;
        let start = b[i];
        let end = if i + 1 < b.len() { b[i + 1] } else { total_len };
        let prev = ranges_upto(b, total_len, i);
        if end > start { prev.push((start, end)) } else { prev }
    }
}

pub open spec fn ranges_spec(b: Seq<usize>, total_len: usize) -> Seq<(usize, usize)> {
    ranges_upto(b, total_len, b.len() as int)
}

fn to_ranges(boundaries: &[usize], total_len: usize) -> (ranges: Vec<(usize, usize)>)
    ensures
        ranges@ == ranges_spec(boundaries@, total_len),
{
    let mut ranges: Vec<(usize, usize)> = Vec::new();
    let n = boundaries.len();
    let mut i: usize = 0;
    while i < n
        invariant
            n == boundaries@.len(),
            i <= n,
            ranges@ == ranges_upto(boundaries@, total_len, i as int),
        decreases n - i,
    {
        let start = boundaries[i];
        let end = if i + 1 < n { boundaries[i + 1] } else { total_len };
        if end > start {
            ranges.push((start, end));
        }
        i += 1;
    }
    ranges
}

/// The index of the super-range containing a sub-range starting at `start`,
/// searching forward from `si`: skip super-ranges that end at or before it.
pub open spec fn advance(start: usize, sup: Seq<(usize, usize)>, si: int) -> int
    decreases sup.len() - si,
{
    if si + 1 < sup.len() && start >= sup[si].1 { advance(start, sup, si + 1) } else { si }
}

/// Super-range index of each sub-range, with the search resuming where the
/// previous sub-range's search stopped.
pub open spec fn super_fold(sub: Seq<(usize, usize)>, sup: Seq<(usize, usize)>, n: int) -> (Seq<usize>, int)
    decreases n,
{
    if n <= 0 {
        (Seq::empty(), 0)
    } else {
        let (m, si) = super_fold(sub, sup, n - 1);
        let s2 = advance(sub[n - 1].0, sup, si);
        (m.push(s2 as usize), s2)
    }
}

pub open spec fn map_to_super_spec(sub: Seq<(usize, usize)>, sup: Seq<(usize, usize)>) -> Seq<usize> {
    super_fold(sub, sup, sub.len() as int).0
}

proof fn lemma_advance_ge(start: usize, sup: Seq<(usize, usize)>, si: int)
    ensures
        advance(start, sup, si) >= si,
        si >= 0 && (si < sup.len() || sup.len() == 0 || si == 0) ==> advance(start, sup, si) < sup.len() || advance(start, sup, si) == si,
    decreases sup.len() - si,
{
    if si + 1 < sup.len() && start >= sup[si].1 {
        lemma_advance_ge(start, sup, si + 1);
    }
}

proof fn lemma_super_fold_bound(sub: Seq<(usize, usize)>, sup: Seq<(usize, usize)>, n: int)
    requires
        0 <= n <= sub.len(),
    ensures
        super_fold(sub, sup, n).1 >= 0,
        super_fold(sub, sup, n).1 < sup.len() || super_fold(sub, sup, n).1 == 0,
        super_fold(sub, sup, n).0.len() == n,
    decreases n,
{
    if n > 0 {
        lemma_super_fold_bound(sub, sup, n - 1);
        let si = super_fold(sub, sup, n - 1).1;
        lemma_advance_ge(sub[n - 1].0, sup, si);
    }
}

fn map_to_super(sub: &[(usize, usize)], super_: &[(usize, usize)]) -> (map: Vec<usize>)
    ensures
        map@ == map_to_super_spec(sub@, super_@),
{
    let mut map: Vec<usize> = Vec::new();
    let sl = super_.len();
    let mut si: usize = 0;
    let n = sub.len();
    let mut ci: usize = 0;
    while ci < n
        invariant
            n == sub@.len(),
            sl == super_@.len(),
            ci <= n,
            (map@, si as int) == super_fold(sub@, super_@, ci as int),
        decreases n - ci,
    {
        proof {
            lemma_super_fold_bound(sub@, super_@, ci as int);
        }
        let ghost si0 = si as int;
        while si + 1 < sl && sub[ci].0 >= super_[si].1
            invariant
                n == sub@.len(),
                sl == super_@.len(),
                ci < n,
                si as int >= si0,
                advance(sub@[ci as int].0, super_@, si0) == advance(sub@[ci as int].0, super_@, si as int),
                si < super_@.len() || si == si0,
                si0 < super_@.len() || si0 == 0,
            decreases super_@.len() - si,
        {
            si += 1;
        }
        map.push(si);
        ci += 1;
    }
    map
}

/// The token that stands for a unit: its root, else its first verb, else its
/// first noun, else its first token, else the empty token.
pub open spec fn summarize_spec(unit: Seq<Token7>) -> Token7 {
    if exists|i: int| 0 <= i < unit.len() && unit[i].syn_func == SYN_ROOT {
        unit[choose|i: int| 0 <= i < unit.len() && unit[i].syn_func == SYN_ROOT && forall|k: int| 0 <= k < i ==> unit[k].syn_func != SYN_ROOT]
    } else if exists|i: int| 0 <= i < unit.len() && class_of(unit[i].morph) == CLASS_VERBO {
        unit[choose|i: int| 0 <= i < unit.len() && class_of(unit[i].morph) == CLASS_VERBO && forall|k: int| 0 <= k < i ==> class_of(unit[k].morph) != CLASS_VERBO]
    } else if exists|i: int| 0 <= i < unit.len() && class_of(unit[i].morph) == CLASS_SUBSTANTIVO {
        unit[choose|i: int| 0 <= i < unit.len() && class_of(unit[i].morph) == CLASS_SUBSTANTIVO && forall|k: int| 0 <= k < i ==> class_of(unit[k].morph) != CLASS_SUBSTANTIVO]
    } else if unit.len() > 0 {
        unit[0]
    } else {
        spec_token(0, 0)
    }
}

/// The token that stands for a unit is chosen by priority: the first token
/// with the root function; with no root, the first verb, whatever nouns
/// come before or after it; with neither, the first noun; else the first
/// token (the empty token for an empty unit).
pub proof fn lemma_summary_priority(unit: Seq<Token7>)
    ensures
        ({
            let t = summarize_spec(unit);
            let root = exists|i: int| 0 <= i < unit.len() && unit[i].syn_func == SYN_ROOT;
            let verb = exists|i: int| 0 <= i < unit.len() && class_of(unit[i].morph) == CLASS_VERBO;
            let noun = exists|i: int| 0 <= i < unit.len() && class_of(unit[i].morph) == CLASS_SUBSTANTIVO;
            &&& root ==> exists|j: int|
                0 <= j < unit.len() && t == unit[j] && unit[j].syn_func == SYN_ROOT && forall|k: int|
                    0 <= k < j ==> unit[k].syn_func != SYN_ROOT
            &&& !root && verb ==> exists|j: int|
                0 <= j < unit.len() && t == unit[j] && class_of(unit[j].morph) == CLASS_VERBO && forall|k: int|
                    0 <= k < j ==> class_of(unit[k].morph) != CLASS_VERBO
            &&& !root && !verb && noun ==> exists|j: int|
                0 <= j < unit.len() && t == unit[j] && class_of(unit[j].morph) == CLASS_SUBSTANTIVO && forall|k: int|
                    0 <= k < j ==> class_of(unit[k].morph) != CLASS_SUBSTANTIVO
            &&& !root && !verb && !noun && unit.len() > 0 ==> t == unit[0]
            &&& unit.len() == 0 ==> t == spec_token(0, 0)
        }),
{
    if exists|i: int| 0 <= i < unit.len() && unit[i].syn_func == SYN_ROOT {
        lemma_first_root(unit);
    } else if exists|i: int| 0 <= i < unit.len() && class_of(unit[i].morph) == CLASS_VERBO {
        lemma_first_class(unit, CLASS_VERBO);
    } else if exists|i: int| 0 <= i < unit.len() && class_of(unit[i].morph) == CLASS_SUBSTANTIVO {
        lemma_first_class(unit, CLASS_SUBSTANTIVO);
    }
}

/// When some token has the root function, a first one does.
#[verifier::spinoff_prover]
#[verifier::rlimit(30)]
proof fn lemma_first_root(unit: Seq<Token7>)
    requires
        exists|i: int| 0 <= i < unit.len() && unit[i].syn_func == SYN_ROOT,
    ensures
        exists|j: int|
            0 <= j < unit.len() && unit[j].syn_func == SYN_ROOT && forall|k: int| 0 <= k < j ==> unit[k].syn_func != SYN_ROOT,
    decreases unit.len(),
{
    if unit.last().syn_func == SYN_ROOT && forall|k: int| 0 <= k < unit.len() - 1 ==> unit[k].syn_func != SYN_ROOT {
        assert(unit[unit.len() - 1].syn_func == SYN_ROOT);
    } else if unit.last().syn_func != SYN_ROOT {
        let i = choose|i: int| 0 <= i < unit.len() && unit[i].syn_func == SYN_ROOT;
        let p = unit.drop_last();
        assert(p[i] == unit[i]);
        lemma_first_root(p);
        let j = choose|j: int| 0 <= j < p.len() && p[j].syn_func == SYN_ROOT && forall|k: int| 0 <= k < j ==> p[k].syn_func != SYN_ROOT;
        assert(unit[j] == p[j]);
        assert forall|k: int| 0 <= k < j implies unit[k].syn_func != SYN_ROOT by {
            assert(unit[k] == p[k]);
        }
    } else {
        let k0 = choose|k: int| 0 <= k < unit.len() - 1 && unit[k].syn_func == SYN_ROOT;
        let p = unit.drop_last();
        assert(p[k0] == unit[k0]);
        lemma_first_root(p);
        let j = choose|j: int| 0 <= j < p.len() && p[j].syn_func == SYN_ROOT && forall|k: int| 0 <= k < j ==> p[k].syn_func != SYN_ROOT;
        assert(unit[j] == p[j]);
        assert forall|k: int| 0 <= k < j implies unit[k].syn_func != SYN_ROOT by {
            assert(unit[k] == p[k]);
        }
    }
}

/// When some token has class `c`, a first one does.
#[verifier::spinoff_prover]
#[verifier::rlimit(30)]
proof fn lemma_first_class(unit: Seq<Token7>, c: u8)
    requires
        exists|i: int| 0 <= i < unit.len() && class_of(unit[i].morph) == c,
    ensures
        exists|j: int|
            0 <= j < unit.len() && class_of(unit[j].morph) == c && forall|k: int| 0 <= k < j ==> class_of(unit[k].morph) != c,
    decreases unit.len(),
{
    if class_of(unit.last().morph) == c && forall|k: int| 0 <= k < unit.len() - 1 ==> class_of(unit[k].morph) != c {
        assert(class_of(unit[unit.len() - 1].morph) == c);
    } else if class_of(unit.last().morph) != c {
        let i = choose|i: int| 0 <= i < unit.len() && class_of(unit[i].morph) == c;
        let p = unit.drop_last();
        assert(p[i] == unit[i]);
        lemma_first_class(p, c);
        let j = choose|j: int| 0 <= j < p.len() && class_of(p[j].morph) == c && forall|k: int| 0 <= k < j ==> class_of(p[k].morph) != c;
        assert(unit[j] == p[j]);
        assert forall|k: int| 0 <= k < j implies class_of(unit[k].morph) != c by {
            assert(unit[k] == p[k]);
        }
    } else {
        let k0 = choose|k: int| 0 <= k < unit.len() - 1 && class_of(unit[k].morph) == c;
        let p = unit.drop_last();
        assert(p[k0] == unit[k0]);
        lemma_first_class(p, c);
        let j = choose|j: int| 0 <= j < p.len() && class_of(p[j].morph) == c && forall|k: int| 0 <= k < j ==> class_of(p[k].morph) != c;
        assert(unit[j] == p[j]);
        assert forall|k: int| 0 <= k < j implies class_of(unit[k].morph) != c by {
            assert(unit[k] == p[k]);
        }
    }
}

pub(crate) fn summarize_unit(unit: &[Token7]) -> (t: Token7)
    ensures
        t == summarize_spec(unit@),
{
    let n = unit.len();
    let mut i: usize = 0;
    while i < n
        invariant
            n == unit@.len(),
            i <= n,
            forall|k: int| 0 <= k < i ==> unit@[k].syn_func != SYN_ROOT,
        decreases n - i,
    {
        if unit[i].syn_func == SYN_ROOT {
            assert(summarize_spec(unit@) == unit@[i as int]) by {
                let j = choose|j: int| 0 <= j < unit@.len() && unit@[j].syn_func == SYN_ROOT && forall|k: int| 0 <= k < j ==> unit@[k].syn_func != SYN_ROOT;
                assert(j == i);
            }
            return unit[i];
        }
        i += 1;
    }
    let mut i: usize = 0;
    while i < n
        invariant
            n == unit@.len(),
            i <= n,
            forall|k: int| 0 <= k < n ==> unit@[k].syn_func != SYN_ROOT,
            forall|k: int| 0 <= k < i ==> class_of(unit@[k].morph) != CLASS_VERBO,
        decreases n - i,
    {
        if unit[i].morph_class() == CLASS_VERBO {
            assert(summarize_spec(unit@) == unit@[i as int]) by {
                let j = choose|j: int| 0 <= j < unit@.len() && class_of(unit@[j].morph) == CLASS_VERBO && forall|k: int| 0 <= k < j ==> class_of(unit@[k].morph) != CLASS_VERBO;
                assert(j == i);
            }
            return unit[i];
        }
        i += 1;
    }
    let mut i: usize = 0;
    while i < n
        invariant
            n == unit@.len(),
            i <= n,
            forall|k: int| 0 <= k < n ==> unit@[k].syn_func != SYN_ROOT,
            forall|k: int| 0 <= k < n ==> class_of(unit@[k].morph) != CLASS_VERBO,
            forall|k: int| 0 <= k < i ==> class_of(unit@[k].morph) != CLASS_SUBSTANTIVO,
        decreases n - i,
    {
        if unit[i].morph_class() == CLASS_SUBSTANTIVO {
            assert(summarize_spec(unit@) == unit@[i as int]) by {
                let j = choose|j: int| 0 <= j < unit@.len() && class_of(unit@[j].morph) == CLASS_SUBSTANTIVO && forall|k: int| 0 <= k < j ==> class_of(unit@[k].morph) != CLASS_SUBSTANTIVO;
                assert(j == i);
            }
            return unit[i];
        }
        i += 1;
    }
    if n > 0 {
        unit[0]
    } else {
        Token7::new(0, 0)
    }
}

pub(crate) fn is_clause_end(t: &Token7) -> (b: bool)
    ensures
        b == ends_clause(*t),
{
    t.morph_class() == CLASS_PONTUACAO && 1 <= t.punct && t.punct <= 4
}

// ───────────────────────── the segmentation tiles the stream ─────────────────────────

proof fn lemma_bounds_shape(ts: Seq<Token7>, n: int, sentences: bool)
    requires
        1 <= n <= usize::MAX,
    ensures
        bounds_upto(ts, n, sentences).len() >= 1,
        bounds_upto(ts, n, sentences)[0] == 0,
        forall|i: int, j: int|
            0 <= i < j < bounds_upto(ts, n, sentences).len() ==> #[trigger] bounds_upto(ts, n, sentences)[i]
                < #[trigger] bounds_upto(ts, n, sentences)[j],
        forall|i: int| 0 <= i < bounds_upto(ts, n, sentences).len() ==> #[trigger] bounds_upto(ts, n, sentences)[i] < n,
    decreases n,
{
    if n > 1 {
        lemma_bounds_shape(ts, n - 1, sentences);
        let prev = bounds_upto(ts, n - 1, sentences);
        let cur = bounds_upto(ts, n, sentences);
        if cur.len() > prev.len() {
            assert(cur == prev.push((n - 1) as usize));
            assert forall|i: int, j: int| 0 <= i < j < cur.len() implies #[trigger] cur[i] < #[trigger] cur[j] by {
                if j == cur.len() - 1 {
                    assert(cur[i] == prev[i]);
                    assert(prev[i] < n - 1);
                    assert(cur[j] == n - 1);
                } else {
                    assert(cur[i] == prev[i] && cur[j] == prev[j]);
                    assert(prev[i] < prev[j]);
                }
            }
        }
    }
}

proof fn lemma_ranges_shape(b: Seq<usize>, total: usize, n: int)
    requires
        0 <= n <= b.len(),
        b.len() >= 1,
        b[0] == 0,
        forall|i: int, j: int| 0 <= i < j < b.len() ==> #[trigger] b[i] < #[trigger] b[j],
        forall|i: int| 0 <= i < b.len() ==> #[trigger] b[i] < total,
    ensures
        ranges_upto(b, total, n) == Seq::new(
            n as nat,
            |k: int| (b[k], if k + 1 < b.len() { b[k + 1] } else { total }),
        ),
    decreases n,
{
    if n > 0 {
        lemma_ranges_shape(b, total, n - 1);
        let i = n - 1;
        if i + 1 < b.len() {
            assert(b[i] < b[i + 1]);
        }
        assert(ranges_upto(b, total, n) =~= Seq::new(
            n as nat,
            |k: int| (b[k], if k + 1 < b.len() { b[k + 1] } else { total }),
        ));
    }
}

/// Units of a token stream: the ranges between its clause (or sentence)
/// boundaries.
pub open spec fn unit_ranges(ts: Seq<Token7>, sentences: bool) -> Seq<(usize, usize)> {
    ranges_spec(bounds_upto(ts, ts.len() as int, sentences), ts.len() as usize)
}

/// The clauses (and the sentences) of a non-empty token stream tile it:
/// the first starts at 0, each is non-empty, each ends where the next
/// starts, and the last ends at the end of the stream.
pub proof fn lemma_units_tile(ts: Seq<Token7>, sentences: bool)
    requires
        1 <= ts.len() <= usize::MAX,
    ensures
        ({
            let r = unit_ranges(ts, sentences);
            &&& r.len() >= 1
            &&& r[0].0 == 0
            &&& r.last().1 == ts.len()
            &&& forall|k: int| 0 <= k < r.len() ==> (#[trigger] r[k]).0 < r[k].1
            &&& forall|k: int| 0 <= k < r.len() - 1 ==> (#[trigger] r[k]).1 == r[k + 1].0
            &&& forall|k: int| 0 <= k < r.len() ==> (#[trigger] r[k]).1 <= ts.len()
            &&& forall|k1: int, k2: int| 0 <= k1 <= k2 < r.len() ==> (#[trigger] r[k1]).0 < (#[trigger] r[k2]).1
        }),
{
    let b = bounds_upto(ts, ts.len() as int, sentences);
    lemma_bounds_shape(ts, ts.len() as int, sentences);
    lemma_ranges_shape(b, ts.len() as usize, b.len() as int);
    let r = unit_ranges(ts, sentences);
    assert forall|k: int| 0 <= k < r.len() implies (#[trigger] r[k]).0 < r[k].1 by {
        if k + 1 < b.len() {
            assert(b[k] < b[k + 1]);
        }
    }
    assert forall|k1: int, k2: int| 0 <= k1 <= k2 < r.len() implies (#[trigger] r[k1]).0 < (#[trigger] r[k2]).1 by {
        if k1 < k2 {
            assert(b[k1] < b[k2]);
        }
        assert(r[k2].0 < r[k2].1);
    }
}

// ───────────────────────── the training plan ─────────────────────────

/// What one cube is trained on: token sequences with their clause depths.
pub type Lessons = Seq<(Seq<Token7>, Seq<u8>)>;

/// The sequences each level of the hierarchical cube is trained on.
pub struct TrainPlan {
    pub clause: Vec<(Vec<Token7>, Vec<u8>)>,
    pub sentence: Vec<(Vec<Token7>, Vec<u8>)>,
    pub paragraph: Vec<(Vec<Token7>, Vec<u8>)>,
    pub text: Vec<(Vec<Token7>, Vec<u8>)>,
}

pub open spec fn lessons_view(v: Seq<(Vec<Token7>, Vec<u8>)>) -> Lessons {
    v.map_values(|x: (Vec<Token7>, Vec<u8>)| (x.0@, x.1@))
}

/// The summaries of the units.
pub open spec fn unit_summaries(p: Seq<Token7>, r: Seq<(usize, usize)>) -> Seq<Token7> {
    Seq::new(r.len(), |k: int| summarize_spec(p.subrange(r[k].0 as int, r[k].1 as int)))
}

/// Clause lessons: the clause's summary then its tokens, with the depth at
/// the clause's start then the tokens' depths.
pub open spec fn clause_lessons(p: Seq<Token7>, d: Seq<u8>, cr: Seq<(usize, usize)>) -> Lessons {
    Seq::new(
        cr.len(),
        |k: int|
            {
                let (a, b) = cr[k];
                (
                    seq![summarize_spec(p.subrange(a as int, b as int))] + p.subrange(a as int, b as int),
                    seq![d[a as int]] + d.subrange(a as int, b as int),
                )
            },
    )
}

/// The clauses (by index) that the clause-to-sentence map places in
/// sentence `si`.
pub open spec fn clauses_of(c2s: Seq<usize>, si: int) -> Seq<int>
    decreases c2s.len(),
{
    if c2s.len() == 0 {
        Seq::empty()
    } else {
        let prev = clauses_of(c2s.drop_last(), si);
        if c2s.last() == si {
            prev.push(c2s.len() - 1)
        } else {
            prev
        }
    }
}

/// Sentence lessons, for the sentences that hold a clause: the sentence's
/// summary then its clauses' summaries, with the tokens' depths.
pub open spec fn sentence_lessons(
    p: Seq<Token7>,
    d: Seq<u8>,
    sr: Seq<(usize, usize)>,
    c2s: Seq<usize>,
    cs: Seq<Token7>,
    n: int,
) -> Lessons
    decreases n,
{
    if n <= 0 {
        Seq::empty()
    } else {
        let prev = sentence_lessons(p, d, sr, c2s, cs, n - 1);
        let si = n - 1;
        let idx = clauses_of(c2s, si);
        if idx.len() == 0 {
            prev
        } else {
            let (a, b) = sr[si];
            prev.push(
                (
                    seq![summarize_spec(p.subrange(a as int, b as int))] + idx.map_values(|c: int| cs[c]),
                    d.subrange(a as int, b as int),
                ),
            )
        }
    }
}

/// How many sentences make a paragraph: a fifth of them, at least 8, at
/// most all.
pub open spec fn para_size(n_sent: int) -> int {
    let s = if n_sent / 5 > 8 { n_sent / 5 } else { 8 };
    if s < n_sent { s } else { n_sent }
}

pub open spec fn group_count(n_sent: int) -> int {
    (n_sent + para_size(n_sent) - 1) / para_size(n_sent)
}

/// The sentences of paragraph `g`: `[g * size, min((g + 1) * size, n))`.
pub open spec fn group_bounds(n_sent: int, g: int) -> (int, int) {
    let ps = para_size(n_sent);
    (g * ps, if (g + 1) * ps < n_sent { (g + 1) * ps } else { n_sent })
}

/// The span of tokens of paragraph `g`.
pub open spec fn group_span(sr: Seq<(usize, usize)>, g: int) -> (int, int) {
    let (lo, hi) = group_bounds(sr.len() as int, g);
    (sr[lo].0 as int, sr[hi - 1].1 as int)
}

pub open spec fn para_summaries(p: Seq<Token7>, sr: Seq<(usize, usize)>) -> Seq<Token7> {
    Seq::new(
        group_count(sr.len() as int) as nat,
        |g: int| summarize_spec(p.subrange(group_span(sr, g).0, group_span(sr, g).1)),
    )
}

/// Paragraph lessons: the paragraph's summary then its sentences'
/// summaries, all at depth 0.
pub open spec fn paragraph_lessons(p: Seq<Token7>, sr: Seq<(usize, usize)>, ss: Seq<Token7>) -> Lessons {
    Seq::new(
        group_count(sr.len() as int) as nat,
        |g: int|
            {
                let (lo, hi) = group_bounds(sr.len() as int, g);
                let seq = seq![para_summaries(p, sr)[g]] + ss.subrange(lo, hi);
                (seq, Seq::new(seq.len(), |_i: int| 0u8))
            },
    )
}

/// Text lessons: windows of five consecutive paragraph summaries among the
/// first 200, at depth 0, when there are at least two paragraphs.
pub open spec fn text_lessons(ps: Seq<Token7>) -> Lessons {
    let m = if ps.len() < 200 { ps.len() as int } else { 200 };
    if ps.len() >= 2 && m >= ORDER_TEXT + 1 {
        Seq::new(
            (m - ORDER_TEXT) as nat,
            |w: int| (ps.subrange(w, w + ORDER_TEXT + 1), Seq::new((ORDER_TEXT + 1) as nat, |_i: int| 0u8)),
        )
    } else {
        Seq::empty()
    }
}

/// What `train_plan` gives: nothing for fewer than three tokens; otherwise
/// the lessons of each level over the stream with dependencies assigned.
pub open spec fn plan_spec(ts: Seq<Token7>) -> (Lessons, Lessons, Lessons, Lessons) {
    if ts.len() < 3 {
        (Seq::empty(), Seq::empty(), Seq::empty(), Seq::empty())
    } else {
        let p = assign_spec(ts);
        let d = clause_depths_spec(p);
        let cr = unit_ranges(p, false);
        let sr = unit_ranges(p, true);
        let c2s = map_to_super_spec(cr, sr);
        let cs = unit_summaries(p, cr);
        let ss = unit_summaries(p, sr);
        (
            clause_lessons(p, d, cr),
            sentence_lessons(p, d, sr, c2s, cs, sr.len() as int),
            paragraph_lessons(p, sr, ss),
            text_lessons(para_summaries(p, sr)),
        )
    }
}

fn slice_tokens(p: &Vec<Token7>, a: usize, b: usize) -> (r: Vec<Token7>)
    requires
        a <= b <= p@.len(),
    ensures
        r@ == p@.subrange(a as int, b as int),
{
    vstd::slice::slice_to_vec(vstd::slice::slice_subrange(p.as_slice(), a, b))
}

fn zeros(n: usize) -> (v: Vec<u8>)
    ensures
        v@ == Seq::new(n as nat, |_i: int| 0u8),
{
    let mut v: Vec<u8> = Vec::new();
    let mut i: usize = 0;
    while i < n
        invariant
            i <= n,
            v@ == Seq::new(i as nat, |_i: int| 0u8),
        decreases n - i,
    {
        v.push(0);
        i += 1;
        assert(v@ =~= Seq::new(i as nat, |_i: int| 0u8));
    }
    v
}

/// Ranges that lie inside a stream of `n` tokens, each non-empty, in order.
pub open spec fn ranges_ok(r: Seq<(usize, usize)>, n: int) -> bool {
    &&& forall|k: int| 0 <= k < r.len() ==> (#[trigger] r[k]).0 < r[k].1 && r[k].1 <= n
    &&& forall|k: int| 0 <= k < r.len() - 1 ==> (#[trigger] r[k]).1 == r[k + 1].0
    &&& forall|k1: int, k2: int| 0 <= k1 <= k2 < r.len() ==> (#[trigger] r[k1]).0 < (#[trigger] r[k2]).1
}

fn summaries_of(p: &Vec<Token7>, r: &Vec<(usize, usize)>) -> (s: Vec<Token7>)
    requires
        ranges_ok(r@, p@.len() as int),
    ensures
        s@ == unit_summaries(p@, r@),
{
    let mut s: Vec<Token7> = Vec::new();
    let mut k: usize = 0;
    while k < r.len()
        invariant
            k <= r@.len(),
            ranges_ok(r@, p@.len() as int),
            s@ == unit_summaries(p@, r@).take(k as int),
        decreases r.len() - k,
    {
        let (a, b) = r[k];
        let unit = slice_tokens(p, a, b);
        s.push(summarize_unit(unit.as_slice()));
        k += 1;
        assert(s@ =~= unit_summaries(p@, r@).take(k as int));
    }
    assert(s@ =~= unit_summaries(p@, r@));
    s
}

proof fn lemma_group(n: int, ps: int, g: int)
    requires
        1 <= ps <= n,
        0 <= g < (n + ps - 1) / ps,
    ensures
        0 <= g * ps < n,
        g * ps < (g + 1) * ps,
        (g + 1) * ps == g * ps + ps,
{
    assert((g + 1) * ps == g * ps + ps) by (nonlinear_arith);
    assert(g * ps < n) by (nonlinear_arith)
        requires
            1 <= ps,
            0 <= g,
            g < (n + ps - 1) / ps,
    {
        assert(g + 1 <= (n + ps - 1) / ps);
        assert((g + 1) * ps <= ((n + ps - 1) / ps) * ps);
        assert(((n + ps - 1) / ps) * ps <= n + ps - 1);
    }
    assert(0 <= g * ps) by (nonlinear_arith)
        requires
            0 <= g,
            1 <= ps,
    ;
    assert(g * ps < (g + 1) * ps) by (nonlinear_arith)
        requires
            1 <= ps,
    ;
}

fn clause_part(parsed: &Vec<Token7>, full_depths: &Vec<u8>, cr: &Vec<(usize, usize)>) -> (out: Vec<(Vec<Token7>, Vec<u8>)>)
    requires
        full_depths@ == clause_depths_spec(parsed@),
        ranges_ok(cr@, parsed@.len() as int),
    ensures
        lessons_view(out@) == clause_lessons(parsed@, full_depths@, cr@),
{
    let ghost p = parsed@;
    let ghost dv = full_depths@;
    let mut out: Vec<(Vec<Token7>, Vec<u8>)> = Vec::new();
    let mut k: usize = 0;
    while k < cr.len()
        invariant
            k <= cr@.len(),
            p == parsed@,
            dv == full_depths@,
            dv.len() == p.len(),
            ranges_ok(cr@, p.len() as int),
            lessons_view(out@) == clause_lessons(p, dv, cr@).take(k as int),
        decreases cr.len() - k,
    {
        let (a, b) = cr[k];
        let unit = slice_tokens(parsed, a, b);
        let root = summarize_unit(unit.as_slice());
        let mut seq: Vec<Token7> = Vec::new();
        seq.push(root);
        let mut seq_rest = unit;
        seq.append(&mut seq_rest);
        let mut depths: Vec<u8> = Vec::new();
        depths.push(full_depths[a]);
        let mut dr = vstd::slice::slice_to_vec(vstd::slice::slice_subrange(full_depths.as_slice(), a, b));
        depths.append(&mut dr);
        let ghost before = lessons_view(out@);
        assert((seq@, depths@) == clause_lessons(p, dv, cr@)[k as int]);
        out.push((seq, depths));
        proof {
            assert(lessons_view(out@) =~= before.push(clause_lessons(p, dv, cr@)[k as int]));
            assert(clause_lessons(p, dv, cr@).take(k + 1) =~= clause_lessons(p, dv, cr@).take(k as int).push(
                clause_lessons(p, dv, cr@)[k as int],
            ));
        }
        k += 1;
    }
    assert(clause_lessons(p, dv, cr@).take(k as int) =~= clause_lessons(p, dv, cr@));
    out
}

fn members_of(c2s: &Vec<usize>, cs: &Vec<Token7>, si: usize) -> (members: Vec<Token7>)
    requires
        c2s@.len() == cs@.len(),
    ensures
        members@ == clauses_of(c2s@, si as int).map_values(|ci: int| cs@[ci]),
{
    let mut members: Vec<Token7> = Vec::new();
    let mut c: usize = 0;
    let ghost mut idx: Seq<int> = Seq::empty();
    assert(c2s@.take(0) =~= Seq::<usize>::empty());
    while c < c2s.len()
        invariant
            c <= c2s@.len(),
            c2s@.len() == cs@.len(),
            idx == clauses_of(c2s@.take(c as int), si as int),
            members@ == idx.map_values(|ci: int| cs@[ci]),
        decreases c2s.len() - c,
    {
        assert(c2s@.take(c + 1).drop_last() =~= c2s@.take(c as int));
        if c2s[c] == si {
            members.push(cs[c]);
            proof {
                idx = idx.push(c as int);
            }
            assert(members@ =~= idx.map_values(|ci: int| cs@[ci]));
        }
        c += 1;
    }
    assert(c2s@.take(c as int) =~= c2s@);
    members
}

fn sentence_part(
    parsed: &Vec<Token7>,
    full_depths: &Vec<u8>,
    sr: &Vec<(usize, usize)>,
    c2s: &Vec<usize>,
    cs: &Vec<Token7>,
) -> (out: Vec<(Vec<Token7>, Vec<u8>)>)
    requires
        full_depths@.len() == parsed@.len(),
        ranges_ok(sr@, parsed@.len() as int),
        c2s@.len() == cs@.len(),
    ensures
        lessons_view(out@) == sentence_lessons(parsed@, full_depths@, sr@, c2s@, cs@, sr@.len() as int),
{
    let ghost p = parsed@;
    let ghost dv = full_depths@;
    let mut out: Vec<(Vec<Token7>, Vec<u8>)> = Vec::new();
    assert(lessons_view(out@) =~= Lessons::empty());
    let mut si: usize = 0;
    while si < sr.len()
        invariant
            si <= sr@.len(),
            p == parsed@,
            dv == full_depths@,
            dv.len() == p.len(),
            ranges_ok(sr@, p.len() as int),
            c2s@.len() == cs@.len(),
            lessons_view(out@) == sentence_lessons(p, dv, sr@, c2s@, cs@, si as int),
        decreases sr.len() - si,
    {
        let mut members = members_of(c2s, cs, si);
        if members.len() > 0 {
            let (a, b) = sr[si];
            let unit = slice_tokens(parsed, a, b);
            let mut seq: Vec<Token7> = Vec::new();
            seq.push(summarize_unit(unit.as_slice()));
            seq.append(&mut members);
            let depths = vstd::slice::slice_to_vec(vstd::slice::slice_subrange(full_depths.as_slice(), a, b));
            let ghost before = lessons_view(out@);
            out.push((seq, depths));
            assert(lessons_view(out@) =~= before.push(
                sentence_lessons(p, dv, sr@, c2s@, cs@, si + 1).last(),
            ));
        }
        si += 1;
    }
    out
}

fn paragraph_part(parsed: &Vec<Token7>, sr: &Vec<(usize, usize)>, ss: &Vec<Token7>) -> (r: (Vec<(Vec<Token7>, Vec<u8>)>, Vec<Token7>))
    requires
        parsed@.len() < 32768,
        sr@.len() >= 1,
        ranges_ok(sr@, parsed@.len() as int),
        ss@ == unit_summaries(parsed@, sr@),
    ensures
        lessons_view(r.0@) == paragraph_lessons(parsed@, sr@, ss@),
        r.1@ == para_summaries(parsed@, sr@),
{
    let ghost p = parsed@;
    let n_sent = sr.len();
    assert(n_sent <= parsed@.len()) by {
        lemma_ranges_count(sr@, p.len() as int);
    }
    let ps: usize = {
        let fifth = n_sent / 5;
        let s0: usize = if fifth > 8 { fifth } else { 8 };
        if s0 < n_sent { s0 } else { n_sent }
    };
    assert(ps == para_size(n_sent as int));
    let gc = (n_sent + ps - 1) / ps;
    assert(gc == group_count(n_sent as int));
    let mut out: Vec<(Vec<Token7>, Vec<u8>)> = Vec::new();
    let mut paras: Vec<Token7> = Vec::new();
    let mut g: usize = 0;
    assert(paras@ =~= para_summaries(p, sr@).take(0));
    assert(lessons_view(out@) =~= paragraph_lessons(p, sr@, ss@).take(0));
    while g < gc
        invariant
            g <= gc,
            gc == group_count(n_sent as int),
            ps == para_size(n_sent as int),
            1 <= ps <= n_sent,
            n_sent == sr@.len(),
            n_sent <= p.len() < 32768,
            p == parsed@,
            ranges_ok(sr@, p.len() as int),
            ss@ == unit_summaries(p, sr@),
            gc == (n_sent + ps - 1) / (ps as int),
            paras@ == para_summaries(p, sr@).take(g as int),
            lessons_view(out@) == paragraph_lessons(p, sr@, ss@).take(g as int),
        decreases gc - g,
    {
        proof {
            lemma_group(n_sent as int, ps as int, g as int);
        }
        let lo = g * ps;
        let hi = if (g + 1) * ps < n_sent { (g + 1) * ps } else { n_sent };
        assert((lo as int, hi as int) == group_bounds(n_sent as int, g as int));
        let pa = sr[lo].0;
        let pb = sr[hi - 1].1;
        assert(pa < pb);
        assert((pa as int, pb as int) == group_span(sr@, g as int));
        let unit = slice_tokens(parsed, pa, pb);
        let root = summarize_unit(unit.as_slice());
        assert(root == para_summaries(p, sr@)[g as int]);
        let mut seq: Vec<Token7> = Vec::new();
        seq.push(root);
        let mut part = vstd::slice::slice_to_vec(vstd::slice::slice_subrange(ss.as_slice(), lo, hi));
        seq.append(&mut part);
        let depths = zeros(seq.len());
        let ghost before = lessons_view(out@);
        assert(seq@ =~= seq![para_summaries(p, sr@)[g as int]] + ss@.subrange(lo as int, hi as int));
        assert((seq@, depths@) == paragraph_lessons(p, sr@, ss@)[g as int]);
        out.push((seq, depths));
        paras.push(root);
        proof {
            assert(paras@ =~= para_summaries(p, sr@).take(g + 1));
            assert(lessons_view(out@) =~= before.push(paragraph_lessons(p, sr@, ss@)[g as int]));
            assert(lessons_view(out@) =~= paragraph_lessons(p, sr@, ss@).take(g + 1));
        }
        g += 1;
    }
    assert(paras@ =~= para_summaries(p, sr@));
    assert(lessons_view(out@) =~= paragraph_lessons(p, sr@, ss@));
    (out, paras)
}

proof fn lemma_ranges_count(r: Seq<(usize, usize)>, n: int)
    requires
        0 <= n,
        ranges_ok(r, n),
    ensures
        r.len() <= n,
{
    if r.len() > 0 {
        assert forall|k: int| 0 <= k < r.len() implies (#[trigger] r[k]).0 >= k by {
            lemma_range_start(r, n, k);
        }
        let last = r.len() - 1;
        lemma_range_start(r, n, last);
        assert(r[last].0 >= last);
        assert(r[last].0 < r[last].1 && r[last].1 <= n);
    }
}

proof fn lemma_range_start(r: Seq<(usize, usize)>, n: int, k: int)
    requires
        ranges_ok(r, n),
        0 <= k < r.len(),
    ensures
        r[k].0 >= k,
    decreases k,
{
    if k > 0 {
        lemma_range_start(r, n, k - 1);
        assert(r[k - 1].0 < r[k - 1].1);
        assert(r[k - 1].1 == r[k].0);
    }
}

fn text_part(paras: &Vec<Token7>) -> (out: Vec<(Vec<Token7>, Vec<u8>)>)
    ensures
        lessons_view(out@) == text_lessons(paras@),
{
    let mut out: Vec<(Vec<Token7>, Vec<u8>)> = Vec::new();
    let np = paras.len();
    let m: usize = if np < 200 { np } else { 200 };
    if np >= 2 && m >= ORDER_TEXT + 1 {
        let mut w: usize = 0;
        assert(lessons_view(out@) =~= text_lessons(paras@).take(0));
        while w < m - ORDER_TEXT
            invariant
                m <= paras@.len(),
                m >= ORDER_TEXT + 1,
                w <= m - ORDER_TEXT,
                np == paras@.len(),
                np >= 2,
                m == (if np < 200 { np } else { 200 }),
                lessons_view(out@) == text_lessons(paras@).take(w as int),
            decreases m - ORDER_TEXT - w,
        {
            let win = vstd::slice::slice_to_vec(vstd::slice::slice_subrange(paras.as_slice(), w, w + ORDER_TEXT + 1));
            let depths = zeros(ORDER_TEXT + 1);
            let ghost before = lessons_view(out@);
            assert((win@, depths@) == text_lessons(paras@)[w as int]);
            out.push((win, depths));
            assert(lessons_view(out@) =~= before.push(text_lessons(paras@)[w as int]));
            w += 1;
            assert(lessons_view(out@) =~= text_lessons(paras@).take(w as int));
        }
        assert(text_lessons(paras@).take(w as int) =~= text_lessons(paras@));
    } else {
        assert(lessons_view(out@) =~= text_lessons(paras@));
    }
    out
}

/// The sequences each cube level is trained on (see `plan_spec`).
pub fn train_plan(tokens: &[Token7]) -> (plan: TrainPlan)
    requires
        tokens@.len() < 32768,
    ensures
        (lessons_view(plan.clause@), lessons_view(plan.sentence@), lessons_view(plan.paragraph@), lessons_view(
            plan.text@,
        )) == plan_spec(tokens@),
{
    if tokens.len() < 3 {
        let plan = TrainPlan { clause: Vec::new(), sentence: Vec::new(), paragraph: Vec::new(), text: Vec::new() };
        assert(lessons_view(plan.clause@) =~= Lessons::empty());
        assert(lessons_view(plan.sentence@) =~= Lessons::empty());
        assert(lessons_view(plan.paragraph@) =~= Lessons::empty());
        assert(lessons_view(plan.text@) =~= Lessons::empty());
        return plan;
    }
    let parsed = assign_dependencies(tokens);
    let ghost p = parsed@;
    let n = parsed.len();
    let full_depths = compute_clause_depths(parsed.as_slice());
    let cb = find_clause_boundaries(parsed.as_slice());
    let cr = to_ranges(cb.as_slice(), n);
    let sb = find_sentence_boundaries(parsed.as_slice());
    let sr = to_ranges(sb.as_slice(), n);
    proof {
        lemma_units_tile(p, false);
        lemma_units_tile(p, true);
    }
    assert(ranges_ok(cr@, n as int));
    assert(ranges_ok(sr@, n as int));
    let cs = summaries_of(&parsed, &cr);
    let ss = summaries_of(&parsed, &sr);
    let clause = clause_part(&parsed, &full_depths, &cr);
    let c2s = map_to_super(cr.as_slice(), sr.as_slice());
    proof {
        lemma_super_fold_bound(cr@, sr@, cr@.len() as int);
    }
    let sentence = sentence_part(&parsed, &full_depths, &sr, &c2s, &cs);
    let (paragraph, paras) = paragraph_part(&parsed, &sr, &ss);
    let text = text_part(&paras);
    TrainPlan { clause, sentence, paragraph, text }
}

} // verus!
