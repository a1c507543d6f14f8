//! A cube's stored form: its order, its interpolation weights, each
//! context with its total and next-root counts, and the unigram counts.
//! Counts and weights are carried as the bits of their `f32` values.
use vstd::prelude::*;
use vstd::bytes::{spec_u128_from_le_bytes, spec_u128_to_le_bytes, spec_u32_to_le_bytes, u128_from_le_bytes, u128_to_le_bytes};
use crate::amadeus_m::compiler_state::{push_bytes, push_u32, rd_u32};
use crate::amadeus_m::count_tables::{
    Width, get_pair_list, get_word, lemma_read_pairs, lemma_seq_step, pair_bytes, pair_reader, push_pair_list,
    get_cell, lemma_concat_len, read_pair, read_seq,
};
use crate::quant::gguf::{at, concat_map, lemma_at_concat, lemma_concat_push, lemma_read_u32};

verus! {

/// A context of the cube: its packed words, the bits of its total and the
/// next roots with the bits of their counts.
#[derive(Debug)]
pub struct CubeContext {
    pub ctx: Vec<u128>,
    pub total: u32,
    pub nexts: Vec<(u32, u32)>,
}

pub type ContextView = (Seq<u128>, u32, Seq<(u32, u32)>);

pub open spec fn context_view(c: CubeContext) -> ContextView {
    (c.ctx@, c.total, c.nexts@)
}

pub open spec fn contexts_view(cs: Seq<CubeContext>) -> Seq<ContextView> {
    cs.map_values(|c: CubeContext| context_view(c))
}

/// What a cube stores.
#[derive(Debug)]
pub struct CubeRecord {
    pub order: u32,
    pub lambda: Vec<u32>,
    pub contexts: Vec<CubeContext>,
    pub unigram_total: u32,
    pub unigram: Vec<(u32, u32)>,
}

pub struct CubeView {
    pub order: u32,
    pub lambda: Seq<u32>,
    pub contexts: Seq<ContextView>,
    pub unigram_total: u32,
    pub unigram: Seq<(u32, u32)>,
}

pub open spec fn cube_view(c: CubeRecord) -> CubeView {
    CubeView {
        order: c.order,
        lambda: c.lambda@,
        contexts: contexts_view(c.contexts@),
        unigram_total: c.unigram_total,
        unigram: c.unigram@,
    }
}

pub open spec fn word_bytes(x: u32) -> Seq<u8> {
    spec_u32_to_le_bytes(x)
}

pub open spec fn wide_bytes(x: u128) -> Seq<u8> {
    spec_u128_to_le_bytes(x)
}

/// A context as stored: its length (`u32`), its words (16 bytes each), its
/// total, its next count (`u32`) and its pairs.
pub open spec fn context_bytes(c: ContextView) -> Seq<u8> {
    word_bytes(c.0.len() as u32) + concat_map(c.0, |x: u128| wide_bytes(x)) + word_bytes(c.1)
        + word_bytes(c.2.len() as u32) + concat_map(c.2, |p: (u32, u32)| pair_bytes(p, Width::Four))
}

/// A cube as stored: its order, its weights, the context count and the
/// contexts, then the unigram count, the unigram total and the unigram
/// pairs.
pub open spec fn cube_bytes(c: CubeView) -> Seq<u8> {
    word_bytes(c.order) + concat_map(c.lambda, |x: u32| word_bytes(x)) + word_bytes(
        c.contexts.len() as u32,
    ) + concat_map(c.contexts, |x: ContextView| context_bytes(x)) + word_bytes(
        c.unigram.len() as u32,
    ) + word_bytes(c.unigram_total) + concat_map(c.unigram, |p: (u32, u32)| pair_bytes(p, Width::Four))
}

fn push_words(data: &mut Vec<u8>, xs: &[u32])
    ensures
        final(data)@ == old(data)@ + concat_map(xs@, |x: u32| word_bytes(x)),
{
    let ghost f = |x: u32| word_bytes(x);
    let mut i: usize = 0;
    while i < xs.len()
        invariant
            i <= xs@.len(),
            f == (|x: u32| word_bytes(x)),
            data@ == old(data)@ + concat_map(xs@.take(i as int), f),
        decreases xs.len() - i,
    {
        proof {
            lemma_concat_push(xs@.take(i as int), xs@[i as int], f);
            assert(xs@.take(i as int).push(xs@[i as int]) =~= xs@.take(i + 1));
        }
        push_u32(data, xs[i]);
        i += 1;
    }
    assert(xs@.take(xs@.len() as int) =~= xs@);
}

fn push_wides(data: &mut Vec<u8>, xs: &[u128])
    ensures
        final(data)@ == old(data)@ + concat_map(xs@, |x: u128| wide_bytes(x)),
{
    let ghost f = |x: u128| wide_bytes(x);
    let mut i: usize = 0;
    while i < xs.len()
        invariant
            i <= xs@.len(),
            f == (|x: u128| wide_bytes(x)),
            data@ == old(data)@ + concat_map(xs@.take(i as int), f),
        decreases xs.len() - i,
    {
        proof {
            lemma_concat_push(xs@.take(i as int), xs@[i as int], f);
            assert(xs@.take(i as int).push(xs@[i as int]) =~= xs@.take(i + 1));
        }
        let b = u128_to_le_bytes(xs[i]);
        push_bytes(data, b.as_slice());
        i += 1;
    }
    assert(xs@.take(xs@.len() as int) =~= xs@);
}

fn push_context(data: &mut Vec<u8>, c: &CubeContext)
    ensures
        final(data)@ == old(data)@ + context_bytes(context_view(*c)),
{
    push_u32(data, c.ctx.len() as u32);
    push_wides(data, c.ctx.as_slice());
    push_u32(data, c.total);
    push_u32(data, c.nexts.len() as u32);
    push_pair_list(data, c.nexts.as_slice(), Width::Four);
    assert(data@ =~= old(data)@ + context_bytes(context_view(*c)));
}

/// Appends the cube's record (see `cube_bytes`).
pub fn write_cube(data: &mut Vec<u8>, c: &CubeRecord)
    ensures
        final(data)@ == old(data)@ + cube_bytes(cube_view(*c)),
{
    push_u32(data, c.order);
    push_words(data, c.lambda.as_slice());
    push_u32(data, c.contexts.len() as u32);
    let ghost f = |x: ContextView| context_bytes(x);
    let ghost start = data@;
    let ghost cv = contexts_view(c.contexts@);
    let mut i: usize = 0;
    while i < c.contexts.len()
        invariant
            i <= c.contexts@.len(),
            f == (|x: ContextView| context_bytes(x)),
            cv == contexts_view(c.contexts@),
            data@ == start + concat_map(cv.take(i as int), f),
        decreases c.contexts.len() - i,
    {
        proof {
            lemma_concat_push(cv.take(i as int), cv[i as int], f);
            assert(cv.take(i as int).push(cv[i as int]) =~= cv.take(i + 1));
        }
        push_context(data, &c.contexts[i]);
        i += 1;
    }
    assert(cv.take(cv.len() as int) =~= cv);
    push_u32(data, c.unigram.len() as u32);
    push_u32(data, c.unigram_total);
    push_pair_list(data, c.unigram.as_slice(), Width::Four);
    assert(data@ =~= old(data)@ + cube_bytes(cube_view(*c)));
}


// ───────────────────────── reading ─────────────────────────

pub open spec fn word_reader(d: Seq<u8>) -> spec_fn(int) -> Option<(u32, int)> {
    |x: int| rd_u32(d, x)
}

pub open spec fn rd_u128(d: Seq<u8>, p: int) -> Option<(u128, int)> {
    if 0 <= p && p + 16 <= d.len() {
        Some((spec_u128_from_le_bytes(d.subrange(p, p + 16)), p + 16))
    } else {
        None
    }
}

pub open spec fn wide_reader(d: Seq<u8>) -> spec_fn(int) -> Option<(u128, int)> {
    |x: int| rd_u128(d, x)
}

pub open spec fn read_context(d: Seq<u8>, p: int) -> Option<(ContextView, int)> {
    match rd_u32(d, p) {
        Some((len, q)) => match read_seq(q, len as nat, wide_reader(d)) {
            Some((ctx, q2)) => match rd_u32(d, q2) {
                Some((total, q3)) => match rd_u32(d, q3) {
                    Some((n, q4)) => match read_seq(q4, n as nat, pair_reader(d, Width::Four)) {
                        Some((ps, r)) => Some(((ctx, total, ps), r)),
                        None => None,
                    },
                    None => None,
                },
                None => None,
            },
            None => None,
        },
        None => None,
    }
}

pub open spec fn context_reader(d: Seq<u8>) -> spec_fn(int) -> Option<(ContextView, int)> {
    |x: int| read_context(d, x)
}

/// A cube record at `p` (see `cube_bytes`): `order` weights are read after
/// the order. `None` when the bytes end inside it.
pub open spec fn read_cube_spec(d: Seq<u8>, p: int) -> Option<(CubeView, int)> {
    match rd_u32(d, p) {
        Some((order, q)) => match read_seq(q, order as nat, word_reader(d)) {
            Some((lambda, q2)) => match rd_u32(d, q2) {
                Some((n, q3)) => match read_seq(q3, n as nat, context_reader(d)) {
                    Some((contexts, q4)) => match rd_u32(d, q4) {
                        Some((nu, q5)) => match rd_u32(d, q5) {
                            Some((unigram_total, q6)) => match read_seq(q6, nu as nat, pair_reader(d, Width::Four)) {
                                Some((unigram, r)) => Some(
                                    (CubeView { order, lambda, contexts, unigram_total, unigram }, r),
                                ),
                                None => None,
                            },
                            None => None,
                        },
                        None => None,
                    },
                    None => None,
                },
                None => None,
            },
            None => None,
        },
        None => None,
    }
}

fn get_words(d: &[u8], p: usize, n: u32) -> (r: Option<(Vec<u32>, usize)>)
    ensures
        match r {
            Some((v, q)) => read_seq(p as int, n as nat, word_reader(d@)) == Some((v@, q as int)),
            None => read_seq(p as int, n as nat, word_reader(d@)) is None,
        },
{
    let ghost f = word_reader(d@);
    let mut out: Vec<u32> = Vec::new();
    let mut q = p;
    let mut i: u32 = 0;
    while i < n
        invariant
            i <= n,
            f == word_reader(d@),
            read_seq(p as int, n as nat, f) == (match read_seq(q as int, (n - i) as nat, f) {
                Some((rest, e)) => Some((out@ + rest, e)),
                None => None,
            }),
        decreases n - i,
    {
        match get_word(d, q) {
            Some((x, q2)) => {
                proof {
                    lemma_seq_step(q as int, (n - i) as nat, f, x, q2 as int);
                    match read_seq(q2 as int, (n - i - 1) as nat, f) {
                        Some((rest, e)) => {
                            assert(out@ + (seq![x] + rest) =~= out@.push(x) + rest);
                        },
                        None => {},
                    }
                }
                out.push(x);
                q = q2;
            },
            None => {
                assert(f(q as int) is None);
                return None;
            },
        }
        i += 1;
    }
    assert(out@ + Seq::<u32>::empty() =~= out@);
    Some((out, q))
}

fn get_wide(d: &[u8], p: usize) -> (r: Option<(u128, usize)>)
    ensures
        match r {
            Some((x, q)) => rd_u128(d@, p as int) == Some((x, q as int)),
            None => rd_u128(d@, p as int) is None,
        },
{
    let n = d.len();
    if p <= n && 16 <= n - p {
        Some((u128_from_le_bytes(vstd::slice::slice_subrange(d, p, p + 16)), p + 16))
    } else {
        None
    }
}

fn get_wides(d: &[u8], p: usize, n: u32) -> (r: Option<(Vec<u128>, usize)>)
    ensures
        match r {
            Some((v, q)) => read_seq(p as int, n as nat, wide_reader(d@)) == Some((v@, q as int)),
            None => read_seq(p as int, n as nat, wide_reader(d@)) is None,
        },
{
    let ghost f = wide_reader(d@);
    let mut out: Vec<u128> = Vec::new();
    let mut q = p;
    let mut i: u32 = 0;
    while i < n
        invariant
            i <= n,
            f == wide_reader(d@),
            read_seq(p as int, n as nat, f) == (match read_seq(q as int, (n - i) as nat, f) {
                Some((rest, e)) => Some((out@ + rest, e)),
                None => None,
            }),
        decreases n - i,
    {
        match get_wide(d, q) {
            Some((x, q2)) => {
                proof {
                    lemma_seq_step(q as int, (n - i) as nat, f, x, q2 as int);
                    match read_seq(q2 as int, (n - i - 1) as nat, f) {
                        Some((rest, e)) => {
                            assert(out@ + (seq![x] + rest) =~= out@.push(x) + rest);
                        },
                        None => {},
                    }
                }
                out.push(x);
                q = q2;
            },
            None => {
                assert(f(q as int) is None);
                return None;
            },
        }
        i += 1;
    }
    assert(out@ + Seq::<u128>::empty() =~= out@);
    Some((out, q))
}

fn get_context(d: &[u8], p: usize) -> (r: Option<(CubeContext, usize)>)
    ensures
        match r {
            Some((c, q)) => read_context(d@, p as int) == Some((context_view(c), q as int)),
            None => read_context(d@, p as int) is None,
        },
{
    let (len, q) = match get_word(d, p) {
        Some(x) => x,
        None => return None,
    };
    let (ctx, q2) = match get_wides(d, q, len) {
        Some(x) => x,
        None => return None,
    };
    let (total, q3) = match get_word(d, q2) {
        Some(x) => x,
        None => return None,
    };
    let (n, q4) = match get_word(d, q3) {
        Some(x) => x,
        None => return None,
    };
    let (nexts, r) = match get_pair_list(d, q4, n, Width::Four) {
        Some(x) => x,
        None => return None,
    };
    Some((CubeContext { ctx, total, nexts }, r))
}

fn get_contexts(d: &[u8], p: usize, n: u32) -> (r: Option<(Vec<CubeContext>, usize)>)
    ensures
        match r {
            Some((v, q)) => read_seq(p as int, n as nat, context_reader(d@)) == Some((contexts_view(v@), q as int)),
            None => read_seq(p as int, n as nat, context_reader(d@)) is None,
        },
{
    let ghost f = context_reader(d@);
    let mut out: Vec<CubeContext> = Vec::new();
    let mut q = p;
    let mut i: u32 = 0;
    while i < n
        invariant
            i <= n,
            f == context_reader(d@),
            read_seq(p as int, n as nat, f) == (match read_seq(q as int, (n - i) as nat, f) {
                Some((rest, e)) => Some((contexts_view(out@) + rest, e)),
                None => None,
            }),
        decreases n - i,
    {
        match get_context(d, q) {
            Some((c, q2)) => {
                proof {
                    lemma_seq_step(q as int, (n - i) as nat, f, context_view(c), q2 as int);
                    match read_seq(q2 as int, (n - i - 1) as nat, f) {
                        Some((rest, e)) => {
                            assert(contexts_view(out@) + (seq![context_view(c)] + rest) =~= contexts_view(out@.push(c)) + rest);
                        },
                        None => {},
                    }
                }
                out.push(c);
                q = q2;
            },
            None => {
                assert(f(q as int) is None);
                return None;
            },
        }
        i += 1;
    }
    assert(contexts_view(out@) + Seq::<ContextView>::empty() =~= contexts_view(out@));
    Some((out, q))
}

/// Reads a cube record at `off` (see `read_cube_spec`).
pub fn read_cube(d: &[u8], off: usize) -> (r: Option<(CubeRecord, usize)>)
    ensures
        match r {
            Some((c, q)) => read_cube_spec(d@, off as int) == Some((cube_view(c), q as int)),
            None => read_cube_spec(d@, off as int) is None,
        },
{
    let (order, q) = match get_word(d, off) {
        Some(x) => x,
        None => return None,
    };
    let (lambda, q2) = match get_words(d, q, order) {
        Some(x) => x,
        None => return None,
    };
    let (n, q3) = match get_word(d, q2) {
        Some(x) => x,
        None => return None,
    };
    let (contexts, q4) = match get_contexts(d, q3, n) {
        Some(x) => x,
        None => return None,
    };
    let (nu, q5) = match get_word(d, q4) {
        Some(x) => x,
        None => return None,
    };
    let (unigram_total, q6) = match get_word(d, q5) {
        Some(x) => x,
        None => return None,
    };
    let (unigram, r) = match get_pair_list(d, q6, nu, Width::Four) {
        Some(x) => x,
        None => return None,
    };
    Some((CubeRecord { order, lambda, contexts, unigram_total, unigram }, r))
}


// ───────────────────────── reading back what was written ─────────────────────────

/// A cube the record holds exactly: as many weights as its order and every
/// count within a `u32`.
pub open spec fn storable_cube(c: CubeView) -> bool {
    &&& c.lambda.len() == c.order
    &&& c.contexts.len() <= u32::MAX
    &&& c.unigram.len() <= u32::MAX
    &&& forall|i: int| 0 <= i < c.contexts.len() ==> (#[trigger] c.contexts[i]).0.len() <= u32::MAX
        && c.contexts[i].2.len() <= u32::MAX
}

proof fn lemma_read_words(d: Seq<u8>, p: int, xs: Seq<u32>)
    requires
        at(d, p, concat_map(xs, |x: u32| word_bytes(x))),
    ensures
        read_seq(p, xs.len(), word_reader(d)) == Some((xs, p + concat_map(xs, |x: u32| word_bytes(x)).len())),
    decreases xs.len(),
{
    let f = |x: u32| word_bytes(x);
    if xs.len() == 0 {
        assert(xs =~= Seq::<u32>::empty());
    } else {
        let tail = xs.subrange(1, xs.len() as int);
        lemma_at_concat(d, p, f(xs[0]), concat_map(tail, f));
        lemma_read_u32(d, p, xs[0]);
        assert(d.subrange(p, p + 4) == word_bytes(xs[0]));
        lemma_read_words(d, p + 4, tail);
        assert(seq![xs[0]] + tail =~= xs);
    }
}

proof fn lemma_read_wides(d: Seq<u8>, p: int, xs: Seq<u128>)
    requires
        at(d, p, concat_map(xs, |x: u128| wide_bytes(x))),
    ensures
        read_seq(p, xs.len(), wide_reader(d)) == Some((xs, p + concat_map(xs, |x: u128| wide_bytes(x)).len())),
    decreases xs.len(),
{
    let f = |x: u128| wide_bytes(x);
    if xs.len() == 0 {
        assert(xs =~= Seq::<u128>::empty());
    } else {
        let tail = xs.subrange(1, xs.len() as int);
        vstd::bytes::lemma_auto_spec_u128_to_from_le_bytes();
        lemma_at_concat(d, p, f(xs[0]), concat_map(tail, f));
        assert(d.subrange(p, p + 16) == wide_bytes(xs[0]));
        lemma_read_wides(d, p + 16, tail);
        assert(seq![xs[0]] + tail =~= xs);
    }
}

proof fn lemma_read_context(d: Seq<u8>, p: int, c: ContextView)
    requires
        at(d, p, context_bytes(c)),
        c.0.len() <= u32::MAX,
        c.2.len() <= u32::MAX,
    ensures
        read_context(d, p) == Some((c, p + context_bytes(c).len())),
{
    vstd::bytes::lemma_auto_spec_u32_to_from_le_bytes();
    let lb = word_bytes(c.0.len() as u32);
    let wb = concat_map(c.0, |x: u128| wide_bytes(x));
    let tb = word_bytes(c.1);
    let nb = word_bytes(c.2.len() as u32);
    let pb = concat_map(c.2, |x: (u32, u32)| pair_bytes(x, Width::Four));
    assert(context_bytes(c) =~= lb + (wb + (tb + (nb + pb))));
    lemma_at_concat(d, p, lb, wb + (tb + (nb + pb)));
    lemma_at_concat(d, p + 4, wb, tb + (nb + pb));
    lemma_at_concat(d, p + 4 + wb.len(), tb, nb + pb);
    lemma_at_concat(d, p + 8 + wb.len(), nb, pb);
    lemma_read_u32(d, p, c.0.len() as u32);
    assert(d.subrange(p, p + 4) == lb);
    lemma_read_wides(d, p + 4, c.0);
    lemma_read_u32(d, p + 4 + wb.len(), c.1);
    assert(d.subrange(p + 4 + wb.len(), p + 8 + wb.len()) == tb);
    lemma_read_u32(d, p + 8 + wb.len(), c.2.len() as u32);
    assert(d.subrange(p + 8 + wb.len(), p + 12 + wb.len()) == nb);
    lemma_read_pairs(d, p + 12 + wb.len(), Width::Four, c.2);
}

proof fn lemma_read_contexts(d: Seq<u8>, p: int, cs: Seq<ContextView>)
    requires
        at(d, p, concat_map(cs, |x: ContextView| context_bytes(x))),
        forall|i: int| 0 <= i < cs.len() ==> (#[trigger] cs[i]).0.len() <= u32::MAX && cs[i].2.len() <= u32::MAX,
    ensures
        read_seq(p, cs.len(), context_reader(d)) == Some(
            (cs, p + concat_map(cs, |x: ContextView| context_bytes(x)).len()),
        ),
    decreases cs.len(),
{
    let f = |x: ContextView| context_bytes(x);
    if cs.len() == 0 {
        assert(cs =~= Seq::<ContextView>::empty());
    } else {
        let tail = cs.subrange(1, cs.len() as int);
        lemma_at_concat(d, p, f(cs[0]), concat_map(tail, f));
        lemma_read_context(d, p, cs[0]);
        assert forall|i: int| 0 <= i < tail.len() implies (#[trigger] tail[i]).0.len() <= u32::MAX
            && tail[i].2.len() <= u32::MAX by {
            assert(cs[i + 1] == tail[i]);
        }
        lemma_read_contexts(d, p + context_bytes(cs[0]).len(), tail);
        assert(seq![cs[0]] + tail =~= cs);
    }
}

/// Reading a cube record gives back the cube it was written from, whatever
/// precedes and follows it, when it has as many weights as its order.
#[verifier::rlimit(30)]
pub proof fn lemma_cube_roundtrip(c: CubeView, pre: Seq<u8>, rest: Seq<u8>)
    requires
        storable_cube(c),
    ensures
        read_cube_spec(pre + cube_bytes(c) + rest, pre.len() as int) == Some(
            (c, (pre.len() + cube_bytes(c).len()) as int),
        ),
{
    vstd::bytes::lemma_auto_spec_u32_to_from_le_bytes();
    let d = pre + cube_bytes(c) + rest;
    let p = pre.len() as int;
    let ob = word_bytes(c.order);
    let lb = concat_map(c.lambda, |x: u32| word_bytes(x));
    let nb = word_bytes(c.contexts.len() as u32);
    let cb = concat_map(c.contexts, |x: ContextView| context_bytes(x));
    let ub = word_bytes(c.unigram.len() as u32);
    let tb = word_bytes(c.unigram_total);
    let pb = concat_map(c.unigram, |x: (u32, u32)| pair_bytes(x, Width::Four));
    let all = ob + (lb + (nb + (cb + (ub + (tb + pb)))));
    assert(cube_bytes(c) =~= all);
    assert(d.subrange(p, p + all.len()) =~= all);
    lemma_at_concat(d, p, ob, lb + (nb + (cb + (ub + (tb + pb)))));
    let p1 = p + 4;
    lemma_at_concat(d, p1, lb, nb + (cb + (ub + (tb + pb))));
    let p2 = p1 + lb.len();
    lemma_at_concat(d, p2, nb, cb + (ub + (tb + pb)));
    let p3 = p2 + 4;
    lemma_at_concat(d, p3, cb, ub + (tb + pb));
    let p4 = p3 + cb.len();
    lemma_at_concat(d, p4, ub, tb + pb);
    let p5 = p4 + 4;
    lemma_at_concat(d, p5, tb, pb);
    let p6 = p5 + 4;
    lemma_read_u32(d, p, c.order);
    assert(d.subrange(p, p + 4) == ob);
    lemma_read_words(d, p1, c.lambda);
    lemma_read_u32(d, p2, c.contexts.len() as u32);
    assert(d.subrange(p2, p2 + 4) == nb);
    lemma_read_contexts(d, p3, c.contexts);
    lemma_read_u32(d, p4, c.unigram.len() as u32);
    assert(d.subrange(p4, p4 + 4) == ub);
    lemma_read_u32(d, p5, c.unigram_total);
    assert(d.subrange(p5, p5 + 4) == tb);
    lemma_read_pairs(d, p6, Width::Four, c.unigram);
}


// ───────────────────────── the cube blob ─────────────────────────

/// A cube's blob: the context count and each context (its length, its
/// words, its next count and pairs), then the unigram count, total and
/// pairs, then the weight count and weights. Orders and context totals are
/// not stored.
pub open spec fn blob_bytes(c: CubeView) -> Seq<u8> {
    word_bytes(c.contexts.len() as u32) + concat_map(c.contexts, |x: ContextView| blob_context_bytes(x))
        + word_bytes(c.unigram.len() as u32) + word_bytes(c.unigram_total) + concat_map(
        c.unigram,
        |p: (u32, u32)| pair_bytes(p, Width::Four),
    ) + word_bytes(c.lambda.len() as u32) + concat_map(c.lambda, |x: u32| word_bytes(x))
}

pub open spec fn blob_context_bytes(c: ContextView) -> Seq<u8> {
    word_bytes(c.0.len() as u32) + concat_map(c.0, |x: u128| wide_bytes(x)) + word_bytes(c.2.len() as u32)
        + concat_map(c.2, |p: (u32, u32)| pair_bytes(p, Width::Four))
}

fn push_blob_context(data: &mut Vec<u8>, c: &CubeContext)
    ensures
        final(data)@ == old(data)@ + blob_context_bytes(context_view(*c)),
{
    push_u32(data, c.ctx.len() as u32);
    push_wides(data, c.ctx.as_slice());
    push_u32(data, c.nexts.len() as u32);
    push_pair_list(data, c.nexts.as_slice(), Width::Four);
    assert(data@ =~= old(data)@ + blob_context_bytes(context_view(*c)));
}

/// The cube's blob (see `blob_bytes`).
pub fn write_blob(c: &CubeRecord) -> (data: Vec<u8>)
    ensures
        data@ == blob_bytes(cube_view(*c)),
{
    let mut data: Vec<u8> = Vec::new();
    push_u32(&mut data, c.contexts.len() as u32);
    let ghost f = |x: ContextView| blob_context_bytes(x);
    let ghost start = data@;
    let ghost cv = contexts_view(c.contexts@);
    let mut i: usize = 0;
    while i < c.contexts.len()
        invariant
            i <= c.contexts@.len(),
            f == (|x: ContextView| blob_context_bytes(x)),
            cv == contexts_view(c.contexts@),
            data@ == start + concat_map(cv.take(i as int), f),
        decreases c.contexts.len() - i,
    {
        proof {
            lemma_concat_push(cv.take(i as int), cv[i as int], f);
            assert(cv.take(i as int).push(cv[i as int]) =~= cv.take(i + 1));
        }
        push_blob_context(&mut data, &c.contexts[i]);
        i += 1;
    }
    assert(cv.take(cv.len() as int) =~= cv);
    push_u32(&mut data, c.unigram.len() as u32);
    push_u32(&mut data, c.unigram_total);
    push_pair_list(&mut data, c.unigram.as_slice(), Width::Four);
    push_u32(&mut data, c.lambda.len() as u32);
    push_words(&mut data, c.lambda.as_slice());
    assert(data@ =~= blob_bytes(cube_view(*c)));
    data
}

/// A context read back from a blob: its words and its pairs.
#[derive(Debug)]
pub struct BlobContext {
    pub ctx: Vec<u128>,
    pub nexts: Vec<(u32, u32)>,
}

pub type BlobContextView = (Seq<u128>, Seq<(u32, u32)>);

pub open spec fn blob_context_view(c: BlobContext) -> BlobContextView {
    (c.ctx@, c.nexts@)
}

pub open spec fn blob_contexts_view(cs: Seq<BlobContext>) -> Seq<BlobContextView> {
    cs.map_values(|c: BlobContext| blob_context_view(c))
}

/// What reading a blob gives: the contexts, the unigram total and pairs,
/// and the weights when the blob has a weight section (`None` leaves a
/// cube's weights as they were).
#[derive(Debug)]
pub struct BlobContents {
    pub contexts: Vec<BlobContext>,
    pub unigram_total: u32,
    pub unigram: Vec<(u32, u32)>,
    pub lambda: Option<Vec<u32>>,
}

pub struct BlobView {
    pub contexts: Seq<BlobContextView>,
    pub unigram_total: u32,
    pub unigram: Seq<(u32, u32)>,
    pub lambda: Option<Seq<u32>>,
}

pub open spec fn blob_view(b: BlobContents) -> BlobView {
    BlobView {
        contexts: blob_contexts_view(b.contexts@),
        unigram_total: b.unigram_total,
        unigram: b.unigram@,
        lambda: match b.lambda {
            Some(l) => Some(l@),
            None => None,
        },
    }
}

/// Up to `n` contexts from `p`; reading stops at a context whose length is
/// 0 or above `limit`, or whose parts run past the end, leaving the
/// position after the last field read.
pub open spec fn blob_contexts(d: Seq<u8>, p: int, n: nat, limit: int) -> (Seq<BlobContextView>, int)
    decreases n,
{
    if n == 0 {
        (Seq::empty(), p)
    } else {
        match rd_u32(d, p) {
            None => (Seq::empty(), p),
            Some((len, q)) => if len == 0 || len > limit || q + 16 * len > d.len() {
                (Seq::empty(), q)
            } else {
                match read_seq(q, len as nat, wide_reader(d)) {
                    None => (Seq::empty(), q),
                    Some((ctx, q2)) => match rd_u32(d, q2) {
                        None => (Seq::empty(), q2),
                        Some((nn, q3)) => if q3 + 8 * nn > d.len() {
                            (Seq::empty(), q3)
                        } else {
                            match read_seq(q3, nn as nat, pair_reader(d, Width::Four)) {
                                None => (Seq::empty(), q3),
                                Some((ps, q4)) => {
                                    let (rest, r) = blob_contexts(d, q4, (n - 1) as nat, limit);
                                    (seq![(ctx, ps)] + rest, r)
                                },
                            }
                        },
                    },
                }
            },
        }
    }
}

/// Up to `n` pairs from `p`, as many as the bytes hold.
pub open spec fn blob_pairs(d: Seq<u8>, p: int, n: nat) -> (Seq<(u32, u32)>, int)
    decreases n,
{
    if n == 0 {
        (Seq::empty(), p)
    } else {
        match read_pair(d, p, Width::Four) {
            None => (Seq::empty(), p),
            Some((x, q)) => {
                let (rest, r) = blob_pairs(d, q, (n - 1) as nat);
                (seq![x] + rest, r)
            },
        }
    }
}

/// Up to `n` words from `p`, as many as the bytes hold.
pub open spec fn blob_words(d: Seq<u8>, p: int, n: nat) -> Seq<u32>
    decreases n,
{
    if n == 0 {
        Seq::empty()
    } else {
        match rd_u32(d, p) {
            None => Seq::empty(),
            Some((x, q)) => seq![x] + blob_words(d, q, (n - 1) as nat),
        }
    }
}

/// Reading a blob for a cube of order `order`: nothing from fewer than 4
/// bytes; else the contexts (see `blob_contexts`, lengths up to `order +
/// 1`), then the unigram count, total and pairs as far as the bytes hold
/// them (a missing total reads as 0), then the weights when a weight count
/// is there.
pub open spec fn read_blob_spec(d: Seq<u8>, order: nat) -> BlobView {
    match rd_u32(d, 0) {
        None => BlobView { contexts: Seq::empty(), unigram_total: 0, unigram: Seq::empty(), lambda: None },
        Some((n, p0)) => {
        let (contexts, p) = blob_contexts(d, p0, n as nat, (order + 1) as int);
        let (unigram_total, unigram, p2) = match rd_u32(d, p) {
            None => (0u32, Seq::empty(), p),
            Some((nu, q)) => match rd_u32(d, q) {
                None => (0u32, Seq::empty(), q),
                Some((t, q2)) => {
                    let (ps, r) = blob_pairs(d, q2, nu as nat);
                    (t, ps, r)
                },
            },
        };
        let lambda = match rd_u32(d, p2) {
            None => None,
            Some((nl, q)) => Some(blob_words(d, q, nl as nat)),
        };
        BlobView { contexts, unigram_total, unigram, lambda }
        },
    }
}


/// Whether `count` items of `size` bytes fit between `q` and `n`.
fn room_for(n: usize, q: usize, count: u32, size: usize) -> (b: bool)
    requires
        q <= n,
        size > 0,
    ensures
        b == (q + size * count <= n),
{
    let r = n - q;
    let b = (count as usize) <= r / size;
    proof {
        let a = count as int;
        let ri = r as int;
        let s = size as int;
        assert(a <= ri / s <==> s * a <= ri) by (nonlinear_arith)
            requires
                s > 0,
                a >= 0,
                ri >= 0,
        {
            if a <= ri / s {
                assert(s * a <= s * (ri / s));
                assert(s * (ri / s) <= ri);
            } else {
                assert(a >= ri / s + 1);
                assert(s * a >= s * (ri / s + 1));
                assert(s * (ri / s + 1) == s * (ri / s) + s);
                assert(ri < s * (ri / s) + s);
            }
        }
    }
    b
}

fn blob_context_list(d: &[u8], p: usize, n: u32, order: usize) -> (r: (Vec<BlobContext>, usize))
    requires
        p <= d@.len(),
    ensures
        (blob_contexts_view(r.0@), r.1 as int) == blob_contexts(d@, p as int, n as nat, order + 1),
{
    let ghost lim = order + 1;
    let mut out: Vec<BlobContext> = Vec::new();
    let mut q = p;
    let mut i: u32 = 0;
    while i < n
        invariant
            i <= n,
            q <= d@.len(),
            lim == order + 1,
            blob_contexts(d@, p as int, n as nat, lim) == ({
                let (rest, e) = blob_contexts(d@, q as int, (n - i) as nat, lim);
                (blob_contexts_view(out@) + rest, e)
            }),
        decreases n - i,
    {
        assert(blob_contexts_view(out@) + Seq::<BlobContextView>::empty() =~= blob_contexts_view(out@));
        let (len, q1) = match get_word(d, q) {
            Some(x) => x,
            None => return (out, q),
        };
        if len == 0 || (len - 1) as usize > order || !room_for(d.len(), q1, len, 16) {
            return (out, q1);
        }
        let (ctx, q2) = match get_wides(d, q1, len) {
            Some(x) => x,
            None => return (out, q1),
        };
        let (nn, q3) = match get_word(d, q2) {
            Some(x) => x,
            None => return (out, q2),
        };
        if !room_for(d.len(), q3, nn, 8) {
            return (out, q3);
        }
        let (ps, q4) = match get_pair_list(d, q3, nn, Width::Four) {
            Some(x) => x,
            None => return (out, q3),
        };
        let c = BlobContext { ctx, nexts: ps };
        proof {
            let (rest, e) = blob_contexts(d@, q4 as int, (n - i - 1) as nat, lim);
            assert(blob_contexts_view(out@) + (seq![blob_context_view(c)] + rest) =~= blob_contexts_view(out@.push(c)) + rest);
        }
        out.push(c);
        q = q4;
        i += 1;
    }
    assert(blob_contexts_view(out@) + Seq::<BlobContextView>::empty() =~= blob_contexts_view(out@));
    (out, q)
}

fn blob_pair_list(d: &[u8], p: usize, n: u32) -> (r: (Vec<(u32, u32)>, usize))
    ensures
        (r.0@, r.1 as int) == blob_pairs(d@, p as int, n as nat),
{
    let mut out: Vec<(u32, u32)> = Vec::new();
    let mut q = p;
    let mut i: u32 = 0;
    while i < n
        invariant
            i <= n,
            blob_pairs(d@, p as int, n as nat) == ({
                let (rest, e) = blob_pairs(d@, q as int, (n - i) as nat);
                (out@ + rest, e)
            }),
        decreases n - i,
    {
        assert(out@ + Seq::<(u32, u32)>::empty() =~= out@);
        let (a, q1) = match get_word(d, q) {
            Some(x) => x,
            None => return (out, q),
        };
        let (b, q2) = match get_cell(d, q1, Width::Four) {
            Some(x) => x,
            None => return (out, q),
        };
        proof {
            let (rest, e) = blob_pairs(d@, q2 as int, (n - i - 1) as nat);
            assert(out@ + (seq![(a, b)] + rest) =~= out@.push((a, b)) + rest);
        }
        out.push((a, b));
        q = q2;
        i += 1;
    }
    assert(out@ + Seq::<(u32, u32)>::empty() =~= out@);
    (out, q)
}

fn blob_word_list(d: &[u8], p: usize, n: u32) -> (r: Vec<u32>)
    ensures
        r@ == blob_words(d@, p as int, n as nat),
{
    let mut out: Vec<u32> = Vec::new();
    let mut q = p;
    let mut i: u32 = 0;
    while i < n
        invariant
            i <= n,
            blob_words(d@, p as int, n as nat) == out@ + blob_words(d@, q as int, (n - i) as nat),
        decreases n - i,
    {
        assert(out@ + Seq::<u32>::empty() =~= out@);
        let (x, q1) = match get_word(d, q) {
            Some(v) => v,
            None => return out,
        };
        assert(out@ + (seq![x] + blob_words(d@, q1 as int, (n - i - 1) as nat)) =~= out@.push(x) + blob_words(d@, q1 as int, (n - i - 1) as nat));
        out.push(x);
        q = q1;
        i += 1;
    }
    assert(out@ + Seq::<u32>::empty() =~= out@);
    out
}

/// Reads a cube's blob (see `read_blob_spec`).
pub fn read_blob(d: &[u8], order: usize) -> (b: BlobContents)
    ensures
        blob_view(b) == read_blob_spec(d@, order as nat),
{
    let (n, p0) = match get_word(d, 0) {
        Some(x) => x,
        None => {
            let b = BlobContents { contexts: Vec::new(), unigram_total: 0, unigram: Vec::new(), lambda: None };
            assert(blob_view(b).contexts =~= Seq::<BlobContextView>::empty());
            return b;
        },
    };
    let (contexts, p) = blob_context_list(d, p0, n, order);
    let (unigram_total, unigram, p2) = match get_word(d, p) {
        None => (0u32, Vec::new(), p),
        Some((nu, q)) => match get_word(d, q) {
            None => (0u32, Vec::new(), q),
            Some((t, q2)) => {
                let (ps, r) = blob_pair_list(d, q2, nu);
                (t, ps, r)
            },
        },
    };
    let lambda = match get_word(d, p2) {
        None => None,
        Some((nl, q)) => Some(blob_word_list(d, q, nl)),
    };
    let b = BlobContents { contexts, unigram_total, unigram, lambda };
    assert(blob_view(b).unigram =~= read_blob_spec(d@, order as nat).unigram);
    b
}


// ───────────────────────── reading back a blob ─────────────────────────

/// A cube its blob holds exactly for order `order`: every context has 1 to
/// `order + 1` words, and every count fits a `u32`.
pub open spec fn blob_storable(c: CubeView, order: nat) -> bool {
    &&& c.contexts.len() <= u32::MAX
    &&& c.unigram.len() <= u32::MAX
    &&& c.lambda.len() <= u32::MAX
    &&& forall|i: int| 0 <= i < c.contexts.len() ==> 1 <= (#[trigger] c.contexts[i]).0.len() <= order + 1
        && c.contexts[i].0.len() <= u32::MAX && c.contexts[i].2.len() <= u32::MAX
}

/// The contexts without their totals.
pub open spec fn without_totals(cs: Seq<ContextView>) -> Seq<BlobContextView> {
    cs.map_values(|x: ContextView| (x.0, x.2))
}

proof fn lemma_blob_context(d: Seq<u8>, p: int, c: ContextView, limit: int)
    requires
        at(d, p, blob_context_bytes(c)),
        1 <= c.0.len() <= limit,
        c.0.len() <= u32::MAX,
        c.2.len() <= u32::MAX,
    ensures
        ({
            let q = p + 4;
            let q2 = q + 16 * c.0.len();
            let q3 = q2 + 4;
            &&& rd_u32(d, p) == Some((c.0.len() as u32, q))
            &&& q + 16 * c.0.len() <= d.len()
            &&& read_seq(q, c.0.len(), wide_reader(d)) == Some((c.0, q2))
            &&& rd_u32(d, q2) == Some((c.2.len() as u32, q3))
            &&& q3 + 8 * c.2.len() <= d.len()
            &&& read_seq(q3, c.2.len(), pair_reader(d, Width::Four)) == Some((c.2, p + blob_context_bytes(c).len()))
        }),
{
    vstd::bytes::lemma_auto_spec_u32_to_from_le_bytes();
    vstd::bytes::lemma_auto_spec_u128_to_from_le_bytes();
    let lb = word_bytes(c.0.len() as u32);
    let wb = concat_map(c.0, |x: u128| wide_bytes(x));
    let nb = word_bytes(c.2.len() as u32);
    let pb = concat_map(c.2, |x: (u32, u32)| pair_bytes(x, Width::Four));
    lemma_concat_len(c.0, |x: u128| wide_bytes(x), 16);
    assert forall|x: (u32, u32)| #[trigger] pair_bytes(x, Width::Four).len() == 8 by {}
    lemma_concat_len(c.2, |x: (u32, u32)| pair_bytes(x, Width::Four), 8);
    assert(blob_context_bytes(c) =~= lb + (wb + (nb + pb)));
    lemma_at_concat(d, p, lb, wb + (nb + pb));
    lemma_at_concat(d, p + 4, wb, nb + pb);
    lemma_at_concat(d, p + 4 + wb.len(), nb, pb);
    lemma_read_u32(d, p, c.0.len() as u32);
    assert(d.subrange(p, p + 4) == lb);
    lemma_read_wides(d, p + 4, c.0);
    lemma_read_u32(d, p + 4 + wb.len(), c.2.len() as u32);
    assert(d.subrange(p + 4 + wb.len(), p + 8 + wb.len()) == nb);
    lemma_read_pairs(d, p + 8 + wb.len(), Width::Four, c.2);
}

proof fn lemma_blob_contexts(d: Seq<u8>, p: int, cs: Seq<ContextView>, limit: int)
    requires
        at(d, p, concat_map(cs, |x: ContextView| blob_context_bytes(x))),
        forall|i: int| 0 <= i < cs.len() ==> 1 <= (#[trigger] cs[i]).0.len() <= limit && cs[i].0.len()
            <= u32::MAX && cs[i].2.len() <= u32::MAX,
    ensures
        blob_contexts(d, p, cs.len(), limit) == (
            without_totals(cs),
            p + concat_map(cs, |x: ContextView| blob_context_bytes(x)).len(),
        ),
    decreases cs.len(),
{
    let f = |x: ContextView| blob_context_bytes(x);
    if cs.len() == 0 {
        assert(without_totals(cs) =~= Seq::<BlobContextView>::empty());
    } else {
        let tail = cs.subrange(1, cs.len() as int);
        lemma_at_concat(d, p, f(cs[0]), concat_map(tail, f));
        assert(1 <= cs[0].0.len() <= limit && cs[0].0.len() <= u32::MAX && cs[0].2.len() <= u32::MAX);
        lemma_blob_context(d, p, cs[0], limit);
        assert forall|i: int| 0 <= i < tail.len() implies 1 <= (#[trigger] tail[i]).0.len() <= limit
            && tail[i].0.len() <= u32::MAX && tail[i].2.len() <= u32::MAX by {
            assert(tail[i] == cs[i + 1]);
        }
        lemma_blob_contexts(d, p + blob_context_bytes(cs[0]).len(), tail, limit);
        assert(without_totals(cs) =~= seq![(cs[0].0, cs[0].2)] + without_totals(tail));
    }
}

proof fn lemma_blob_pairs(d: Seq<u8>, p: int, ps: Seq<(u32, u32)>)
    requires
        at(d, p, concat_map(ps, |x: (u32, u32)| pair_bytes(x, Width::Four))),
    ensures
        blob_pairs(d, p, ps.len()) == (ps, p + concat_map(ps, |x: (u32, u32)| pair_bytes(x, Width::Four)).len()),
    decreases ps.len(),
{
    let f = |x: (u32, u32)| pair_bytes(x, Width::Four);
    if ps.len() == 0 {
        assert(ps =~= Seq::<(u32, u32)>::empty());
    } else {
        let tail = ps.subrange(1, ps.len() as int);
        vstd::bytes::lemma_auto_spec_u32_to_from_le_bytes();
        lemma_at_concat(d, p, f(ps[0]), concat_map(tail, f));
        lemma_at_concat(d, p, word_bytes(ps[0].0), word_bytes(ps[0].1));
        lemma_read_u32(d, p, ps[0].0);
        lemma_read_u32(d, p + 4, ps[0].1);
        assert(d.subrange(p, p + 4) == word_bytes(ps[0].0));
        assert(d.subrange(p + 4, p + 8) == word_bytes(ps[0].1));
        lemma_blob_pairs(d, p + 8, tail);
        assert(seq![ps[0]] + tail =~= ps);
    }
}

proof fn lemma_blob_words(d: Seq<u8>, p: int, xs: Seq<u32>)
    requires
        at(d, p, concat_map(xs, |x: u32| word_bytes(x))),
    ensures
        blob_words(d, p, xs.len()) == xs,
    decreases xs.len(),
{
    let f = |x: u32| word_bytes(x);
    if xs.len() == 0 {
        assert(xs =~= Seq::<u32>::empty());
    } else {
        let tail = xs.subrange(1, xs.len() as int);
        lemma_at_concat(d, p, f(xs[0]), concat_map(tail, f));
        lemma_read_u32(d, p, xs[0]);
        assert(d.subrange(p, p + 4) == word_bytes(xs[0]));
        lemma_blob_words(d, p + 4, tail);
        assert(seq![xs[0]] + tail =~= xs);
    }
}

/// Reading a cube's blob for its order gives back its contexts (without
/// totals), its unigram total and pairs, and its weights, when every
/// context has 1 to `order + 1` words.
#[verifier::rlimit(30)]
pub proof fn lemma_blob_roundtrip(c: CubeView, order: nat)
    requires
        blob_storable(c, order),
    ensures
        read_blob_spec(blob_bytes(c), order) == (BlobView {
            contexts: without_totals(c.contexts),
            unigram_total: c.unigram_total,
            unigram: c.unigram,
            lambda: Some(c.lambda),
        }),
{
    vstd::bytes::lemma_auto_spec_u32_to_from_le_bytes();
    let d = blob_bytes(c);
    let nb = word_bytes(c.contexts.len() as u32);
    let cb = concat_map(c.contexts, |x: ContextView| blob_context_bytes(x));
    let ub = word_bytes(c.unigram.len() as u32);
    let tb = word_bytes(c.unigram_total);
    let pb = concat_map(c.unigram, |p: (u32, u32)| pair_bytes(p, Width::Four));
    let lb = word_bytes(c.lambda.len() as u32);
    let wb = concat_map(c.lambda, |x: u32| word_bytes(x));
    assert(d =~= nb + (cb + (ub + (tb + (pb + (lb + wb))))));
    assert(at(d, 0, d)) by {
        assert(d.subrange(0, d.len() as int) =~= d);
    }
    lemma_at_concat(d, 0, nb, cb + (ub + (tb + (pb + (lb + wb)))));
    let p1 = 4int;
    lemma_at_concat(d, p1, cb, ub + (tb + (pb + (lb + wb))));
    let p2 = p1 + cb.len();
    lemma_at_concat(d, p2, ub, tb + (pb + (lb + wb)));
    lemma_at_concat(d, p2 + 4, tb, pb + (lb + wb));
    lemma_at_concat(d, p2 + 8, pb, lb + wb);
    let p3 = p2 + 8 + pb.len();
    lemma_at_concat(d, p3, lb, wb);
    lemma_read_u32(d, 0, c.contexts.len() as u32);
    assert(d.subrange(0, 4) == nb);
    lemma_blob_contexts(d, p1, c.contexts, (order + 1) as int);
    lemma_read_u32(d, p2, c.unigram.len() as u32);
    assert(d.subrange(p2, p2 + 4) == ub);
    lemma_read_u32(d, p2 + 4, c.unigram_total);
    assert(d.subrange(p2 + 4, p2 + 8) == tb);
    lemma_blob_pairs(d, p2 + 8, c.unigram);
    lemma_read_u32(d, p3, c.lambda.len() as u32);
    assert(d.subrange(p3, p3 + 4) == lb);
    lemma_blob_words(d, p3 + 4, c.lambda);
}

} // verus!
