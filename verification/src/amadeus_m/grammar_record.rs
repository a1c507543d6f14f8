//! The grammar's own file: the format version, the syntax order and two
//! sampling parameters, the four cubes, the eight count tables, the class
//! and graph tables of the roots, and the graph weight. Parameters and
//! counts are carried as the bits of their `f32` values.
use vstd::prelude::*;
use crate::amadeus_m::compiler_state::{push_u32, rd_u32};
use crate::amadeus_m::count_tables::{
    CountRow, RowView, TableKind, Width, get_word, lemma_pairs_roundtrip, lemma_table_roundtrip, pairs_bytes,
    read_pairs, read_pairs_spec, read_table, read_table_spec, rows_view, storable_table, table_bytes,
    write_pairs, write_table, cell_fits,
};
use crate::amadeus_m::cube_record::{
    CubeRecord, CubeView, cube_bytes, cube_view, lemma_cube_roundtrip, read_cube, read_cube_spec,
    storable_cube, word_bytes, write_cube,
};
use crate::amadeus_m::grammar_file::FORMAT_VERSION;
use crate::quant::gguf::{at, lemma_at_concat, lemma_read_u32};

verus! {

/// The grammar as its file stores it, but for the graph weight.
#[derive(Debug)]
pub struct GrammarRecord {
    pub syntax_order: u32,
    pub temperature: u32,
    pub exploration: u32,
    pub clause: CubeRecord,
    pub sentence: CubeRecord,
    pub paragraph: CubeRecord,
    pub text: CubeRecord,
    pub agreement: Vec<CountRow>,
    pub agreement_class: Vec<CountRow>,
    pub agreement_gparent: Vec<CountRow>,
    pub lexicon: Vec<CountRow>,
    pub lexicon_cls_syn_style: Vec<CountRow>,
    pub lexicon_cls_syn: Vec<CountRow>,
    pub lexicon_cls_style: Vec<CountRow>,
    pub lexicon_class: Vec<CountRow>,
    /// Each root's class (below 256).
    pub classes: Vec<(u32, u32)>,
    /// Each root's graph signature.
    pub graph: Vec<(u32, u32)>,
}

pub struct GrammarView {
    pub syntax_order: u32,
    pub temperature: u32,
    pub exploration: u32,
    pub clause: CubeView,
    pub sentence: CubeView,
    pub paragraph: CubeView,
    pub text: CubeView,
    pub agreement: Seq<RowView>,
    pub agreement_class: Seq<RowView>,
    pub agreement_gparent: Seq<RowView>,
    pub lexicon: Seq<RowView>,
    pub lexicon_cls_syn_style: Seq<RowView>,
    pub lexicon_cls_syn: Seq<RowView>,
    pub lexicon_cls_style: Seq<RowView>,
    pub lexicon_class: Seq<RowView>,
    pub classes: Seq<(u32, u32)>,
    pub graph: Seq<(u32, u32)>,
}

pub open spec fn grammar_view(g: GrammarRecord) -> GrammarView {
    GrammarView {
        syntax_order: g.syntax_order,
        temperature: g.temperature,
        exploration: g.exploration,
        clause: cube_view(g.clause),
        sentence: cube_view(g.sentence),
        paragraph: cube_view(g.paragraph),
        text: cube_view(g.text),
        agreement: rows_view(g.agreement@),
        agreement_class: rows_view(g.agreement_class@),
        agreement_gparent: rows_view(g.agreement_gparent@),
        lexicon: rows_view(g.lexicon@),
        lexicon_cls_syn_style: rows_view(g.lexicon_cls_syn_style@),
        lexicon_cls_syn: rows_view(g.lexicon_cls_syn@),
        lexicon_cls_style: rows_view(g.lexicon_cls_style@),
        lexicon_class: rows_view(g.lexicon_class@),
        classes: g.classes@,
        graph: g.graph@,
    }
}

/// The header: format version, syntax order, temperature, exploration.
pub open spec fn head_bytes(g: GrammarView) -> Seq<u8> {
    word_bytes(FORMAT_VERSION) + word_bytes(g.syntax_order) + word_bytes(g.temperature) + word_bytes(
        g.exploration,
    )
}

pub open spec fn cubes_bytes(g: GrammarView) -> Seq<u8> {
    cube_bytes(g.clause) + cube_bytes(g.sentence) + cube_bytes(g.paragraph) + cube_bytes(g.text)
}

/// The eight count tables: agreement, agreement by class, agreement with
/// the grandparent, then the lexical tables from the most specific key.
pub open spec fn tables_bytes(g: GrammarView) -> Seq<u8> {
    table_bytes(TableKind::Agreement, g.agreement) + table_bytes(TableKind::AgreementClass, g.agreement_class)
        + table_bytes(TableKind::Agreement, g.agreement_gparent) + table_bytes(TableKind::Lexicon, g.lexicon)
        + table_bytes(TableKind::ClassSynStyle, g.lexicon_cls_syn_style) + table_bytes(
        TableKind::ClassSyn,
        g.lexicon_cls_syn,
    ) + table_bytes(TableKind::ClassStyle, g.lexicon_cls_style) + table_bytes(TableKind::Class, g.lexicon_class)
}

/// The whole file: header, cubes, tables, the class table (one byte per
/// class), the graph table and the graph weight.
pub open spec fn grammar_bytes(g: GrammarView, alpha: u32) -> Seq<u8> {
    head_bytes(g) + cubes_bytes(g) + tables_bytes(g) + pairs_bytes(g.classes, Width::One) + pairs_bytes(
        g.graph,
        Width::Four,
    ) + word_bytes(alpha)
}

/// The grammar's file (see `grammar_bytes`).
pub fn write_grammar(g: &GrammarRecord, alpha: u32) -> (data: Vec<u8>)
    ensures
        data@ == grammar_bytes(grammar_view(*g), alpha),
{
    let mut data: Vec<u8> = Vec::new();
    push_u32(&mut data, FORMAT_VERSION);
    push_u32(&mut data, g.syntax_order);
    push_u32(&mut data, g.temperature);
    push_u32(&mut data, g.exploration);
    write_cube(&mut data, &g.clause);
    write_cube(&mut data, &g.sentence);
    write_cube(&mut data, &g.paragraph);
    write_cube(&mut data, &g.text);
    write_table(&mut data, TableKind::Agreement, g.agreement.as_slice());
    write_table(&mut data, TableKind::AgreementClass, g.agreement_class.as_slice());
    write_table(&mut data, TableKind::Agreement, g.agreement_gparent.as_slice());
    write_table(&mut data, TableKind::Lexicon, g.lexicon.as_slice());
    write_table(&mut data, TableKind::ClassSynStyle, g.lexicon_cls_syn_style.as_slice());
    write_table(&mut data, TableKind::ClassSyn, g.lexicon_cls_syn.as_slice());
    write_table(&mut data, TableKind::ClassStyle, g.lexicon_cls_style.as_slice());
    write_table(&mut data, TableKind::Class, g.lexicon_class.as_slice());
    write_pairs(&mut data, g.classes.as_slice(), Width::One);
    write_pairs(&mut data, g.graph.as_slice(), Width::Four);
    push_u32(&mut data, alpha);
    assert(data@ =~= grammar_bytes(grammar_view(*g), alpha));
    data
}


// ───────────────────────── reading ─────────────────────────

/// Why a grammar file was refused: it ended early, or it has another
/// format version.
#[derive(Debug, Clone, Copy, PartialEq, Eq, Structural)]
pub enum GrammarError {
    Truncated,
    Version(u32),
}

pub open spec fn read_params(d: Seq<u8>, p: int) -> Option<((u32, u32, u32), int)> {
    match rd_u32(d, p) {
        Some((a, q)) => match rd_u32(d, q) {
            Some((b, q2)) => match rd_u32(d, q2) {
                Some((c, r)) => Some(((a, b, c), r)),
                None => None,
            },
            None => None,
        },
        None => None,
    }
}

pub open spec fn read_cubes(d: Seq<u8>, p: int) -> Option<((CubeView, CubeView, CubeView, CubeView), int)> {
    match read_cube_spec(d, p) {
        Some((a, q)) => match read_cube_spec(d, q) {
            Some((b, q2)) => match read_cube_spec(d, q2) {
                Some((c, q3)) => match read_cube_spec(d, q3) {
                    Some((e, r)) => Some(((a, b, c, e), r)),
                    None => None,
                },
                None => None,
            },
            None => None,
        },
        None => None,
    }
}

pub type AgreementViews = (Seq<RowView>, Seq<RowView>, Seq<RowView>);

pub type LexicalViews = (Seq<RowView>, Seq<RowView>, Seq<RowView>, Seq<RowView>, Seq<RowView>);

pub open spec fn read_agreement(d: Seq<u8>, p: int) -> Option<(AgreementViews, int)> {
    match read_table_spec(d, p, TableKind::Agreement) {
        Some((a, q)) => match read_table_spec(d, q, TableKind::AgreementClass) {
            Some((b, q2)) => match read_table_spec(d, q2, TableKind::Agreement) {
                Some((c, r)) => Some(((a, b, c), r)),
                None => None,
            },
            None => None,
        },
        None => None,
    }
}

pub open spec fn read_lexical(d: Seq<u8>, p: int) -> Option<(LexicalViews, int)> {
    match read_table_spec(d, p, TableKind::Lexicon) {
        Some((a, q)) => match read_table_spec(d, q, TableKind::ClassSynStyle) {
            Some((b, q2)) => match read_table_spec(d, q2, TableKind::ClassSyn) {
                Some((c, q3)) => match read_table_spec(d, q3, TableKind::ClassStyle) {
                    Some((e, q4)) => match read_table_spec(d, q4, TableKind::Class) {
                        Some((f, r)) => Some(((a, b, c, e, f), r)),
                        None => None,
                    },
                    None => None,
                },
                None => None,
            },
            None => None,
        },
        None => None,
    }
}

/// Everything after the version, up to the graph weight.
pub open spec fn read_body(d: Seq<u8>, p: int) -> Option<(GrammarView, int)> {
    match read_params(d, p) {
        Some((pr, q)) => match read_cubes(d, q) {
            Some((cu, q2)) => match read_agreement(d, q2) {
                Some((ag, q3)) => match read_lexical(d, q3) {
                    Some((lx, q4)) => match read_pairs_spec(d, q4, Width::One) {
                        Some((classes, q5)) => match read_pairs_spec(d, q5, Width::Four) {
                            Some((graph, r)) => Some(
                                (
                                    GrammarView {
                                        syntax_order: pr.0,
                                        temperature: pr.1,
                                        exploration: pr.2,
                                        clause: cu.0,
                                        sentence: cu.1,
                                        paragraph: cu.2,
                                        text: cu.3,
                                        agreement: ag.0,
                                        agreement_class: ag.1,
                                        agreement_gparent: ag.2,
                                        lexicon: lx.0,
                                        lexicon_cls_syn_style: lx.1,
                                        lexicon_cls_syn: lx.2,
                                        lexicon_cls_style: lx.3,
                                        lexicon_class: lx.4,
                                        classes,
                                        graph,
                                    },
                                    r,
                                ),
                            ),
                            None => None,
                        },
                        None => None,
                    },
                    None => None,
                },
                None => None,
            },
            None => None,
        },
        None => None,
    }
}

/// A grammar file: `Version` when its first word is not the format
/// version, `Truncated` when it ends before the graph table does, else the
/// grammar and the graph weight when four more bytes follow.
pub open spec fn read_grammar_spec(d: Seq<u8>) -> Result<(GrammarView, Option<u32>), GrammarError> {
    match rd_u32(d, 0) {
        None => Err(GrammarError::Truncated),
        Some((v, p)) => if v != FORMAT_VERSION {
            Err(GrammarError::Version(v))
        } else {
            match read_body(d, p) {
                None => Err(GrammarError::Truncated),
                Some((g, q)) => Ok(
                    (
                        g,
                        match rd_u32(d, q) {
                            Some((a, r)) => Some(a),
                            None => None,
                        },
                    ),
                ),
            }
        },
    }
}

fn get_cubes(d: &[u8], p: usize) -> (r: Option<((CubeRecord, CubeRecord, CubeRecord, CubeRecord), usize)>)
    ensures
        match r {
            Some((c, q)) => read_cubes(d@, p as int) == Some(
                ((cube_view(c.0), cube_view(c.1), cube_view(c.2), cube_view(c.3)), q as int),
            ),
            None => read_cubes(d@, p as int) is None,
        },
{
    let (a, q) = match read_cube(d, p) {
        Some(x) => x,
        None => return None,
    };
    let (b, q2) = match read_cube(d, q) {
        Some(x) => x,
        None => return None,
    };
    let (c, q3) = match read_cube(d, q2) {
        Some(x) => x,
        None => return None,
    };
    let (e, r) = match read_cube(d, q3) {
        Some(x) => x,
        None => return None,
    };
    Some(((a, b, c, e), r))
}

fn get_agreement(d: &[u8], p: usize) -> (r: Option<((Vec<CountRow>, Vec<CountRow>, Vec<CountRow>), usize)>)
    ensures
        match r {
            Some((t, q)) => read_agreement(d@, p as int) == Some(
                ((rows_view(t.0@), rows_view(t.1@), rows_view(t.2@)), q as int),
            ),
            None => read_agreement(d@, p as int) is None,
        },
{
    let (a, q) = match read_table(d, p, TableKind::Agreement) {
        Some(x) => x,
        None => return None,
    };
    let (b, q2) = match read_table(d, q, TableKind::AgreementClass) {
        Some(x) => x,
        None => return None,
    };
    let (c, r) = match read_table(d, q2, TableKind::Agreement) {
        Some(x) => x,
        None => return None,
    };
    Some(((a, b, c), r))
}

fn get_lexical(d: &[u8], p: usize) -> (r: Option<((Vec<CountRow>, Vec<CountRow>, Vec<CountRow>, Vec<CountRow>, Vec<CountRow>), usize)>)
    ensures
        match r {
            Some((t, q)) => read_lexical(d@, p as int) == Some(
                (
                    (rows_view(t.0@), rows_view(t.1@), rows_view(t.2@), rows_view(t.3@), rows_view(t.4@)),
                    q as int,
                ),
            ),
            None => read_lexical(d@, p as int) is None,
        },
{
    let (a, q) = match read_table(d, p, TableKind::Lexicon) {
        Some(x) => x,
        None => return None,
    };
    let (b, q2) = match read_table(d, q, TableKind::ClassSynStyle) {
        Some(x) => x,
        None => return None,
    };
    let (c, q3) = match read_table(d, q2, TableKind::ClassSyn) {
        Some(x) => x,
        None => return None,
    };
    let (e, q4) = match read_table(d, q3, TableKind::ClassStyle) {
        Some(x) => x,
        None => return None,
    };
    let (f, r) = match read_table(d, q4, TableKind::Class) {
        Some(x) => x,
        None => return None,
    };
    Some(((a, b, c, e, f), r))
}

/// Reads a grammar file (see `read_grammar_spec`).
pub fn read_grammar(d: &[u8]) -> (r: Result<(GrammarRecord, Option<u32>), GrammarError>)
    ensures
        match r {
            Ok((g, a)) => read_grammar_spec(d@) == Ok::<(GrammarView, Option<u32>), GrammarError>((grammar_view(g), a)),
            Err(e) => read_grammar_spec(d@) == Err::<(GrammarView, Option<u32>), GrammarError>(e),
        },
{
    let (v, p) = match get_word(d, 0) {
        Some(x) => x,
        None => return Err(GrammarError::Truncated),
    };
    if v != FORMAT_VERSION {
        return Err(GrammarError::Version(v));
    }
    let (syntax_order, q1) = match get_word(d, p) {
        Some(x) => x,
        None => return Err(GrammarError::Truncated),
    };
    let (temperature, q2) = match get_word(d, q1) {
        Some(x) => x,
        None => return Err(GrammarError::Truncated),
    };
    let (exploration, q3) = match get_word(d, q2) {
        Some(x) => x,
        None => return Err(GrammarError::Truncated),
    };
    let (cu, q4) = match get_cubes(d, q3) {
        Some(x) => x,
        None => return Err(GrammarError::Truncated),
    };
    let (ag, q5) = match get_agreement(d, q4) {
        Some(x) => x,
        None => return Err(GrammarError::Truncated),
    };
    let (lx, q6) = match get_lexical(d, q5) {
        Some(x) => x,
        None => return Err(GrammarError::Truncated),
    };
    let (classes, q7) = match read_pairs(d, q6, Width::One) {
        Some(x) => x,
        None => return Err(GrammarError::Truncated),
    };
    let (graph, q8) = match read_pairs(d, q7, Width::Four) {
        Some(x) => x,
        None => return Err(GrammarError::Truncated),
    };
    let alpha = match get_word(d, q8) {
        Some((a, _)) => Some(a),
        None => None,
    };
    let (clause, sentence, paragraph, text) = cu;
    let (agreement, agreement_class, agreement_gparent) = ag;
    let (lexicon, lexicon_cls_syn_style, lexicon_cls_syn, lexicon_cls_style, lexicon_class) = lx;
    let g = GrammarRecord {
        syntax_order,
        temperature,
        exploration,
        clause,
        sentence,
        paragraph,
        text,
        agreement,
        agreement_class,
        agreement_gparent,
        lexicon,
        lexicon_cls_syn_style,
        lexicon_cls_syn,
        lexicon_cls_style,
        lexicon_class,
        classes,
        graph,
    };
    Ok((g, alpha))
}


// ───────────────────────── reading back what was written ─────────────────────────

/// A grammar its file holds exactly: cubes with as many weights as their
/// orders, classes below 256, and every count within a `u32`.
pub open spec fn storable_grammar(g: GrammarView) -> bool {
    &&& storable_cube(g.clause)
    &&& storable_cube(g.sentence)
    &&& storable_cube(g.paragraph)
    &&& storable_cube(g.text)
    &&& storable_table(TableKind::Agreement, g.agreement)
    &&& storable_table(TableKind::AgreementClass, g.agreement_class)
    &&& storable_table(TableKind::Agreement, g.agreement_gparent)
    &&& storable_table(TableKind::Lexicon, g.lexicon)
    &&& storable_table(TableKind::ClassSynStyle, g.lexicon_cls_syn_style)
    &&& storable_table(TableKind::ClassSyn, g.lexicon_cls_syn)
    &&& storable_table(TableKind::ClassStyle, g.lexicon_cls_style)
    &&& storable_table(TableKind::Class, g.lexicon_class)
    &&& g.classes.len() <= u32::MAX
    &&& forall|i: int| 0 <= i < g.classes.len() ==> cell_fits((#[trigger] g.classes[i]).1, Width::One)
    &&& g.graph.len() <= u32::MAX
}

proof fn lemma_word(pre: Seq<u8>, x: u32, rest: Seq<u8>)
    ensures
        rd_u32(pre + word_bytes(x) + rest, pre.len() as int) == Some((x, pre.len() + 4int)),
{
    let d = pre + word_bytes(x) + rest;
    let p = pre.len() as int;
    vstd::bytes::lemma_auto_spec_u32_to_from_le_bytes();
    assert(d.subrange(p, p + 4) =~= word_bytes(x));
}

pub open spec fn agreement_bytes(g: GrammarView) -> Seq<u8> {
    table_bytes(TableKind::Agreement, g.agreement) + table_bytes(TableKind::AgreementClass, g.agreement_class)
        + table_bytes(TableKind::Agreement, g.agreement_gparent)
}

pub open spec fn lexical_bytes(g: GrammarView) -> Seq<u8> {
    table_bytes(TableKind::Lexicon, g.lexicon) + table_bytes(TableKind::ClassSynStyle, g.lexicon_cls_syn_style)
        + table_bytes(TableKind::ClassSyn, g.lexicon_cls_syn) + table_bytes(TableKind::ClassStyle, g.lexicon_cls_style)
        + table_bytes(TableKind::Class, g.lexicon_class)
}

proof fn lemma_params(pre: Seq<u8>, a: u32, b: u32, c: u32, rest: Seq<u8>)
    ensures
        read_params(pre + (word_bytes(a) + word_bytes(b) + word_bytes(c)) + rest, pre.len() as int) == Some(
            ((a, b, c), pre.len() + 12int),
        ),
{
    let d = pre + (word_bytes(a) + word_bytes(b) + word_bytes(c)) + rest;
    vstd::bytes::lemma_auto_spec_u32_to_from_le_bytes();
    lemma_word(pre, a, word_bytes(b) + word_bytes(c) + rest);
    assert(d =~= pre + word_bytes(a) + (word_bytes(b) + word_bytes(c) + rest));
    lemma_word(pre + word_bytes(a), b, word_bytes(c) + rest);
    assert(d =~= (pre + word_bytes(a)) + word_bytes(b) + (word_bytes(c) + rest));
    lemma_word(pre + word_bytes(a) + word_bytes(b), c, rest);
    assert(d =~= (pre + word_bytes(a) + word_bytes(b)) + word_bytes(c) + rest);
}

/// Ways of grouping `pre + (a + b + c + e + f) + rest` around each part.
proof fn lemma_groups(pre: Seq<u8>, a: Seq<u8>, b: Seq<u8>, c: Seq<u8>, e: Seq<u8>, f: Seq<u8>, rest: Seq<u8>)
    ensures
        pre + (a + b + c + e + f) + rest == pre + a + (b + c + e + f + rest),
        pre + (a + b + c + e + f) + rest == (pre + a) + b + (c + e + f + rest),
        pre + (a + b + c + e + f) + rest == (pre + a + b) + c + (e + f + rest),
        pre + (a + b + c + e + f) + rest == (pre + a + b + c) + e + (f + rest),
        pre + (a + b + c + e + f) + rest == (pre + a + b + c + e) + f + rest,
        (pre + a + b + c + e + f).len() == pre.len() + (a + b + c + e + f).len(),
{
    assert(pre + (a + b + c + e + f) + rest =~= pre + a + (b + c + e + f + rest));
    assert(pre + (a + b + c + e + f) + rest =~= (pre + a) + b + (c + e + f + rest));
    assert(pre + (a + b + c + e + f) + rest =~= (pre + a + b) + c + (e + f + rest));
    assert(pre + (a + b + c + e + f) + rest =~= (pre + a + b + c) + e + (f + rest));
    assert(pre + (a + b + c + e + f) + rest =~= (pre + a + b + c + e) + f + rest);
}

proof fn lemma_cubes(pre: Seq<u8>, g: GrammarView, rest: Seq<u8>)
    requires
        storable_cube(g.clause),
        storable_cube(g.sentence),
        storable_cube(g.paragraph),
        storable_cube(g.text),
    ensures
        read_cubes(pre + cubes_bytes(g) + rest, pre.len() as int) == Some(
            ((g.clause, g.sentence, g.paragraph, g.text), (pre.len() + cubes_bytes(g).len()) as int),
        ),
{
    let c1 = cube_bytes(g.clause);
    let c2 = cube_bytes(g.sentence);
    let c3 = cube_bytes(g.paragraph);
    let c4 = cube_bytes(g.text);
    let e = Seq::<u8>::empty();
    assert(cubes_bytes(g) == c1 + c2 + c3 + c4);
    assert(c1 + c2 + c3 + c4 + e =~= c1 + c2 + c3 + c4);
    lemma_groups(pre, c1, c2, c3, c4, e, rest);
    assert(c4 + e + rest =~= c4 + rest);
    lemma_cube_roundtrip(g.clause, pre, c2 + c3 + c4 + e + rest);
    lemma_cube_roundtrip(g.sentence, pre + c1, c3 + c4 + e + rest);
    lemma_cube_roundtrip(g.paragraph, pre + c1 + c2, c4 + e + rest);
    lemma_cube_roundtrip(g.text, pre + c1 + c2 + c3, e + rest);
    assert(pre + c1 + c2 + c3 + c4 + (e + rest) =~= pre + c1 + c2 + c3 + c4 + e + rest);
}

proof fn lemma_agreement(pre: Seq<u8>, g: GrammarView, rest: Seq<u8>)
    requires
        storable_table(TableKind::Agreement, g.agreement),
        storable_table(TableKind::AgreementClass, g.agreement_class),
        storable_table(TableKind::Agreement, g.agreement_gparent),
    ensures
        read_agreement(pre + agreement_bytes(g) + rest, pre.len() as int) == Some(
            ((g.agreement, g.agreement_class, g.agreement_gparent), (pre.len() + agreement_bytes(g).len()) as int),
        ),
{
    let t1 = table_bytes(TableKind::Agreement, g.agreement);
    let t2 = table_bytes(TableKind::AgreementClass, g.agreement_class);
    let t3 = table_bytes(TableKind::Agreement, g.agreement_gparent);
    let e = Seq::<u8>::empty();
    assert(agreement_bytes(g) == t1 + t2 + t3);
    assert(t1 + t2 + t3 + e + e =~= t1 + t2 + t3);
    lemma_groups(pre, t1, t2, t3, e, e, rest);
    lemma_table_roundtrip(TableKind::Agreement, g.agreement, pre, t2 + t3 + e + e + rest);
    lemma_table_roundtrip(TableKind::AgreementClass, g.agreement_class, pre + t1, t3 + e + e + rest);
    lemma_table_roundtrip(TableKind::Agreement, g.agreement_gparent, pre + t1 + t2, e + e + rest);
    assert(pre + t1 + t2 + t3 + (e + e + rest) =~= pre + (t1 + t2 + t3) + rest);
}

proof fn lemma_lexical(pre: Seq<u8>, g: GrammarView, rest: Seq<u8>)
    requires
        storable_table(TableKind::Lexicon, g.lexicon),
        storable_table(TableKind::ClassSynStyle, g.lexicon_cls_syn_style),
        storable_table(TableKind::ClassSyn, g.lexicon_cls_syn),
        storable_table(TableKind::ClassStyle, g.lexicon_cls_style),
        storable_table(TableKind::Class, g.lexicon_class),
    ensures
        read_lexical(pre + lexical_bytes(g) + rest, pre.len() as int) == Some(
            (
                (g.lexicon, g.lexicon_cls_syn_style, g.lexicon_cls_syn, g.lexicon_cls_style, g.lexicon_class),
                (pre.len() + lexical_bytes(g).len()) as int,
            ),
        ),
{
    let t4 = table_bytes(TableKind::Lexicon, g.lexicon);
    let t5 = table_bytes(TableKind::ClassSynStyle, g.lexicon_cls_syn_style);
    let t6 = table_bytes(TableKind::ClassSyn, g.lexicon_cls_syn);
    let t7 = table_bytes(TableKind::ClassStyle, g.lexicon_cls_style);
    let t8 = table_bytes(TableKind::Class, g.lexicon_class);
    assert(lexical_bytes(g) == t4 + t5 + t6 + t7 + t8);
    lemma_groups(pre, t4, t5, t6, t7, t8, rest);
    lemma_table_roundtrip(TableKind::Lexicon, g.lexicon, pre, t5 + t6 + t7 + t8 + rest);
    lemma_table_roundtrip(TableKind::ClassSynStyle, g.lexicon_cls_syn_style, pre + t4, t6 + t7 + t8 + rest);
    lemma_table_roundtrip(TableKind::ClassSyn, g.lexicon_cls_syn, pre + t4 + t5, t7 + t8 + rest);
    lemma_table_roundtrip(TableKind::ClassStyle, g.lexicon_cls_style, pre + t4 + t5 + t6, t8 + rest);
    lemma_table_roundtrip(TableKind::Class, g.lexicon_class, pre + t4 + t5 + t6 + t7, rest);
}

/// Ways of grouping the file's eight parts around each of them.
proof fn lemma_file_groups(
    w0: Seq<u8>,
    pr: Seq<u8>,
    cu: Seq<u8>,
    ag: Seq<u8>,
    lx: Seq<u8>,
    pc: Seq<u8>,
    pg: Seq<u8>,
    wa: Seq<u8>,
)
    ensures
        ({
            let d = w0 + pr + cu + (ag + lx) + pc + pg + wa;
            &&& d == Seq::<u8>::empty() + w0 + (pr + cu + ag + lx + pc + pg + wa)
            &&& d == w0 + pr + (cu + ag + lx + pc + pg + wa)
            &&& d == (w0 + pr) + cu + (ag + lx + pc + pg + wa)
            &&& d == (w0 + pr + cu) + ag + (lx + pc + pg + wa)
            &&& d == (w0 + pr + cu + ag) + lx + (pc + pg + wa)
            &&& d == (w0 + pr + cu + ag + lx) + pc + (pg + wa)
            &&& d == (w0 + pr + cu + ag + lx + pc) + pg + wa
            &&& d == (w0 + pr + cu + ag + lx + pc + pg) + wa + Seq::<u8>::empty()
        }),
{
    let d = w0 + pr + cu + (ag + lx) + pc + pg + wa;
    assert(d =~= Seq::<u8>::empty() + w0 + (pr + cu + ag + lx + pc + pg + wa));
    assert(d =~= w0 + pr + (cu + ag + lx + pc + pg + wa));
    assert(d =~= (w0 + pr) + cu + (ag + lx + pc + pg + wa));
    assert(d =~= (w0 + pr + cu) + ag + (lx + pc + pg + wa));
    assert(d =~= (w0 + pr + cu + ag) + lx + (pc + pg + wa));
    assert(d =~= (w0 + pr + cu + ag + lx) + pc + (pg + wa));
    assert(d =~= (w0 + pr + cu + ag + lx + pc) + pg + wa);
    assert(d =~= (w0 + pr + cu + ag + lx + pc + pg) + wa + Seq::<u8>::empty());
}

/// Reading a grammar file gives back the grammar and the graph weight it
/// was written from.
#[verifier::rlimit(40)]
pub proof fn lemma_grammar_roundtrip(g: GrammarView, alpha: u32)
    requires
        storable_grammar(g),
    ensures
        read_grammar_spec(grammar_bytes(g, alpha)) == Ok::<(GrammarView, Option<u32>), GrammarError>((g, Some(alpha))),
{
    let d = grammar_bytes(g, alpha);
    let w0 = word_bytes(FORMAT_VERSION);
    let pr = word_bytes(g.syntax_order) + word_bytes(g.temperature) + word_bytes(g.exploration);
    let cu = cubes_bytes(g);
    let ag = agreement_bytes(g);
    let lx = lexical_bytes(g);
    let pc = pairs_bytes(g.classes, Width::One);
    let pg = pairs_bytes(g.graph, Width::Four);
    let wa = word_bytes(alpha);
    vstd::bytes::lemma_auto_spec_u32_to_from_le_bytes();
    assert(tables_bytes(g) == ag + lx);
    assert(head_bytes(g) =~= w0 + pr);
    assert(d == w0 + pr + cu + (ag + lx) + pc + pg + wa);
    lemma_file_groups(w0, pr, cu, ag, lx, pc, pg, wa);
    lemma_word(Seq::empty(), FORMAT_VERSION, pr + cu + ag + lx + pc + pg + wa);
    lemma_params(w0, g.syntax_order, g.temperature, g.exploration, cu + ag + lx + pc + pg + wa);
    lemma_cubes(w0 + pr, g, ag + lx + pc + pg + wa);
    lemma_agreement(w0 + pr + cu, g, lx + pc + pg + wa);
    lemma_lexical(w0 + pr + cu + ag, g, pc + pg + wa);
    lemma_pairs_roundtrip(g.classes, Width::One, w0 + pr + cu + ag + lx, pg + wa);
    lemma_pairs_roundtrip(g.graph, Width::Four, w0 + pr + cu + ag + lx + pc, wa);
    lemma_word(w0 + pr + cu + ag + lx + pc + pg, alpha, Seq::empty());
}

} // verus!
