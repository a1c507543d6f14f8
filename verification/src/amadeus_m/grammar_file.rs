//! The grammar file: the integer tables of the grammar (lexicon rows, root
//! ids, graph, class table) as tensors of a GGUF container, the layout of
//! the container, and reading the tables back.
use std::collections::HashMap;
use vstd::prelude::*;
use vstd::bytes::{spec_u32_from_le_bytes, spec_u32_to_le_bytes, u32_from_le_bytes};
use vstd::std_specs::iter::IteratorSpec;
use crate::amadeus_m::compiler::views;
use crate::amadeus_m::compiler_state::{
    graph_listing, insert_pairs, lemma_listing_inserts, lemma_pairs_record_layout, pairs_record,
    push_u32,
};
use crate::amadeus_m::dual_loader::{checked_product, product_exec, product_fits, shape_product};
use crate::amadeus_m::count_tables::{flat_bytes, flat_cols, flat_pairs, lemma_flat_bytes_len, RowView, TableKind};
use crate::amadeus_m::lexicon::{Lexicon, LexSeq, LexValue, lookup};
use crate::quant::QuantType;
use crate::quant::gguf::{
    GgufError, GgufHeader, GgufKv, GgufTensorInfo, GgufValue, GgufWriter, HeaderView, KvView, TensorView,
    header_bytes, header_view, kv_view, lemma_header_roundtrip, parse_header_spec, tensor_view, writable,
};
use crate::text::str_eq;

verus! {

broadcast use vstd::std_specs::hash::group_hash_axioms;

// ───────────────────────── the integer sections ─────────────────────────

/// A lexicon row as the grammar file stores it: eight 4-byte cells, the
/// id, morphology, class and style, then four zero words.
pub open spec fn form_row(v: LexValue) -> Seq<u8> {
    spec_u32_to_le_bytes(v.0) + spec_u32_to_le_bytes(v.1 as u32) + spec_u32_to_le_bytes(v.2 as u32)
        + spec_u32_to_le_bytes(v.3 as u32) + spec_u32_to_le_bytes(0) + spec_u32_to_le_bytes(0)
        + spec_u32_to_le_bytes(0) + spec_u32_to_le_bytes(0)
}

pub open spec fn forms_record(l: LexSeq) -> Seq<u8>
    decreases l.len(),
{
    if l.len() == 0 {
        Seq::empty()
    } else {
        forms_record(l.drop_last()) + form_row(l.last().1)
    }
}

/// The root table as stored: each root's lexicon id (0 when the root is
/// not a form of the lexicon).
pub open spec fn root_ids_record(roots: Seq<Seq<char>>, lex: LexSeq) -> Seq<u8>
    decreases roots.len(),
{
    if roots.len() == 0 {
        Seq::empty()
    } else {
        root_ids_record(roots.drop_last(), lex) + spec_u32_to_le_bytes(
            match lookup(lex, roots.last()) {
                Some(v) => v.0,
                None => 0,
            },
        )
    }
}

/// The class table as stored: each root id and its class widened to 4
/// bytes.
pub open spec fn class_record(p: Seq<(u32, u8)>) -> Seq<u8>
    decreases p.len(),
{
    if p.len() == 0 {
        Seq::empty()
    } else {
        class_record(p.drop_last()) + spec_u32_to_le_bytes(p.last().0) + spec_u32_to_le_bytes(
            p.last().1 as u32,
        )
    }
}

/// The lexicon rows of the grammar file, in the lexicon's order.
pub fn forms_section(lexicon: &Lexicon) -> (data: Vec<u8>)
    ensures
        data@ == forms_record(lexicon@),
{
    let mut data: Vec<u8> = Vec::new();
    let mut i: usize = 0;
    assert(lexicon@.take(0) =~= LexSeq::empty());
    while i < lexicon.len()
        invariant
            i <= lexicon@.len(),
            data@ == forms_record(lexicon@.take(i as int)),
        decreases lexicon@.len() - i,
    {
        assert(lexicon@.take(i + 1).drop_last() =~= lexicon@.take(i as int));
        let ghost before = data@;
        let (_form, v) = lexicon.entry(i);
        push_u32(&mut data, v.0);
        push_u32(&mut data, v.1 as u32);
        push_u32(&mut data, v.2 as u32);
        push_u32(&mut data, v.3 as u32);
        push_u32(&mut data, 0);
        push_u32(&mut data, 0);
        push_u32(&mut data, 0);
        push_u32(&mut data, 0);
        assert(data@ =~= before + form_row(v));
        i += 1;
    }
    assert(lexicon@.take(i as int) =~= lexicon@);
    data
}

/// The root ids of the grammar file, one per root.
pub fn roots_section(roots: &[String], lexicon: &Lexicon) -> (data: Vec<u8>)
    requires
        lexicon.wf(),
    ensures
        data@ == root_ids_record(views(roots@), lexicon@),
{
    let ghost rs = views(roots@);
    let mut data: Vec<u8> = Vec::new();
    let mut i: usize = 0;
    assert(rs.take(0) =~= Seq::<Seq<char>>::empty());
    while i < roots.len()
        invariant
            i <= roots@.len(),
            rs == views(roots@),
            lexicon.wf(),
            data@ == root_ids_record(rs.take(i as int), lexicon@),
        decreases roots.len() - i,
    {
        assert(rs.take(i + 1).drop_last() =~= rs.take(i as int));
        let id = match lexicon.get(&roots[i]) {
            Some(v) => v.0,
            None => 0,
        };
        push_u32(&mut data, id);
        i += 1;
    }
    assert(rs.take(i as int) =~= rs);
    data
}

/// The graph section: each entry's root id and signature, in the order the
/// map yields them.
pub fn graph_section(graph: &HashMap<u32, u32>) -> (data: Vec<u8>)
    ensures
        exists|pairs: Seq<(u32, u32)>| graph_listing(graph@, pairs) && data@ == pairs_record(pairs),
{
    let mut data: Vec<u8> = Vec::new();
    let ghost mut pairs: Seq<(u32, u32)> = Seq::empty();
    let ghost rem = vstd::std_specs::hash::spec_hash_map_iter(graph).remaining();
    for kv in it: graph.iter()
        invariant
            it.seq() == rem,
            data@ == pairs_record(pairs),
            pairs.len() == it.index(),
            forall|j: int| 0 <= j < pairs.len() ==> pairs[j] == (*it.seq()[j].0, *it.seq()[j].1),
    {
        let (k, v) = kv;
        push_u32(&mut data, *k);
        push_u32(&mut data, *v);
        proof {
            let old_pairs = pairs;
            pairs = pairs.push((*k, *v));
            assert(pairs.drop_last() =~= old_pairs);
        }
        assert(data@ =~= pairs_record(pairs));
    }
    proof {
        lemma_iter_listing(graph@, rem, pairs);
    }
    data
}

/// The class section: each entry's root id and class, in the order the map
/// yields them.
pub fn class_section(classes: &HashMap<u32, u8>) -> (data: Vec<u8>)
    ensures
        exists|pairs: Seq<(u32, u8)>| graph_listing(classes@, pairs) && data@ == class_record(pairs),
{
    let mut data: Vec<u8> = Vec::new();
    let ghost mut pairs: Seq<(u32, u8)> = Seq::empty();
    let ghost rem = vstd::std_specs::hash::spec_hash_map_iter(classes).remaining();
    for kv in it: classes.iter()
        invariant
            it.seq() == rem,
            data@ == class_record(pairs),
            pairs.len() == it.index(),
            forall|j: int| 0 <= j < pairs.len() ==> pairs[j] == (*it.seq()[j].0, *it.seq()[j].1),
    {
        let (k, v) = kv;
        push_u32(&mut data, *k);
        push_u32(&mut data, *v as u32);
        proof {
            let old_pairs = pairs;
            pairs = pairs.push((*k, *v));
            assert(pairs.drop_last() =~= old_pairs);
        }
        assert(data@ =~= class_record(pairs));
    }
    proof {
        lemma_iter_listing(classes@, rem, pairs);
    }
    data
}

proof fn lemma_iter_listing<V>(g: Map<u32, V>, rem: Seq<(&u32, &V)>, pairs: Seq<(u32, V)>)
    requires
        rem.no_duplicates(),
        rem.len() == pairs.len(),
        forall|i: int| 0 <= i < rem.len() ==> g.contains_key(*rem[i].0) && g[*rem[i].0] == *rem[i].1,
        forall|k: u32| #[trigger] g.contains_key(k) ==> rem.contains((&k, &g[k])),
        forall|j: int| 0 <= j < pairs.len() ==> pairs[j] == (*rem[j].0, *rem[j].1),
    ensures
        graph_listing(g, pairs),
{
    assert forall|j: int| 0 <= j < pairs.len() implies g.contains_key(#[trigger] pairs[j].0) && g[pairs[j].0]
        == pairs[j].1 by {
        assert(g.contains_key(*rem[j].0));
    }
    assert forall|k: u32| g.contains_key(k) implies exists|j: int| 0 <= j < pairs.len() && #[trigger] pairs[j].0 == k by {
        assert(rem.contains((&k, &g[k])));
        let j = choose|j: int| 0 <= j < rem.len() && rem[j] == (&k, &g[k]);
        assert(pairs[j].0 == k);
    }
    assert forall|a: int, b: int| 0 <= a < b < pairs.len() implies #[trigger] pairs[a].0 != #[trigger] pairs[b].0 by {
        if pairs[a].0 == pairs[b].0 {
            assert(g.contains_key(*rem[a].0));
            assert(g.contains_key(*rem[b].0));
            assert(rem[a] == rem[b]);
        }
    }
}

// ───────────────────────── reading the sections back ─────────────────────────

/// The `(u32, u32)` pairs of a table's bytes, read eight bytes at a time
/// (a shorter tail is ignored).
pub open spec fn chunk_pairs(raw: Seq<u8>) -> Seq<(u32, u32)> {
    Seq::new(
        (raw.len() / 8) as nat,
        |k: int|
            (
                spec_u32_from_le_bytes(raw.subrange(8 * k, 8 * k + 4)),
                spec_u32_from_le_bytes(raw.subrange(8 * k + 4, 8 * k + 8)),
            ),
    )
}

/// The class table of a section: its pairs, the class taken modulo 256.
pub open spec fn chunk_classes(raw: Seq<u8>) -> Seq<(u32, u8)> {
    chunk_pairs(raw).map_values(|x: (u32, u32)| (x.0, x.1 as u8))
}

fn chunks_of(raw: &[u8]) -> (r: Vec<(u32, u32)>)
    ensures
        r@ == chunk_pairs(raw@),
{
    let n = raw.len();
    let count = n / 8;
    let mut out: Vec<(u32, u32)> = Vec::new();
    let mut k: usize = 0;
    while k < count
        invariant
            n == raw@.len(),
            count == n / 8,
            k <= count,
            out@ == chunk_pairs(raw@).take(k as int),
        decreases count - k,
    {
        assert(8 * k + 8 <= n);
        let a = u32_from_le_bytes(vstd::slice::slice_subrange(raw, 8 * k, 8 * k + 4));
        let b = u32_from_le_bytes(vstd::slice::slice_subrange(raw, 8 * k + 4, 8 * k + 8));
        out.push((a, b));
        k += 1;
        assert(out@ =~= chunk_pairs(raw@).take(k as int));
    }
    assert(out@ =~= chunk_pairs(raw@));
    out
}

/// The graph a section holds: its pairs inserted in order.
pub fn load_graph_section(raw: &[u8]) -> (g: HashMap<u32, u32>)
    ensures
        g@ == insert_pairs(Map::empty(), chunk_pairs(raw@)),
{
    let pairs = chunks_of(raw);
    let mut g: HashMap<u32, u32> = HashMap::new();
    let mut k: usize = 0;
    assert(pairs@.take(0) =~= Seq::<(u32, u32)>::empty());
    while k < pairs.len()
        invariant
            k <= pairs@.len(),
            g@ == insert_pairs(Map::empty(), pairs@.take(k as int)),
        decreases pairs.len() - k,
    {
        assert(pairs@.take(k + 1).drop_last() =~= pairs@.take(k as int));
        g.insert(pairs[k].0, pairs[k].1);
        k += 1;
    }
    assert(pairs@.take(k as int) =~= pairs@);
    g
}

/// The class table a section holds (see `chunk_classes`), inserted in order.
pub fn load_class_section(raw: &[u8]) -> (c: HashMap<u32, u8>)
    ensures
        c@ == insert_pairs(Map::empty(), chunk_classes(raw@)),
{
    let pairs = chunks_of(raw);
    let ghost cp = chunk_classes(raw@);
    let mut c: HashMap<u32, u8> = HashMap::new();
    let mut k: usize = 0;
    assert(cp.take(0) =~= Seq::<(u32, u8)>::empty());
    while k < pairs.len()
        invariant
            k <= pairs@.len(),
            pairs@ == chunk_pairs(raw@),
            cp == chunk_classes(raw@),
            c@ == insert_pairs(Map::empty(), cp.take(k as int)),
        decreases pairs.len() - k,
    {
        assert(cp.take(k + 1).drop_last() =~= cp.take(k as int));
        c.insert(pairs[k].0, pairs[k].1 as u8);
        k += 1;
    }
    assert(cp.take(k as int) =~= cp);
    c
}

#[verifier::spinoff_prover]
proof fn lemma_class_record_layout(ps: Seq<(u32, u8)>)
    ensures
        class_record(ps).len() == 8 * ps.len(),
        forall|i: int|
            0 <= i < ps.len() ==> class_record(ps).subrange(8 * i, 8 * i + 4) == spec_u32_to_le_bytes(
                #[trigger] ps[i].0,
            ) && class_record(ps).subrange(8 * i + 4, 8 * i + 8) == spec_u32_to_le_bytes(ps[i].1 as u32),
    decreases ps.len(),
{
    vstd::bytes::lemma_auto_spec_u32_to_from_le_bytes();
    if ps.len() > 0 {
        let q = ps.drop_last();
        lemma_class_record_layout(q);
        let r = class_record(ps);
        let n = q.len() as int;
        let tail = spec_u32_to_le_bytes(ps.last().0) + spec_u32_to_le_bytes(ps.last().1 as u32);
        assert(r == class_record(q) + tail);
        assert(class_record(q).len() == 8 * n);
        assert forall|i: int| 0 <= i < ps.len() implies r.subrange(8 * i, 8 * i + 4) == spec_u32_to_le_bytes(
            #[trigger] ps[i].0,
        ) && r.subrange(8 * i + 4, 8 * i + 8) == spec_u32_to_le_bytes(ps[i].1 as u32) by {
            if i < n {
                assert(q[i] == ps[i]);
                assert(class_record(q).subrange(8 * i, 8 * i + 4) == spec_u32_to_le_bytes(q[i].0));
                assert(class_record(q).subrange(8 * i + 4, 8 * i + 8) == spec_u32_to_le_bytes(q[i].1 as u32));
                assert(r.subrange(8 * i, 8 * i + 4) =~= class_record(q).subrange(8 * i, 8 * i + 4));
                assert(r.subrange(8 * i + 4, 8 * i + 8) =~= class_record(q).subrange(8 * i + 4, 8 * i + 8));
                assert(q[i] == ps[i]);
            } else {
                assert(r.subrange(8 * i, 8 * i + 4) =~= spec_u32_to_le_bytes(ps.last().0));
                assert(r.subrange(8 * i + 4, 8 * i + 8) =~= spec_u32_to_le_bytes(ps.last().1 as u32));
            }
        }
    }
}

/// Reading a written graph section gives back the graph, whatever order
/// its entries were written in.
pub proof fn lemma_graph_section_roundtrip(g: Map<u32, u32>, pairs: Seq<(u32, u32)>)
    requires
        graph_listing(g, pairs),
    ensures
        insert_pairs(Map::empty(), chunk_pairs(pairs_record(pairs))) == g,
{
    vstd::bytes::lemma_auto_spec_u32_to_from_le_bytes();
    lemma_pairs_record_layout(pairs);
    let r = pairs_record(pairs);
    let c = chunk_pairs(r);
    assert forall|i: int| 0 <= i < pairs.len() implies #[trigger] c[i] == pairs[i] by {
        assert(spec_u32_to_le_bytes(pairs[i].0).len() == 4);
        assert(spec_u32_to_le_bytes(pairs[i].1).len() == 4);
    }
    assert(c =~= pairs);
    lemma_listing_inserts(g, pairs);
}

/// Reading a written class section gives back the class table, whatever
/// order its entries were written in.
pub proof fn lemma_class_section_roundtrip(m: Map<u32, u8>, pairs: Seq<(u32, u8)>)
    requires
        graph_listing(m, pairs),
    ensures
        insert_pairs(Map::empty(), chunk_classes(class_record(pairs))) == m,
{
    vstd::bytes::lemma_auto_spec_u32_to_from_le_bytes();
    lemma_class_record_layout(pairs);
    let r = class_record(pairs);
    let c = chunk_classes(r);
    assert forall|i: int| 0 <= i < pairs.len() implies #[trigger] c[i] == pairs[i] by {
        assert(spec_u32_to_le_bytes(pairs[i].0).len() == 4);
        assert(spec_u32_to_le_bytes(pairs[i].1 as u32).len() == 4);
        assert(spec_u32_from_le_bytes(spec_u32_to_le_bytes(pairs[i].1 as u32)) == pairs[i].1 as u32);
        assert((pairs[i].1 as u32) as u8 == pairs[i].1);
    }
    assert(c =~= pairs);
    lemma_listing_inserts(m, pairs);
}

// ───────────────────────── the container ─────────────────────────

/// The version of the grammar file format.
pub const FORMAT_VERSION: u32 = 4;

/// How many 4-byte cells a row of a table section has.
pub open spec fn cols_of(name: Seq<char>) -> u64 {
    if name == "lexicon.forms"@ {
        8
    } else if name == "t2.head.data"@ || name == "t2.gparent.data"@ {
        6
    } else if name == "t3.exact.data"@ || name == "t3.css.data"@ {
        5
    } else if name == "t2.class.data"@ || name == "t3.cs.data"@ || name == "t3.cst.data"@ {
        4
    } else if name == "t3.class.data"@ {
        3
    } else if name == "graph.data"@ || name == "lex_to_class.data"@ {
        2
    } else {
        1
    }
}

/// The sections the exported file holds the tables' flat forms under, with
/// the kind of table each holds.
pub open spec fn flat_section(name: Seq<char>, k: TableKind) -> bool {
    ||| (name == "t2.head.data"@ || name == "t2.gparent.data"@) && k == TableKind::Agreement
    ||| name == "t2.class.data"@ && k == TableKind::AgreementClass
    ||| name == "t3.exact.data"@ && k == TableKind::Lexicon
    ||| name == "t3.css.data"@ && k == TableKind::ClassSynStyle
    ||| name == "t3.cs.data"@ && k == TableKind::ClassSyn
    ||| name == "t3.cst.data"@ && k == TableKind::ClassStyle
    ||| name == "t3.class.data"@ && k == TableKind::Class
}

/// A table's flat form holds whole rows of the width that the exported
/// file records for its section, so the recorded shape accounts for every
/// byte of it.
pub proof fn lemma_flat_section_rows(name: Seq<char>, k: TableKind, rows: Seq<RowView>)
    requires
        flat_section(name, k),
    ensures
        !network_section(name),
        cols_of(name) == flat_cols(k),
        (flat_bytes(k, rows).len() as int) % (4 * cols_of(name) as int) == 0,
{
    if name == "t2.head.data"@ {
        reveal_strlit("t2.head.data");
        reveal_strlit("lexicon.forms");
        assert("t2.head.data"@.len() != "lexicon.forms"@.len());
        reveal_strlit("snn.synapses_ih");
        assert("t2.head.data"@.len() != "snn.synapses_ih"@.len());
        reveal_strlit("snn.synapses_ho");
        assert("t2.head.data"@.len() != "snn.synapses_ho"@.len());
        reveal_strlit("snn.output_labels");
        assert("t2.head.data"@.len() != "snn.output_labels"@.len());
        reveal_strlit("t2.gparent.data");
        assert("t2.head.data"@.len() != "t2.gparent.data"@.len());
        reveal_strlit("t2.class.data");
        assert("t2.head.data"@.len() != "t2.class.data"@.len());
        reveal_strlit("t3.exact.data");
        assert("t2.head.data"@.len() != "t3.exact.data"@.len());
        reveal_strlit("t3.css.data");
        assert("t2.head.data"@.len() != "t3.css.data"@.len());
        reveal_strlit("t3.cs.data");
        assert("t2.head.data"@.len() != "t3.cs.data"@.len());
        reveal_strlit("t3.cst.data");
        assert("t2.head.data"@.len() != "t3.cst.data"@.len());
        reveal_strlit("t3.class.data");
        assert("t2.head.data"@.len() != "t3.class.data"@.len());
        assert(cols_of(name) == 6);
        assert(k == TableKind::Agreement);
    } else if name == "t2.gparent.data"@ {
        reveal_strlit("t2.gparent.data");
        reveal_strlit("lexicon.forms");
        assert("t2.gparent.data"@.len() != "lexicon.forms"@.len());
        reveal_strlit("t2.head.data");
        assert("t2.gparent.data"@.len() != "t2.head.data"@.len());
        reveal_strlit("snn.synapses_ih");
        assert("t2.gparent.data"@[0] != "snn.synapses_ih"@[0]);
        reveal_strlit("snn.synapses_ho");
        assert("t2.gparent.data"@[0] != "snn.synapses_ho"@[0]);
        reveal_strlit("snn.output_labels");
        assert("t2.gparent.data"@.len() != "snn.output_labels"@.len());
        reveal_strlit("t2.class.data");
        assert("t2.gparent.data"@.len() != "t2.class.data"@.len());
        reveal_strlit("t3.exact.data");
        assert("t2.gparent.data"@.len() != "t3.exact.data"@.len());
        reveal_strlit("t3.css.data");
        assert("t2.gparent.data"@.len() != "t3.css.data"@.len());
        reveal_strlit("t3.cs.data");
        assert("t2.gparent.data"@.len() != "t3.cs.data"@.len());
        reveal_strlit("t3.cst.data");
        assert("t2.gparent.data"@.len() != "t3.cst.data"@.len());
        reveal_strlit("t3.class.data");
        assert("t2.gparent.data"@.len() != "t3.class.data"@.len());
        assert(cols_of(name) == 6);
        assert(k == TableKind::Agreement);
    } else if name == "t2.class.data"@ {
        reveal_strlit("t2.class.data");
        reveal_strlit("lexicon.forms");
        assert("t2.class.data"@[0] != "lexicon.forms"@[0]);
        reveal_strlit("t2.head.data");
        assert("t2.class.data"@.len() != "t2.head.data"@.len());
        reveal_strlit("t2.gparent.data");
        assert("t2.class.data"@.len() != "t2.gparent.data"@.len());
        reveal_strlit("t3.exact.data");
        assert("t2.class.data"@[1] != "t3.exact.data"@[1]);
        reveal_strlit("t3.css.data");
        assert("t2.class.data"@.len() != "t3.css.data"@.len());
        reveal_strlit("snn.synapses_ih");
        assert("t2.class.data"@.len() != "snn.synapses_ih"@.len());
        reveal_strlit("snn.synapses_ho");
        assert("t2.class.data"@.len() != "snn.synapses_ho"@.len());
        reveal_strlit("snn.output_labels");
        assert("t2.class.data"@.len() != "snn.output_labels"@.len());
        reveal_strlit("t3.cs.data");
        assert("t2.class.data"@.len() != "t3.cs.data"@.len());
        reveal_strlit("t3.cst.data");
        assert("t2.class.data"@.len() != "t3.cst.data"@.len());
        reveal_strlit("t3.class.data");
        assert("t2.class.data"@[1] != "t3.class.data"@[1]);
        assert(cols_of(name) == 4);
        assert(k == TableKind::AgreementClass);
    } else if name == "t3.exact.data"@ {
        reveal_strlit("t3.exact.data");
        reveal_strlit("lexicon.forms");
        assert("t3.exact.data"@[0] != "lexicon.forms"@[0]);
        reveal_strlit("t2.head.data");
        assert("t3.exact.data"@.len() != "t2.head.data"@.len());
        reveal_strlit("t2.gparent.data");
        assert("t3.exact.data"@.len() != "t2.gparent.data"@.len());
        reveal_strlit("snn.synapses_ih");
        assert("t3.exact.data"@.len() != "snn.synapses_ih"@.len());
        reveal_strlit("snn.synapses_ho");
        assert("t3.exact.data"@.len() != "snn.synapses_ho"@.len());
        reveal_strlit("snn.output_labels");
        assert("t3.exact.data"@.len() != "snn.output_labels"@.len());
        reveal_strlit("t2.class.data");
        assert("t3.exact.data"@[1] != "t2.class.data"@[1]);
        reveal_strlit("t3.css.data");
        assert("t3.exact.data"@.len() != "t3.css.data"@.len());
        reveal_strlit("t3.cs.data");
        assert("t3.exact.data"@.len() != "t3.cs.data"@.len());
        reveal_strlit("t3.cst.data");
        assert("t3.exact.data"@.len() != "t3.cst.data"@.len());
        reveal_strlit("t3.class.data");
        assert("t3.exact.data"@[3] != "t3.class.data"@[3]);
        assert(cols_of(name) == 5);
        assert(k == TableKind::Lexicon);
    } else if name == "t3.css.data"@ {
        reveal_strlit("t3.css.data");
        reveal_strlit("lexicon.forms");
        assert("t3.css.data"@.len() != "lexicon.forms"@.len());
        reveal_strlit("t2.head.data");
        assert("t3.css.data"@.len() != "t2.head.data"@.len());
        reveal_strlit("t2.gparent.data");
        assert("t3.css.data"@.len() != "t2.gparent.data"@.len());
        reveal_strlit("t3.exact.data");
        assert("t3.css.data"@.len() != "t3.exact.data"@.len());
        reveal_strlit("snn.synapses_ih");
        assert("t3.css.data"@.len() != "snn.synapses_ih"@.len());
        reveal_strlit("snn.synapses_ho");
        assert("t3.css.data"@.len() != "snn.synapses_ho"@.len());
        reveal_strlit("snn.output_labels");
        assert("t3.css.data"@.len() != "snn.output_labels"@.len());
        reveal_strlit("t2.class.data");
        assert("t3.css.data"@.len() != "t2.class.data"@.len());
        reveal_strlit("t3.cs.data");
        assert("t3.css.data"@.len() != "t3.cs.data"@.len());
        reveal_strlit("t3.cst.data");
        assert("t3.css.data"@[5] != "t3.cst.data"@[5]);
        reveal_strlit("t3.class.data");
        assert("t3.css.data"@.len() != "t3.class.data"@.len());
        assert(cols_of(name) == 5);
        assert(k == TableKind::ClassSynStyle);
    } else if name == "t3.cs.data"@ {
        reveal_strlit("t3.cs.data");
        reveal_strlit("lexicon.forms");
        assert("t3.cs.data"@.len() != "lexicon.forms"@.len());
        reveal_strlit("t2.head.data");
        assert("t3.cs.data"@.len() != "t2.head.data"@.len());
        reveal_strlit("t2.gparent.data");
        assert("t3.cs.data"@.len() != "t2.gparent.data"@.len());
        reveal_strlit("t3.exact.data");
        assert("t3.cs.data"@.len() != "t3.exact.data"@.len());
        reveal_strlit("t3.css.data");
        assert("t3.cs.data"@.len() != "t3.css.data"@.len());
        reveal_strlit("t2.class.data");
        assert("t3.cs.data"@.len() != "t2.class.data"@.len());
        reveal_strlit("snn.synapses_ih");
        assert("t3.cs.data"@.len() != "snn.synapses_ih"@.len());
        reveal_strlit("snn.synapses_ho");
        assert("t3.cs.data"@.len() != "snn.synapses_ho"@.len());
        reveal_strlit("snn.output_labels");
        assert("t3.cs.data"@.len() != "snn.output_labels"@.len());
        reveal_strlit("t3.cst.data");
        assert("t3.cs.data"@.len() != "t3.cst.data"@.len());
        reveal_strlit("t3.class.data");
        assert("t3.cs.data"@.len() != "t3.class.data"@.len());
        assert(cols_of(name) == 4);
        assert(k == TableKind::ClassSyn);
    } else if name == "t3.cst.data"@ {
        reveal_strlit("t3.cst.data");
        reveal_strlit("lexicon.forms");
        assert("t3.cst.data"@.len() != "lexicon.forms"@.len());
        reveal_strlit("t2.head.data");
        assert("t3.cst.data"@.len() != "t2.head.data"@.len());
        reveal_strlit("t2.gparent.data");
        assert("t3.cst.data"@.len() != "t2.gparent.data"@.len());
        reveal_strlit("t3.exact.data");
        assert("t3.cst.data"@.len() != "t3.exact.data"@.len());
        reveal_strlit("t3.css.data");
        assert("t3.cst.data"@[5] != "t3.css.data"@[5]);
        reveal_strlit("t2.class.data");
        assert("t3.cst.data"@.len() != "t2.class.data"@.len());
        reveal_strlit("t3.cs.data");
        assert("t3.cst.data"@.len() != "t3.cs.data"@.len());
        reveal_strlit("snn.synapses_ih");
        assert("t3.cst.data"@.len() != "snn.synapses_ih"@.len());
        reveal_strlit("snn.synapses_ho");
        assert("t3.cst.data"@.len() != "snn.synapses_ho"@.len());
        reveal_strlit("snn.output_labels");
        assert("t3.cst.data"@.len() != "snn.output_labels"@.len());
        reveal_strlit("t3.class.data");
        assert("t3.cst.data"@.len() != "t3.class.data"@.len());
        assert(cols_of(name) == 4);
        assert(k == TableKind::ClassStyle);
    } else {
        reveal_strlit("t3.class.data");
        reveal_strlit("lexicon.forms");
        assert("t3.class.data"@[0] != "lexicon.forms"@[0]);
        reveal_strlit("t2.head.data");
        assert("t3.class.data"@.len() != "t2.head.data"@.len());
        reveal_strlit("t2.gparent.data");
        assert("t3.class.data"@.len() != "t2.gparent.data"@.len());
        reveal_strlit("t3.exact.data");
        assert("t3.class.data"@[3] != "t3.exact.data"@[3]);
        reveal_strlit("t3.css.data");
        assert("t3.class.data"@.len() != "t3.css.data"@.len());
        reveal_strlit("t2.class.data");
        assert("t3.class.data"@[1] != "t2.class.data"@[1]);
        reveal_strlit("t3.cs.data");
        assert("t3.class.data"@.len() != "t3.cs.data"@.len());
        reveal_strlit("t3.cst.data");
        assert("t3.class.data"@.len() != "t3.cst.data"@.len());
        reveal_strlit("snn.synapses_ih");
        assert("t3.class.data"@.len() != "snn.synapses_ih"@.len());
        reveal_strlit("snn.synapses_ho");
        assert("t3.class.data"@.len() != "snn.synapses_ho"@.len());
        reveal_strlit("snn.output_labels");
        assert("t3.class.data"@.len() != "snn.output_labels"@.len());
        assert(cols_of(name) == 3);
        assert(k == TableKind::Class);
    }
    lemma_flat_bytes_len(k, rows);
    let c = flat_cols(k) as int;
    let n = flat_pairs(rows).len() as int;
    assert((4 * c * n) % (4 * c) == 0) by (nonlinear_arith)
        requires
            c >= 1,
            n >= 0,
    ;
}

/// The sizes that fix the shapes of the network's sections.
pub struct SectionCounts {
    /// The network's input, hidden and output sizes, when it has one.
    pub snn: Option<(u64, u64, u64)>,
}

/// The names of the network's sections, whose shapes are the layer sizes.
pub open spec fn network_section(name: Seq<char>) -> bool {
    name == "snn.synapses_ih"@ || name == "snn.synapses_ho"@ || name == "snn.output_labels"@
}

/// The shape recorded for a section of `len` bytes: the network's layer
/// sizes for its sections, else rows of the section's cells (see
/// `cols_of`), as many rows as the bytes hold.
pub open spec fn section_shape_spec(name: Seq<char>, len: nat, c: SectionCounts) -> Seq<u64> {
    let numel = (len / 4) as u64;
    if name == "snn.synapses_ih"@ {
        match c.snn {
            Some((i, h, _o)) => seq![i, h],
            None => seq![numel],
        }
    } else if name == "snn.synapses_ho"@ {
        match c.snn {
            Some((_i, h, o)) => seq![h, o],
            None => seq![numel],
        }
    } else if name == "snn.output_labels"@ {
        match c.snn {
            Some((_i, _h, o)) => seq![o],
            None => seq![numel],
        }
    } else {
        let cols = cols_of(name);
        if cols > 1 && numel > 0 {
            seq![numel / cols, cols]
        } else {
            seq![numel]
        }
    }
}

/// A section's shape accounts for exactly its bytes, four per cell, when
/// the bytes are whole rows of the section (the network's sections, shaped
/// by the layer sizes, aside).
pub proof fn lemma_section_shape_size(name: Seq<char>, len: nat, c: SectionCounts)
    requires
        !network_section(name),
        (len as int) % (4 * cols_of(name) as int) == 0,
        len / 4 <= u64::MAX,
    ensures
        shape_product(section_shape_spec(name, len, c)) * 4 == len,
{
    let l = len as int;
    let numel = (len / 4) as u64;
    let n = numel as int;
    let cols = cols_of(name) as int;
    assert(cols >= 1);
    assert(n % cols == 0 && n * 4 == l) by (nonlinear_arith)
        requires
            cols >= 1,
            l >= 0,
            l % (4 * cols) == 0,
            n == l / 4,
    {
        let q = l / (4 * cols);
        assert(l == (4 * cols) * q);
        assert(l == 4 * (cols * q));
        assert(n == cols * q);
    }
    let sh = section_shape_spec(name, len, c);
    reveal_with_fuel(shape_product, 3);
    if cols > 1 && n > 0 {
        let r = (numel / (cols as u64)) as int;
        assert(r == n / cols);
        assert(sh == seq![(numel / (cols as u64)) as u64, cols as u64]);
        assert(sh.drop_last().drop_last() =~= Seq::<u64>::empty());
        assert(sh.drop_last() =~= seq![(numel / (cols as u64)) as u64]);
        assert(shape_product(sh) == r * cols);
        assert(r * cols == n) by (nonlinear_arith)
            requires
                n % cols == 0,
                cols > 1,
                r == n / cols,
        ;
    } else {
        assert(sh == seq![numel]);
        assert(sh.drop_last() =~= Seq::<u64>::empty());
    }
}

fn cols_exec(name: &str) -> (c: u64)
    ensures
        c == cols_of(name@),
{
    if str_eq(name, "lexicon.forms") {
        8
    } else if str_eq(name, "t2.head.data") || str_eq(name, "t2.gparent.data") {
        6
    } else if str_eq(name, "t3.exact.data") || str_eq(name, "t3.css.data") {
        5
    } else if str_eq(name, "t2.class.data") || str_eq(name, "t3.cs.data") || str_eq(name, "t3.cst.data") {
        4
    } else if str_eq(name, "t3.class.data") {
        3
    } else if str_eq(name, "graph.data") || str_eq(name, "lex_to_class.data") {
        2
    } else {
        1
    }
}

/// The shape recorded for a section (see `section_shape_spec`).
pub fn section_shape(name: &str, len: usize, c: &SectionCounts) -> (shape: Vec<u64>)
    ensures
        shape@ == section_shape_spec(name@, len as nat, *c),
{
    let numel = (len / 4) as u64;
    if str_eq(name, "snn.synapses_ih") {
        match c.snn {
            Some((i, h, _o)) => vec![i, h],
            None => vec![numel],
        }
    } else if str_eq(name, "snn.synapses_ho") {
        match c.snn {
            Some((_i, h, o)) => vec![h, o],
            None => vec![numel],
        }
    } else if str_eq(name, "snn.output_labels") {
        match c.snn {
            Some((_i, _h, o)) => vec![o],
            None => vec![numel],
        }
    } else {
        let cols = cols_exec(name);
        if cols > 1 && numel > 0 {
            vec![numel / cols, cols]
        } else {
            vec![numel]
        }
    }
}

/// The byte sections concatenated.
pub open spec fn concat_all(ds: Seq<Seq<u8>>) -> Seq<u8>
    decreases ds.len(),
{
    if ds.len() == 0 {
        Seq::empty()
    } else {
        concat_all(ds.drop_last()) + ds.last()
    }
}

/// The names and bytes of the sections.
pub open spec fn section_names(s: Seq<(String, Vec<u8>)>) -> Seq<Seq<char>> {
    s.map_values(|x: (String, Vec<u8>)| x.0@)
}

pub open spec fn section_datas(s: Seq<(String, Vec<u8>)>) -> Seq<Seq<u8>> {
    s.map_values(|x: (String, Vec<u8>)| x.1@)
}

/// The descriptor of each section: its name, shape, `F32` and its offset,
/// the sections being laid out one after another from offset 0.
pub open spec fn layout_spec(names: Seq<Seq<char>>, datas: Seq<Seq<u8>>, shapes: Seq<Seq<u64>>) -> Seq<TensorView> {
    Seq::new(
        names.len(),
        |j: int| (names[j], shapes[j].len() as u32, shapes[j], QuantType::F32, concat_all(datas.take(j)).len() as u64),
    )
}

/// The descriptors of the grammar file's sections.
pub fn grammar_tensors(sections: &[(String, Vec<u8>)], c: &SectionCounts) -> (infos: Vec<GgufTensorInfo>)
    requires
        concat_all(section_datas(sections@)).len() <= u64::MAX,
    ensures
        infos@.map_values(|t: GgufTensorInfo| tensor_view(t)) == layout_spec(
            section_names(sections@),
            section_datas(sections@),
            Seq::new(
                sections@.len(),
                |j: int| section_shape_spec(sections@[j].0@, sections@[j].1@.len(), *c),
            ),
        ),
{
    let ghost names = section_names(sections@);
    let ghost datas = section_datas(sections@);
    let ghost shapes = Seq::new(
        sections@.len(),
        |j: int| section_shape_spec(sections@[j].0@, sections@[j].1@.len(), *c),
    );
    let mut infos: Vec<GgufTensorInfo> = Vec::new();
    let mut off: u64 = 0;
    let mut i: usize = 0;
    while i < sections.len()
        invariant
            i <= sections@.len(),
            names == section_names(sections@),
            datas == section_datas(sections@),
            shapes == Seq::new(
                sections@.len(),
                |j: int| section_shape_spec(sections@[j].0@, sections@[j].1@.len(), *c),
            ),
            concat_all(datas).len() <= u64::MAX,
            off == concat_all(datas.take(i as int)).len(),
            infos@.map_values(|t: GgufTensorInfo| tensor_view(t)) == layout_spec(names, datas, shapes).take(i as int),
        decreases sections.len() - i,
    {
        let (name, data) = (&sections[i].0, &sections[i].1);
        let shape = section_shape(name.as_str(), data.len(), c);
        let info = GgufTensorInfo {
            name: name.clone(),
            n_dims: shape.len() as u32,
            shape,
            quant_type: QuantType::F32,
            offset: off,
        };
        let ghost before = infos@;
        assert(info.name@ == names[i as int]);
        assert(info.shape@ == shapes[i as int]);
        assert(tensor_view(info) == layout_spec(names, datas, shapes)[i as int]);
        let ghost tv = tensor_view(info);
        infos.push(info);
        proof {
            assert(infos@.map_values(|t: GgufTensorInfo| tensor_view(t)) =~= before.map_values(
                |t: GgufTensorInfo| tensor_view(t),
            ).push(tv));
            assert(layout_spec(names, datas, shapes).take(i + 1) =~= layout_spec(names, datas, shapes).take(
                i as int,
            ).push(layout_spec(names, datas, shapes)[i as int]));
            assert(datas.take(i + 1).drop_last() =~= datas.take(i as int));
            lemma_concat_prefix_len(datas, i as int + 1);
            assert(infos@.map_values(|t: GgufTensorInfo| tensor_view(t)) =~= layout_spec(names, datas, shapes).take(
                i + 1,
            ));
        }
        off = off + data.len() as u64;
        i += 1;
    }
    assert(layout_spec(names, datas, shapes).take(i as int) =~= layout_spec(names, datas, shapes));
    infos
}

proof fn lemma_concat_prefix_len(ds: Seq<Seq<u8>>, j: int)
    requires
        0 <= j <= ds.len(),
    ensures
        concat_all(ds.take(j)).len() <= concat_all(ds).len(),
    decreases ds.len(),
{
    if j < ds.len() {
        assert(ds.drop_last().take(j) =~= ds.take(j));
        lemma_concat_prefix_len(ds.drop_last(), j);
    } else {
        assert(ds.take(j) =~= ds);
    }
}

/// The metadata of the grammar file: architecture, format version, syntax
/// order (as `u32`) and the three sampling parameters (as `f32` bits).
pub open spec fn metadata_spec(syntax_order: usize, temperature: u32, exploration: u32, alpha: u32) -> Seq<(Seq<char>, crate::quant::gguf::GValue)> {
    seq![
        ("general.architecture"@, crate::quant::gguf::GValue::Str("amadeus"@)),
        ("amadeus.format_version"@, crate::quant::gguf::GValue::U32(FORMAT_VERSION)),
        ("amadeus.syntax_order"@, crate::quant::gguf::GValue::U32(syntax_order as u32)),
        ("amadeus.temperature"@, crate::quant::gguf::GValue::F32(temperature)),
        ("amadeus.exploration_rate"@, crate::quant::gguf::GValue::F32(exploration)),
        ("amadeus.graph_alpha"@, crate::quant::gguf::GValue::F32(alpha)),
    ]
}

pub fn grammar_metadata(syntax_order: usize, temperature: u32, exploration: u32, alpha: u32) -> (kv: Vec<GgufKv>)
    ensures
        kv@.map_values(|k: GgufKv| kv_view(k)) == metadata_spec(syntax_order, temperature, exploration, alpha),
{
    let kv = vec![
        GgufKv { key: String::from_str("general.architecture"), value: GgufValue::String(String::from_str("amadeus")) },
        GgufKv { key: String::from_str("amadeus.format_version"), value: GgufValue::U32(FORMAT_VERSION) },
        GgufKv { key: String::from_str("amadeus.syntax_order"), value: GgufValue::U32(syntax_order as u32) },
        GgufKv { key: String::from_str("amadeus.temperature"), value: GgufValue::F32(temperature) },
        GgufKv { key: String::from_str("amadeus.exploration_rate"), value: GgufValue::F32(exploration) },
        GgufKv { key: String::from_str("amadeus.graph_alpha"), value: GgufValue::F32(alpha) },
    ];
    assert(kv@.map_values(|k: GgufKv| kv_view(k)) =~= metadata_spec(syntax_order, temperature, exploration, alpha));
    kv
}

/// The grammar file: a version 3 header with the metadata and descriptors,
/// then the sections one after another, without padding.
pub fn grammar_file(kv: &[GgufKv], tensors: &[GgufTensorInfo], sections: &[(String, Vec<u8>)]) -> (bytes: Vec<u8>)
    ensures
        bytes@ == header_bytes(
            3,
            sections@.len() as u64,
            kv@.len() as u64,
            kv@.map_values(|k: GgufKv| kv_view(k)),
            tensors@.map_values(|t: GgufTensorInfo| tensor_view(t)),
        ) + concat_all(section_datas(sections@)),
{
    let ghost datas = section_datas(sections@);
    let mut w = GgufWriter::new();
    w.write_header(3, sections.len() as u64, kv.len() as u64, kv, tensors);
    let ghost head = w@;
    let mut i: usize = 0;
    assert(datas.take(0) =~= Seq::<Seq<u8>>::empty());
    while i < sections.len()
        invariant
            i <= sections@.len(),
            datas == section_datas(sections@),
            w@ == head + concat_all(datas.take(i as int)),
        decreases sections.len() - i,
    {
        assert(datas.take(i + 1).drop_last() =~= datas.take(i as int));
        w.write_raw(sections[i].1.as_slice());
        i += 1;
        assert(w@ =~= head + concat_all(datas.take(i as int)));
    }
    assert(datas.take(i as int) =~= datas);
    w.finish()
}

// ───────────────────────── reading the container ─────────────────────────

/// The last descriptor with the given name.
pub open spec fn find_last_tensor(ts: Seq<TensorView>, name: Seq<char>) -> Option<int>
    decreases ts.len(),
{
    if ts.len() == 0 {
        None
    } else if ts.last().0 == name {
        Some(ts.len() - 1)
    } else {
        find_last_tensor(ts.drop_last(), name)
    }
}

/// The bytes of a named tensor: its 4-byte elements from the data start
/// plus its offset, when they lie inside the file.
pub open spec fn grammar_tensor_spec(h: HeaderView, d: Seq<u8>, name: Seq<char>) -> Option<Seq<u8>> {
    match find_last_tensor(h.tensor_infos, name) {
        None => None,
        Some(i) => {
            let t = h.tensor_infos[i];
            let start = h.data_offset + t.4;
            let size = shape_product(t.2) * 4;
            if start + size > d.len() {
                None
            } else {
                Some(d.subrange(start, start + size))
            }
        },
    }
}

/// The arithmetic for the named tensor does not overflow.
pub open spec fn grammar_tensor_fits(h: HeaderView, name: Seq<char>) -> bool {
    find_last_tensor(h.tensor_infos, name) matches Some(i) ==> {
        let t = h.tensor_infos[i];
        &&& h.data_offset + t.4 <= usize::MAX
        &&& product_fits(t.2)
        &&& h.data_offset + t.4 + shape_product(t.2) * 4 <= usize::MAX
    }
}

/// The index of the last descriptor named `name` (see `find_last_tensor`).
pub(crate) fn find_last_exec(ts: &Vec<GgufTensorInfo>, name: &str) -> (r: Option<usize>)
    ensures
        r matches Some(i) ==> find_last_tensor(ts@.map_values(|t: GgufTensorInfo| tensor_view(t)), name@)
            == Some(i as int) && i < ts@.len(),
        r is None ==> find_last_tensor(ts@.map_values(|t: GgufTensorInfo| tensor_view(t)), name@) is None,
{
    let ghost tv = ts@.map_values(|t: GgufTensorInfo| tensor_view(t));
    let mut j: usize = ts.len();
    assert(tv.take(j as int) =~= tv);
    while j > 0
        invariant
            j <= ts@.len(),
            tv == ts@.map_values(|t: GgufTensorInfo| tensor_view(t)),
            find_last_tensor(tv, name@) == find_last_tensor(tv.take(j as int), name@),
        decreases j,
    {
        assert(tv.take(j as int).drop_last() =~= tv.take(j - 1));
        if str_eq(ts[j - 1].name.as_str(), name) {
            return Some(j - 1);
        }
        j -= 1;
    }
    None
}

/// Whether a header names the amadeus architecture.
pub open spec fn is_amadeus_spec(h: HeaderView) -> bool {
    exists|i: int|
        #![trigger h.kv_pairs[i]]
        0 <= i < h.kv_pairs.len() && h.kv_pairs[i].0 == "general.architecture"@ && (forall|j: int|
            0 <= j < i ==> h.kv_pairs[j].0 != "general.architecture"@) && h.kv_pairs[i].1
            == crate::quant::gguf::GValue::Str("amadeus"@)
}

/// Whether the first `general.architecture` pair of the header holds the
/// string `amadeus`.
pub fn is_amadeus(header: &GgufHeader) -> (b: bool)
    ensures
        b == is_amadeus_spec(header_view(*header)),
{
    let ghost h = header_view(*header);
    let n = header.kv_pairs.len();
    let mut i: usize = 0;
    while i < n
        invariant
            n == header.kv_pairs@.len(),
            h == header_view(*header),
            h.kv_pairs.len() == n,
            i <= n,
            forall|j: int| 0 <= j < i ==> h.kv_pairs[j].0 != "general.architecture"@,
        decreases n - i,
    {
        assert(h.kv_pairs[i as int] == kv_view(header.kv_pairs@[i as int]));
        if str_eq(header.kv_pairs[i].key.as_str(), "general.architecture") {
            let r = match &header.kv_pairs[i].value {
                GgufValue::String(s) => str_eq(s.as_str(), "amadeus"),
                _ => false,
            };
            proof {
                if !r {
                    if is_amadeus_spec(h) {
                        let k = choose|k: int|
                            #![trigger h.kv_pairs[k]]
                            0 <= k < h.kv_pairs.len() && h.kv_pairs[k].0 == "general.architecture"@
                                && (forall|j: int| 0 <= j < k ==> h.kv_pairs[j].0 != "general.architecture"@)
                                && h.kv_pairs[k].1 == crate::quant::gguf::GValue::Str("amadeus"@);
                        if k < i {
                        } else if k > i {
                            assert(h.kv_pairs[i as int].0 != "general.architecture"@);
                        }
                    }
                }
            }
            return r;
        }
        i += 1;
    }
    false
}

/// Whether the arithmetic for the named tensor fits (see
/// `grammar_tensor_fits`).
pub fn grammar_tensor_fits_exec(header: &GgufHeader, name: &str) -> (b: bool)
    ensures
        b == grammar_tensor_fits(header_view(*header), name@),
{
    let ghost h = header_view(*header);
    match find_last_exec(&header.tensor_infos, name) {
        None => true,
        Some(i) => {
            let t = &header.tensor_infos[i];
            assert(h.tensor_infos[i as int] == tensor_view(*t));
            if header.data_offset > usize::MAX as u64 || t.offset > usize::MAX as u64 {
                return false;
            }
            let start = match (header.data_offset as usize).checked_add(t.offset as usize) {
                Some(s) => s,
                None => return false,
            };
            let numel = match checked_product(&t.shape) {
                Some(n) => n,
                None => return false,
            };
            let size = match numel.checked_mul(4) {
                Some(z) => z,
                None => return false,
            };
            start.checked_add(size).is_some()
        },
    }
}

/// The bytes of a named tensor of a grammar file (see `grammar_tensor_spec`).
pub fn read_grammar_tensor(header: &GgufHeader, data: &[u8], name: &str) -> (r: Option<Vec<u8>>)
    requires
        grammar_tensor_fits(header_view(*header), name@),
    ensures
        match grammar_tensor_spec(header_view(*header), data@, name@) {
            Some(b) => r matches Some(v) && v@ == b,
            None => r is None,
        },
{
    let ghost h = header_view(*header);
    match find_last_exec(&header.tensor_infos, name) {
        None => None,
        Some(i) => {
            let t = &header.tensor_infos[i];
            assert(h.tensor_infos[i as int] == tensor_view(*t));
            let start = header.data_offset as usize + t.offset as usize;
            let numel = product_exec(&t.shape);
            let size = numel * 4;
            let end = start + size;
            if end > data.len() {
                None
            } else {
                Some(vstd::slice::slice_to_vec(vstd::slice::slice_subrange(data, start, end)))
            }
        },
    }
}

} // verus!

verus! {

proof fn lemma_concat_prefix(ds: Seq<Seq<u8>>, j: int)
    requires
        0 <= j <= ds.len(),
    ensures
        concat_all(ds.take(j)).len() <= concat_all(ds).len(),
        concat_all(ds).subrange(0, concat_all(ds.take(j)).len() as int) == concat_all(ds.take(j)),
    decreases ds.len(),
{
    if j < ds.len() {
        assert(ds.drop_last().take(j) =~= ds.take(j));
        lemma_concat_prefix(ds.drop_last(), j);
        let a = concat_all(ds.drop_last());
        let p = concat_all(ds.take(j));
        assert(concat_all(ds).subrange(0, p.len() as int) =~= a.subrange(0, p.len() as int));
    } else {
        assert(ds.take(j) =~= ds);
        assert(concat_all(ds).subrange(0, concat_all(ds).len() as int) =~= concat_all(ds));
    }
}

proof fn lemma_find_last_layout(names: Seq<Seq<char>>, datas: Seq<Seq<u8>>, shapes: Seq<Seq<u64>>, i: int, n: int)
    requires
        names.len() == datas.len(),
        shapes.len() == datas.len(),
        0 <= i < n <= names.len(),
        forall|j: int| i < j < names.len() ==> names[j] != names[i],
    ensures
        find_last_tensor(layout_spec(names, datas, shapes).take(n), names[i]) == Some(i),
    decreases n,
{
    let ts = layout_spec(names, datas, shapes);
    assert(ts.take(n).drop_last() =~= ts.take(n - 1));
    if n - 1 > i {
        lemma_find_last_layout(names, datas, shapes, i, n - 1);
    }
}

/// Reading a named section of a grammar file gives back the bytes that were
/// written for it, when it is the last section of that name and its shape
/// accounts for exactly its bytes (4 per element).
pub proof fn lemma_grammar_file_roundtrip(
    kvs: Seq<KvView>,
    names: Seq<Seq<char>>,
    datas: Seq<Seq<u8>>,
    shapes: Seq<Seq<u64>>,
    i: int,
)
    requires
        names.len() == datas.len(),
        shapes.len() == datas.len(),
        0 <= i < names.len(),
        forall|j: int| i < j < names.len() ==> names[j] != names[i],
        shape_product(shapes[i]) * 4 == datas[i].len(),
        forall|j: int| 0 <= j < shapes.len() ==> (#[trigger] shapes[j]).len() <= u32::MAX,
        forall|k: int| 0 <= k < kvs.len() ==> writable(#[trigger] kvs[k].1),
        kvs.len() <= u64::MAX,
        names.len() <= u64::MAX,
        header_bytes(3, names.len() as u64, kvs.len() as u64, kvs, layout_spec(names, datas, shapes)).len()
            + concat_all(datas).len() <= u64::MAX,
    ensures
        ({
            let file = header_bytes(3, names.len() as u64, kvs.len() as u64, kvs, layout_spec(names, datas, shapes))
                + concat_all(datas);
            parse_header_spec(file) matches Ok(h) && grammar_tensor_spec(h, file, names[i]) == Some(datas[i])
        }),
{
    let ts = layout_spec(names, datas, shapes);
    let hb = header_bytes(3, names.len() as u64, kvs.len() as u64, kvs, ts);
    let rest = concat_all(datas);
    let file = hb + rest;
    assert forall|j: int| 0 <= j < ts.len() implies (#[trigger] ts[j]).1 == ts[j].2.len() by {
        assert(shapes[j].len() <= u32::MAX);
    }
    assert(ts.len() == names.len());
    lemma_header_roundtrip(3, kvs, ts, rest);
    let h = HeaderView {
        version: 3,
        n_tensors: ts.len() as u64,
        n_kv: kvs.len() as u64,
        kv_pairs: kvs,
        tensor_infos: ts,
        data_offset: hb.len() as u64,
    };
    assert(parse_header_spec(file) == Ok::<HeaderView, GgufError>(h));
    lemma_find_last_layout(names, datas, shapes, i, names.len() as int);
    assert(ts.take(names.len() as int) =~= ts);
    let off = concat_all(datas.take(i)).len();
    lemma_concat_prefix(datas, i + 1);
    lemma_concat_prefix(datas, i);
    assert(datas.take(i + 1).drop_last() =~= datas.take(i));
    let pre1 = concat_all(datas.take(i + 1));
    assert(pre1 == concat_all(datas.take(i)) + datas[i]);
    assert(ts[i].4 == off as u64);
    assert(off <= rest.len());
    let start: int = hb.len() as int + off;
    let size = shape_product(shapes[i]) * 4;
    assert(start + size <= file.len());
    assert forall|k: int| 0 <= k < size implies #[trigger] file.subrange(start, start + size)[k] == datas[i][k] by {
        assert(file[start + k] == rest[off + k]);
        assert(rest.subrange(0, pre1.len() as int)[off + k] == pre1[off + k]);
        assert(pre1[off + k] == datas[i][k]);
    }
    assert(file.subrange(start, start + size) =~= datas[i]);
}

/// The shapes the grammar file records for its sections.
pub open spec fn export_shapes(names: Seq<Seq<char>>, datas: Seq<Seq<u8>>, c: SectionCounts) -> Seq<Seq<u64>> {
    Seq::new(datas.len(), |j: int| section_shape_spec(names[j], datas[j].len(), c))
}

/// An exported grammar gives back each of its sections: reading the named
/// section of the file `grammar_file` writes, with the shapes
/// `grammar_tensors` records, gives the bytes written for it, when it is
/// the last section of its name and holds whole rows (the network's
/// sections aside).
pub proof fn lemma_export_section_roundtrip(
    kvs: Seq<KvView>,
    names: Seq<Seq<char>>,
    datas: Seq<Seq<u8>>,
    c: SectionCounts,
    i: int,
)
    requires
        names.len() == datas.len(),
        0 <= i < names.len(),
        forall|j: int| i < j < names.len() ==> names[j] != names[i],
        !network_section(names[i]),
        (datas[i].len() as int) % (4 * cols_of(names[i]) as int) == 0,
        datas[i].len() / 4 <= u64::MAX,
        forall|k: int| 0 <= k < kvs.len() ==> writable(#[trigger] kvs[k].1),
        kvs.len() <= u64::MAX,
        names.len() <= u64::MAX,
        header_bytes(3, names.len() as u64, kvs.len() as u64, kvs, layout_spec(names, datas, export_shapes(names, datas, c))).len()
            + concat_all(datas).len() <= u64::MAX,
    ensures
        ({
            let file = header_bytes(
                3,
                names.len() as u64,
                kvs.len() as u64,
                kvs,
                layout_spec(names, datas, export_shapes(names, datas, c)),
            ) + concat_all(datas);
            parse_header_spec(file) matches Ok(h) && grammar_tensor_spec(h, file, names[i]) == Some(datas[i])
        }),
{
    let shapes = export_shapes(names, datas, c);
    lemma_section_shape_size(names[i], datas[i].len(), c);
    assert forall|j: int| 0 <= j < shapes.len() implies (#[trigger] shapes[j]).len() <= u32::MAX by {
        assert(shapes[j].len() <= 2);
    }
    lemma_grammar_file_roundtrip(kvs, names, datas, shapes, i);
}

} // verus!
