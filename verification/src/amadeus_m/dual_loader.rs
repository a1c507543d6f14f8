//! The grammar side of the dual loader: the graph, class table and lexicon
//! rows stored as tensors of a grammar GGUF file, and merging the grammar's
//! graph with one derived from a commercial model (see
//! `interpolate_graphs`).
use std::collections::HashMap;
use vstd::prelude::*;
use vstd::bytes::{spec_u16_from_le_bytes, spec_u32_from_le_bytes, u16_from_le_bytes, u32_from_le_bytes};
use crate::amadeus_m::compiler_state::{insert_entries, insert_pairs};
use crate::amadeus_m::embedding_compressor::{interpolate_graphs, merge_spec};
use crate::amadeus_m::lexicon::{Lexicon, LexSeq, LexValue};
use crate::quant::gguf::{GgufHeader, GgufTensorInfo};
use crate::text::{decimal, push_decimal, str_eq};

verus! {

broadcast use vstd::std_specs::hash::group_hash_axioms;

/// Where the dual loader reads from: the grammar file and, optionally, a
/// commercial model.
pub struct DualGgufLoader {
    pub grammar_path: String,
    pub commercial_path: Option<String>,
}

impl DualGgufLoader {
    pub fn new(grammar_path: &str, commercial_path: Option<&str>) -> (l: Self)
        ensures
            l.grammar_path@ == grammar_path@,
            match commercial_path {
                Some(p) => l.commercial_path matches Some(q) && q@ == p@,
                None => l.commercial_path is None,
            },
    {
        DualGgufLoader {
            grammar_path: String::from_str(grammar_path),
            commercial_path: match commercial_path {
                Some(p) => Some(String::from_str(p)),
                None => None,
            },
        }
    }
}

/// What the dual loader produces.
pub struct DualLoadResult {
    /// The grammar's semantic graph.
    pub grammar_graph: HashMap<u32, u32>,
    /// The graph derived from the commercial model.
    pub llm_graph: HashMap<u32, u32>,
    /// The merge of the two.
    pub merged_graph: HashMap<u32, u32>,
    /// The lexicon rows of the grammar, as forms `form_<row>`.
    pub lexicon: Lexicon,
    /// Each root's class.
    pub lex_to_class: HashMap<u32, u8>,
    pub commercial_arch: String,
    pub commercial_vocab_size: usize,
    pub commercial_embd_dim: usize,
}

// ───────────────────────── tensor sections ─────────────────────────

/// The product of a tensor's dimensions.
pub open spec fn shape_product(s: Seq<u64>) -> int
    decreases s.len(),
{
    if s.len() == 0 {
        1
    } else {
        shape_product(s.drop_last()) * s.last()
    }
}

/// Every partial product of the dimensions fits in `usize`.
pub open spec fn product_fits(s: Seq<u64>) -> bool {
    forall|k: int| 0 <= k <= s.len() ==> #[trigger] shape_product(s.take(k)) <= usize::MAX
}

/// The first tensor with the given name.
pub open spec fn find_tensor(ts: Seq<GgufTensorInfo>, name: Seq<char>) -> Option<int>
    decreases ts.len(),
{
    if ts.len() == 0 {
        None
    } else if ts[0].name@ == name {
        Some(0)
    } else {
        match find_tensor(ts.drop_first(), name) {
            Some(i) => Some(i + 1),
            None => None,
        }
    }
}

/// The start of a tensor's data in the file.
pub open spec fn tensor_start(h: GgufHeader, t: GgufTensorInfo) -> int {
    h.data_offset + t.offset
}

/// The arithmetic for a table of 4-byte elements does not overflow.
pub open spec fn table_fits(h: GgufHeader, t: GgufTensorInfo) -> bool {
    &&& tensor_start(h, t) <= usize::MAX
    &&& product_fits(t.shape@)
    &&& tensor_start(h, t) + shape_product(t.shape@) * 4 <= usize::MAX
}

/// The `(u32, u32)` pairs of a table tensor: its 4-byte elements read two at
/// a time, when the tensor lies inside the data; none otherwise.
pub open spec fn table_pairs(d: Seq<u8>, h: GgufHeader, name: Seq<char>) -> Seq<(u32, u32)> {
    match find_tensor(h.tensor_infos@, name) {
        Some(i) => {
            let t = h.tensor_infos@[i];
            let start = tensor_start(h, t);
            let size = shape_product(t.shape@) * 4;
            if start + size <= d.len() {
                Seq::new(
                    (size / 8) as nat,
                    |k: int|
                        (
                            spec_u32_from_le_bytes(d.subrange(start + 8 * k, start + 8 * k + 4)),
                            spec_u32_from_le_bytes(d.subrange(start + 8 * k + 4, start + 8 * k + 8)),
                        ),
                )
            } else {
                Seq::empty()
            }
        },
        None => Seq::empty(),
    }
}

/// The form given to lexicon row `i`.
pub open spec fn form_name(i: nat) -> Seq<char> {
    "form_"@ + decimal(i)
}

/// The rows of the `lexicon.forms` tensor: 32 bytes each, holding the id,
/// morphology, class and style at byte offsets 0, 4, 8 and 12.
pub open spec fn lexicon_rows(d: Seq<u8>, h: GgufHeader) -> LexSeq {
    match find_tensor(h.tensor_infos@, "lexicon.forms"@) {
        Some(i) => {
            let t = h.tensor_infos@[i];
            let start = tensor_start(h, t);
            let n = t.shape@[0] as int;
            if start + n * 32 <= d.len() {
                Seq::new(
                    n as nat,
                    |k: int|
                        {
                            let r = start + 32 * k;
                            (
                                form_name(k as nat),
                                (
                                    spec_u32_from_le_bytes(d.subrange(r, r + 4)),
                                    spec_u16_from_le_bytes(d.subrange(r + 4, r + 6)),
                                    d[r + 8],
                                    spec_u16_from_le_bytes(d.subrange(r + 12, r + 14)),
                                ),
                            )
                        },
                )
            } else {
                Seq::empty()
            }
        },
        None => Seq::empty(),
    }
}

/// The arithmetic of the three grammar sections does not overflow, and the
/// lexicon tensor, if present, has a first dimension.
pub open spec fn grammar_fits(h: GgufHeader) -> bool {
    &&& (find_tensor(h.tensor_infos@, "graph.data"@) matches Some(i) ==> table_fits(h, h.tensor_infos@[i]))
    &&& (find_tensor(h.tensor_infos@, "lex_to_class.data"@) matches Some(i) ==> table_fits(
        h,
        h.tensor_infos@[i],
    ))
    &&& (find_tensor(h.tensor_infos@, "lexicon.forms"@) matches Some(i) ==> {
        let t = h.tensor_infos@[i];
        &&& t.shape@.len() >= 1
        &&& tensor_start(h, t) + t.shape@[0] * 32 <= usize::MAX
    })
}

/// The class table: each pair's second element taken modulo 256.
pub open spec fn class_pairs(p: Seq<(u32, u32)>) -> Seq<(u32, u8)> {
    p.map_values(|x: (u32, u32)| (x.0, x.1 as u8))
}

pub(crate) fn find_tensor_exec(ts: &Vec<GgufTensorInfo>, name: &str) -> (r: Option<usize>)
    ensures
        r matches Some(i) ==> find_tensor(ts@, name@) == Some(i as int) && i < ts@.len(),
        r is None ==> find_tensor(ts@, name@) is None,
{
    let n = ts.len();
    let mut i: usize = 0;
    assert(ts@.skip(0) =~= ts@);
    while i < n
        invariant
            n == ts@.len(),
            i <= n,
            find_tensor(ts@, name@) == match find_tensor(ts@.skip(i as int), name@) {
                Some(k) => Some(k + i),
                None => None,
            },
        decreases n - i,
    {
        assert(ts@.skip(i as int).drop_first() =~= ts@.skip(i + 1));
        if str_eq(ts[i].name.as_str(), name) {
            return Some(i);
        }
        i += 1;
    }
    None
}

pub(crate) fn product_exec(s: &Vec<u64>) -> (p: usize)
    requires
        product_fits(s@),
    ensures
        p == shape_product(s@),
{
    let mut p: usize = 1;
    let mut k: usize = 0;
    assert(s@.take(0) =~= Seq::<u64>::empty());
    while k < s.len()
        invariant
            k <= s@.len(),
            product_fits(s@),
            p == shape_product(s@.take(k as int)),
        decreases s.len() - k,
    {
        assert(s@.take(k + 1).drop_last() =~= s@.take(k as int));
        assert(shape_product(s@.take(k + 1)) <= usize::MAX);
        let d = s[k];
        assert(s@.take(k + 1).last() == d);
        let ghost big = p as int * d as int;
        assert(big <= usize::MAX);
        assert(p == 0 || d as int <= usize::MAX) by (nonlinear_arith)
            requires
                big == p as int * d as int,
                big <= usize::MAX,
                p >= 0,
                d >= 0,
        ;
        let du: usize = if p == 0 { 0 } else { d as usize };
        assert(p as int * du as int == big) by (nonlinear_arith)
            requires
                big == p as int * d as int,
                p == 0 || du == d,
        ;
        p = p * du;
        k += 1;
    }
    assert(s@.take(k as int) =~= s@);
    p
}

/// The product of the dimensions, when every partial product fits.
pub(crate) fn checked_product(s: &Vec<u64>) -> (r: Option<usize>)
    ensures
        r matches Some(p) ==> product_fits(s@) && p == shape_product(s@),
        r is None ==> !product_fits(s@),
{
    let mut p: usize = 1;
    let mut k: usize = 0;
    assert(s@.take(0) =~= Seq::<u64>::empty());
    while k < s.len()
        invariant
            k <= s@.len(),
            p == shape_product(s@.take(k as int)),
            forall|j: int| 0 <= j <= k ==> #[trigger] shape_product(s@.take(j)) <= usize::MAX,
        decreases s.len() - k,
    {
        assert(s@.take(k + 1).drop_last() =~= s@.take(k as int));
        let d = s[k];
        assert(s@.take(k + 1).last() == d);
        assert(shape_product(s@.take(k + 1)) == p * d);
        if d > usize::MAX as u64 {
            if p != 0 {
                assert(p * d >= d) by (nonlinear_arith)
                    requires
                        p >= 1,
                        d >= 0,
                ;
                return None;
            }
        }
        let du: usize = if p == 0 { 0 } else { d as usize };
        match p.checked_mul(du) {
            Some(q) => {
                assert(p == 0 ==> p * d == 0) by (nonlinear_arith);
                assert(q == shape_product(s@.take(k + 1)));
                p = q;
            },
            None => {
                return None;
            },
        }
        k += 1;
    }
    assert(s@.take(k as int) =~= s@);
    Some(p)
}

/// The start of a tensor's data, when it fits in `usize`.
pub(crate) fn checked_start(h: &GgufHeader, t: &GgufTensorInfo) -> (r: Option<usize>)
    ensures
        r matches Some(s) ==> s == tensor_start(*h, *t),
        r is None ==> tensor_start(*h, *t) > usize::MAX,
{
    match h.data_offset.checked_add(t.offset) {
        Some(s) => if s <= usize::MAX as u64 {
            Some(s as usize)
        } else {
            None
        },
        None => None,
    }
}

fn table_fits_exec(h: &GgufHeader, t: &GgufTensorInfo) -> (b: bool)
    ensures
        b == table_fits(*h, *t),
{
    let start = match checked_start(h, t) {
        Some(s) => s,
        None => return false,
    };
    let n = match checked_product(&t.shape) {
        Some(n) => n,
        None => return false,
    };
    match n.checked_mul(4) {
        Some(z) => start.checked_add(z).is_some(),
        None => false,
    }
}

/// Whether the arithmetic of the grammar sections fits (see
/// `grammar_fits`).
pub fn grammar_fits_exec(header: &GgufHeader) -> (b: bool)
    ensures
        b == grammar_fits(*header),
{
    if let Some(i) = find_tensor_exec(&header.tensor_infos, "graph.data") {
        if !table_fits_exec(header, &header.tensor_infos[i]) {
            return false;
        }
    }
    if let Some(i) = find_tensor_exec(&header.tensor_infos, "lex_to_class.data") {
        if !table_fits_exec(header, &header.tensor_infos[i]) {
            return false;
        }
    }
    if let Some(i) = find_tensor_exec(&header.tensor_infos, "lexicon.forms") {
        let t = &header.tensor_infos[i];
        if t.shape.len() == 0 {
            return false;
        }
        let start = match checked_start(header, t) {
            Some(s) => s,
            None => return false,
        };
        let n = t.shape[0];
        if n > (usize::MAX as u64) / 32 {
            return false;
        }
        return start.checked_add((n as usize) * 32).is_some();
    }
    true
}

/// The pairs of a table tensor (see `table_pairs`).
fn read_table(header: &GgufHeader, data: &[u8], name: &str) -> (r: Vec<(u32, u32)>)
    requires
        find_tensor(header.tensor_infos@, name@) matches Some(i) ==> table_fits(
            *header,
            header.tensor_infos@[i],
        ),
    ensures
        r@ == table_pairs(data@, *header, name@),
{
    let mut out: Vec<(u32, u32)> = Vec::new();
    match find_tensor_exec(&header.tensor_infos, name) {
        Some(i) => {
            assert(find_tensor(header.tensor_infos@, name@) == Some(i as int));
            let t = &header.tensor_infos[i];
            assert(table_fits(*header, *t));
            let start = header.data_offset as usize + t.offset as usize;
            let numel = product_exec(&t.shape);
            let size = numel * 4;
            let dl = data.len();
            if start + size <= dl {
                let count = size / 8;
                let mut k: usize = 0;
                while k < count
                    invariant
                        dl == data@.len(),
                        count == size / 8,
                        start + size <= data@.len(),
                        start == tensor_start(*header, header.tensor_infos@[i as int]),
                        size == shape_product(header.tensor_infos@[i as int].shape@) * 4,
                        find_tensor(header.tensor_infos@, name@) == Some(i as int),
                        k <= count,
                        out@ == table_pairs(data@, *header, name@).take(k as int),
                    decreases count - k,
                {
                    assert(8 * k + 8 <= size);
                    let p = start + 8 * k;
                    let a = u32_from_le_bytes(vstd::slice::slice_subrange(data, p, p + 4));
                    let b = u32_from_le_bytes(vstd::slice::slice_subrange(data, p + 4, p + 8));
                    out.push((a, b));
                    k += 1;
                    assert(out@ =~= table_pairs(data@, *header, name@).take(k as int));
                }
                assert(out@ =~= table_pairs(data@, *header, name@));
            } else {
                assert(out@ =~= table_pairs(data@, *header, name@));
            }
        },
        None => {
            assert(out@ =~= table_pairs(data@, *header, name@));
        },
    }
    out
}

/// The grammar's semantic graph: the `graph.data` pairs inserted in order.
pub fn grammar_graph(header: &GgufHeader, data: &[u8]) -> (g: HashMap<u32, u32>)
    requires
        grammar_fits(*header),
    ensures
        g@ == insert_pairs(Map::empty(), table_pairs(data@, *header, "graph.data"@)),
{
    let pairs = read_table(header, data, "graph.data");
    let mut g: HashMap<u32, u32> = HashMap::new();
    let mut k: usize = 0;
    assert(pairs@.take(0) =~= Seq::<(u32, u32)>::empty());
    while k < pairs.len()
        invariant
            k <= pairs@.len(),
            g@ == insert_pairs(Map::empty(), pairs@.take(k as int)),
        decreases pairs.len() - k,
    {
        assert(pairs@.take(k + 1).drop_last() =~= pairs@.take(k as int));
        g.insert(pairs[k].0, pairs[k].1);
        k += 1;
    }
    assert(pairs@.take(k as int) =~= pairs@);
    g
}

/// Each root's class: the `lex_to_class.data` pairs inserted in order, the
/// class taken modulo 256.
pub fn grammar_classes(header: &GgufHeader, data: &[u8]) -> (c: HashMap<u32, u8>)
    requires
        grammar_fits(*header),
    ensures
        c@ == insert_pairs(Map::empty(), class_pairs(table_pairs(data@, *header, "lex_to_class.data"@))),
{
    let pairs = read_table(header, data, "lex_to_class.data");
    let ghost cp = class_pairs(pairs@);
    let mut c: HashMap<u32, u8> = HashMap::new();
    let mut k: usize = 0;
    assert(cp.take(0) =~= Seq::<(u32, u8)>::empty());
    while k < pairs.len()
        invariant
            k <= pairs@.len(),
            cp == class_pairs(pairs@),
            c@ == insert_pairs(Map::empty(), cp.take(k as int)),
        decreases pairs.len() - k,
    {
        assert(cp.take(k + 1).drop_last() =~= cp.take(k as int));
        c.insert(pairs[k].0, pairs[k].1 as u8);
        k += 1;
    }
    assert(cp.take(k as int) =~= cp);
    c
}

/// The grammar's lexicon: row `i` of `lexicon.forms` recorded as form
/// `form_<i>` (see `lexicon_rows`).
pub fn grammar_lexicon(header: &GgufHeader, data: &[u8]) -> (l: Lexicon)
    requires
        grammar_fits(*header),
    ensures
        l.wf(),
        l@ == insert_entries(Seq::empty(), lexicon_rows(data@, *header)),
{
    let mut lex = Lexicon::new();
    let ghost rows = lexicon_rows(data@, *header);
    match find_tensor_exec(&header.tensor_infos, "lexicon.forms") {
        Some(i) => {
            assert(find_tensor(header.tensor_infos@, "lexicon.forms"@) == Some(i as int));
            let t = &header.tensor_infos[i];
            assert(t.shape@.len() >= 1 && tensor_start(*header, *t) + t.shape@[0] * 32 <= usize::MAX);
            let start = header.data_offset as usize + t.offset as usize;
            let n = t.shape[0] as usize;
            let dl = data.len();
            if start + n * 32 <= dl {
                let mut k: usize = 0;
                assert(rows.take(0) =~= Seq::<(Seq<char>, LexValue)>::empty());
                while k < n
                    invariant
                        dl == data@.len(),
                        start + n * 32 <= data@.len(),
                        start == tensor_start(*header, header.tensor_infos@[i as int]),
                        n == header.tensor_infos@[i as int].shape@[0],
                        find_tensor(header.tensor_infos@, "lexicon.forms"@) == Some(i as int),
                        rows == lexicon_rows(data@, *header),
                        rows.len() == n,
                        k <= n,
                        lex.wf(),
                        lex@ == insert_entries(Seq::empty(), rows.take(k as int)),
                    decreases n - k,
                {
                    assert(rows.take(k + 1).drop_last() =~= rows.take(k as int));
                    assert(32 * k + 32 <= 32 * n);
                    let r = start + 32 * k;
                    let id = u32_from_le_bytes(vstd::slice::slice_subrange(data, r, r + 4));
                    let morph = u16_from_le_bytes(vstd::slice::slice_subrange(data, r + 4, r + 6));
                    let cls = data[r + 8];
                    let sty = u16_from_le_bytes(vstd::slice::slice_subrange(data, r + 12, r + 14));
                    let mut form = String::from_str("form_");
                    push_decimal(&mut form, k as u64);
                    lex.insert(form, (id, morph, cls, sty));
                    k += 1;
                }
                assert(rows.take(k as int) =~= rows);
            } else {
                assert(rows =~= Seq::<(Seq<char>, LexValue)>::empty());
            }
        },
        None => {
            assert(rows =~= Seq::<(Seq<char>, LexValue)>::empty());
        },
    }
    lex
}

/// The graph the dual loader keeps: the merge when the commercial graph has
/// entries, else the grammar's graph.
pub fn merged_graph(grammar: &HashMap<u32, u32>, llm: &HashMap<u32, u32>, prefer_llm: bool) -> (m: HashMap<u32, u32>)
    ensures
        m@ == if llm@.is_empty() { grammar@ } else { merge_spec(grammar@, llm@, prefer_llm) },
{
    if !llm.is_empty() {
        interpolate_graphs(grammar, llm, prefer_llm)
    } else {
        grammar.clone()
    }
}

} // verus!
