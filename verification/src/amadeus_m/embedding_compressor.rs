//! What the library computes about a commercial model's token embeddings:
//! where the embedding table lies in the file and how many rows are read,
//! and the interpolation of the graph derived from them with the grammar's
//! own graph.
use std::collections::HashMap;
use vstd::prelude::*;
use vstd::std_specs::iter::IteratorSpec;
use crate::amadeus_m::dual_loader::{
    checked_product, checked_start, find_tensor, find_tensor_exec, product_exec, product_fits,
    shape_product, tensor_start,
};
use crate::model::loader::{find_key, first_key, get_str, str_value, value_of};
use crate::quant::gguf::{GgufHeader, GgufKv, GgufValue};
use crate::quant::QuantType;
use crate::text::{decimal, push_decimal, push_str};

verus! {

broadcast use vstd::std_specs::hash::group_hash_axioms;

// ───────────────────────── the embedding table ─────────────────────────

/// The name of the embedding tensor.
pub open spec fn embd_tensor_name() -> Seq<char> {
    "token_embd.weight"@
}

/// The architecture a header names, `unknown` when none.
pub open spec fn arch_or_unknown(kvs: Seq<GgufKv>) -> Seq<char> {
    match str_value(kvs, "general.architecture"@) {
        Some(a) => a,
        None => "unknown"@,
    }
}

/// The vocabulary size recorded under `<arch>.vocab_size` (a `u32` or a
/// `u64`), 0 when none.
pub open spec fn vocab_spec(kvs: Seq<GgufKv>, arch: Seq<char>) -> usize {
    match value_of(kvs, arch + ".vocab_size"@) {
        Some(GgufValue::U32(v)) => v as usize,
        Some(GgufValue::U64(v)) => v as usize,
        _ => 0,
    }
}

/// The embedding width recorded under `<arch>.embedding_length` (a `u32`),
/// 0 when none.
pub open spec fn dim_spec(kvs: Seq<GgufKv>, arch: Seq<char>) -> usize {
    match value_of(kvs, arch + ".embedding_length"@) {
        Some(GgufValue::U32(v)) => v as usize,
        _ => 0,
    }
}

/// The bytes taken per element of the table: 2 for `F16`, 4 for `F32`, 1
/// for `Q8_0` (an approximation), 2 otherwise.
pub open spec fn elem_bytes(q: QuantType) -> usize {
    match q {
        QuantType::F16 => 2,
        QuantType::F32 => 4,
        QuantType::Q8_0 => 1,
        _ => 2,
    }
}

/// The end of the embedding tensor's bytes.
pub open spec fn embd_end(h: GgufHeader, i: int) -> int {
    let t = h.tensor_infos@[i];
    tensor_start(h, t) + shape_product(t.shape@) * elem_bytes(t.quant_type)
}

/// The arithmetic locating the embedding table does not overflow.
pub open spec fn embedding_fits(h: GgufHeader) -> bool {
    find_tensor(h.tensor_infos@, embd_tensor_name()) matches Some(i) ==> {
        let t = h.tensor_infos@[i];
        &&& tensor_start(h, t) <= usize::MAX
        &&& product_fits(t.shape@)
        &&& embd_end(h, i) <= usize::MAX
    }
}

/// Whether the arithmetic locating the embedding table fits (see
/// `embedding_fits`).
pub fn embedding_fits_exec(header: &GgufHeader) -> (b: bool)
    ensures
        b == embedding_fits(*header),
{
    let i = match find_tensor_exec(&header.tensor_infos, "token_embd.weight") {
        Some(i) => i,
        None => return true,
    };
    let t = &header.tensor_infos[i];
    let start = match checked_start(header, t) {
        Some(s) => s,
        None => return false,
    };
    let n = match checked_product(&t.shape) {
        Some(n) => n,
        None => return false,
    };
    let bpe: usize = match t.quant_type {
        QuantType::F16 => 2,
        QuantType::F32 => 4,
        QuantType::Q8_0 => 1,
        _ => 2,
    };
    assert(bpe == elem_bytes(t.quant_type));
    match n.checked_mul(bpe) {
        Some(z) => start.checked_add(z).is_some(),
        None => false,
    }
}

/// The error when the file has no embedding table.
pub open spec fn missing_table_msg() -> Seq<char> {
    "tensor token_embd.weight n\u{e3}o encontrado"@
}

/// The error when the table runs past the end of the file.
pub open spec fn past_end_msg(end: nat, len: nat) -> Seq<char> {
    "tensor excede tamanho do arquivo: "@ + decimal(end) + " > "@ + decimal(len)
}

/// Where a commercial model's embedding table lies, with the model's
/// architecture, vocabulary size and embedding width.
pub struct EmbeddingLayout {
    pub arch: String,
    pub vocab_size: usize,
    pub embd_dim: usize,
    pub quant_type: QuantType,
    pub bytes_per_elem: usize,
    pub start: usize,
    pub end: usize,
}

/// The layout of the embedding table of a model whose header is `header`
/// and whose file holds `data_len` bytes.
pub fn embedding_layout(header: &GgufHeader, data_len: usize) -> (r: Result<EmbeddingLayout, String>)
    requires
        embedding_fits(*header),
    ensures
        match find_tensor(header.tensor_infos@, embd_tensor_name()) {
            None => r matches Err(m) && m@ == missing_table_msg(),
            Some(i) => if embd_end(*header, i) > data_len {
                r matches Err(m) && m@ == past_end_msg(embd_end(*header, i) as nat, data_len as nat)
            } else {
                r matches Ok(l) && l.arch@ == arch_or_unknown(header.kv_pairs@)
                    && l.vocab_size == vocab_spec(header.kv_pairs@, l.arch@)
                    && l.embd_dim == dim_spec(header.kv_pairs@, l.arch@)
                    && l.quant_type == header.tensor_infos@[i].quant_type
                    && l.bytes_per_elem == elem_bytes(l.quant_type)
                    && l.start == tensor_start(*header, header.tensor_infos@[i])
                    && l.end == embd_end(*header, i)
            },
        },
{
    let kvs = header.kv_pairs.as_slice();
    assert(kvs@ == header.kv_pairs@);
    let arch = match get_str(kvs, "general.architecture") {
        Some(a) => String::from_str(a),
        None => String::from_str("unknown"),
    };
    let mut vkey = arch.clone();
    push_str(&mut vkey, ".vocab_size");
    let vocab_size: usize = match find_key(kvs, vkey.as_str()) {
        Some(i) => match &kvs[i].value {
            GgufValue::U32(v) => *v as usize,
            GgufValue::U64(v) => *v as usize,
            _ => 0,
        },
        None => 0,
    };
    let mut dkey = arch.clone();
    push_str(&mut dkey, ".embedding_length");
    let embd_dim: usize = match find_key(kvs, dkey.as_str()) {
        Some(i) => match &kvs[i].value {
            GgufValue::U32(v) => *v as usize,
            _ => 0,
        },
        None => 0,
    };
    let i = match find_tensor_exec(&header.tensor_infos, "token_embd.weight") {
        Some(i) => i,
        None => return Err(String::from_str("tensor token_embd.weight n\u{e3}o encontrado")),
    };
    let t = &header.tensor_infos[i];
    let start = header.data_offset as usize + t.offset as usize;
    let numel = product_exec(&t.shape);
    let bytes_per_elem: usize = match t.quant_type {
        QuantType::F16 => 2,
        QuantType::F32 => 4,
        QuantType::Q8_0 => 1,
        _ => 2,
    };
    assert(numel * bytes_per_elem == shape_product(t.shape@) * elem_bytes(t.quant_type));
    let end = start + numel * bytes_per_elem;
    if end > data_len {
        let mut m = String::from_str("tensor excede tamanho do arquivo: ");
        push_decimal(&mut m, end as u64);
        push_str(&mut m, " > ");
        push_decimal(&mut m, data_len as u64);
        return Err(m);
    }
    Ok(EmbeddingLayout { arch, vocab_size, embd_dim, quant_type: t.quant_type, bytes_per_elem, start, end })
}

/// The most token rows read from a table.
pub const MAX_EMBEDDING_ROWS: usize = 128256;

/// The number of rows read: the tokens below the vocabulary size (at most
/// `MAX_EMBEDDING_ROWS`) whose whole row lies inside the table.
pub open spec fn rows_spec(vocab: usize, dim: usize, bpe: usize, table_len: int) -> int {
    let cap: int = if vocab < MAX_EMBEDDING_ROWS { vocab as int } else { MAX_EMBEDDING_ROWS as int };
    let row: int = dim as int * bpe as int;
    if row == 0 {
        cap
    } else if table_len / row < cap {
        table_len / row
    } else {
        cap
    }
}

/// The number of embedding rows read from a table (see `rows_spec`); row
/// `t` starts `t * embd_dim * bytes_per_elem` bytes into the table.
pub fn embedding_rows(l: &EmbeddingLayout) -> (n: usize)
    requires
        l.start <= l.end,
        l.bytes_per_elem <= 4,
    ensures
        n == rows_spec(l.vocab_size, l.embd_dim, l.bytes_per_elem, l.end - l.start),
{
    let cap: usize = if l.vocab_size < MAX_EMBEDDING_ROWS { l.vocab_size } else { MAX_EMBEDDING_ROWS };
    let d = l.embd_dim as u128;
    let b = l.bytes_per_elem as u128;
    assert(d * b <= 4 * 0xFFFF_FFFF_FFFF_FFFFu128) by (nonlinear_arith)
        requires
            d <= 0xFFFF_FFFF_FFFF_FFFFu128,
            b <= 4,
    ;
    let row: u128 = d * b;
    if row == 0 {
        return cap;
    }
    let len: u128 = (l.end - l.start) as u128;
    let fit: u128 = len / row;
    if fit < cap as u128 {
        fit as usize
    } else {
        cap
    }
}

// ───────────────────────── merging ─────────────────────────

/// The merge of two signatures: every bit taken from the preferred graph
/// (the model's when its weight is above one half, the legacy one's
/// otherwise), so that weight 1.0 gives the model's signature only and 0.0
/// the legacy one only.
pub open spec fn merge_sig(prefer_llm: bool, legacy: u32, llm: u32) -> u32 {
    if prefer_llm {
        llm
    } else {
        legacy
    }
}

/// The merged graph: roots of both graphs get the merged signature, roots
/// of one graph keep theirs.
pub open spec fn merge_spec(legacy: Map<u32, u32>, llm: Map<u32, u32>, prefer_llm: bool) -> Map<u32, u32> {
    Map::new(
        |k: u32| legacy.contains_key(k) || llm.contains_key(k),
        |k: u32|
            if legacy.contains_key(k) && llm.contains_key(k) {
                merge_sig(prefer_llm, legacy[k], llm[k])
            } else if legacy.contains_key(k) {
                legacy[k]
            } else {
                llm[k]
            },
    )
}

pub(crate) fn map_get(m: &HashMap<u32, u32>, k: u32) -> (r: Option<u32>)
    ensures
        r == (if m@.contains_key(k) { Some(m@[k]) } else { None::<u32> }),
{
    match m.get(&k) {
        Some(v) => Some(*v),
        None => None,
    }
}

/// Interpolates two graphs (see `merge_spec`); `prefer_llm` is whether the
/// commercial graph's weight exceeds one half.
pub fn interpolate_graphs(legacy: &HashMap<u32, u32>, llm: &HashMap<u32, u32>, prefer_llm: bool) -> (m: HashMap<u32, u32>)
    ensures
        m@ == merge_spec(legacy@, llm@, prefer_llm),
{
    let mut result: HashMap<u32, u32> = HashMap::new();
    let ghost rem = vstd::std_specs::hash::spec_hash_map_iter(legacy).remaining();
    for kv in it: legacy.iter()
        invariant
            it.seq() == rem,
            forall|k: u32| #[trigger] result@.contains_key(k) <==> exists|j: int| 0 <= j < it.index() && *rem[j].0 == k,
            forall|k: u32| #[trigger] result@.contains_key(k) ==> legacy@.contains_key(k) && result@[k] == merge_spec(legacy@, llm@, prefer_llm)[k],
    {
        let (k, v) = kv;
        let ghost idx = it.index();
        assert(legacy@.contains_key(*rem[idx].0));
        let merged = match map_get(llm, *k) {
            Some(b) => if prefer_llm { b } else { *v },
            None => *v,
        };
        result.insert(*k, merged);
        assert forall|q: u32| #[trigger] result@.contains_key(q) implies exists|j: int| 0 <= j < idx + 1 && *rem[j].0 == q by {
            if q != *k {
                let j = choose|j: int| 0 <= j < idx && *rem[j].0 == q;
            } else {
                assert(*rem[idx].0 == q);
            }
        }
    }
    proof {
        assert forall|k: u32| legacy@.contains_key(k) implies #[trigger] result@.contains_key(k) by {
            assert(rem.contains((&k, &legacy@[k])));
            let j = choose|j: int| 0 <= j < rem.len() && rem[j] == (&k, &legacy@[k]);
            assert(*rem[j].0 == k);
        }
    }
    let ghost rem2 = vstd::std_specs::hash::spec_hash_map_iter(llm).remaining();
    for kv in it: llm.iter()
        invariant
            it.seq() == rem2,
            forall|k: u32| legacy@.contains_key(k) ==> #[trigger] result@.contains_key(k),
            forall|k: u32| #[trigger] result@.contains_key(k) ==> (legacy@.contains_key(k) || exists|j: int| 0 <= j < it.index() && *rem2[j].0 == k),
            forall|k: u32| #[trigger] result@.contains_key(k) ==> result@[k] == merge_spec(legacy@, llm@, prefer_llm)[k],
            forall|j: int| 0 <= j < it.index() ==> result@.contains_key(#[trigger] *rem2[j].0),
    {
        let (k, v) = kv;
        let ghost idx = it.index();
        assert(llm@.contains_key(*rem2[idx].0));
        if map_get(&result, *k).is_none() {
            result.insert(*k, *v);
        }
        assert forall|q: u32| #[trigger] result@.contains_key(q) implies (legacy@.contains_key(q) || exists|j: int| 0 <= j < idx + 1 && *rem2[j].0 == q) by {
            if q != *k && !legacy@.contains_key(q) {
                let j = choose|j: int| 0 <= j < idx && *rem2[j].0 == q;
            } else if q == *k {
                assert(*rem2[idx].0 == q);
            }
        }
    }
    proof {
        assert forall|k: u32| llm@.contains_key(k) implies #[trigger] result@.contains_key(k) by {
            assert(rem2.contains((&k, &llm@[k])));
            let j = choose|j: int| 0 <= j < rem2.len() && rem2[j] == (&k, &llm@[k]);
            assert(result@.contains_key(*rem2[j].0));
        }
        assert(result@ =~= merge_spec(legacy@, llm@, prefer_llm));
    }
    result
}

} // verus!

verus! {

/// Interpolation is symmetric: swapping the two graphs and the preference gives
/// the same graph.
pub proof fn lemma_interpolate_swap(a: Map<u32, u32>, b: Map<u32, u32>, prefer_llm: bool)
    ensures
        merge_spec(a, b, prefer_llm) == merge_spec(b, a, !prefer_llm),
{
    assert(merge_spec(a, b, prefer_llm) =~= merge_spec(b, a, !prefer_llm));
}

} // verus!
