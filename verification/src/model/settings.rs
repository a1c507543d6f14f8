//! The integer and text settings of a transformer model: the defaults of
//! each known architecture, the values a GGUF header overrides, and where
//! each weight tensor lies in the file.
use vstd::prelude::*;
use crate::amadeus_m::dual_loader::{checked_product, product_exec, product_fits, shape_product};
use crate::amadeus_m::grammar_file::{find_last_exec, find_last_tensor};
use crate::model::loader::{get_u32, u32_value, LoaderError};
use crate::quant::gguf::{GgufHeader, GgufKv, GgufTensorInfo, TensorView, tensor_view};
use crate::quant::{block_size_spec, bytes_per_block_spec};
use crate::text::{decimal, push_decimal, push_str, str_eq};

verus! {

/// The settings of a model other than its floating-point ones (the norm
/// epsilon and the RoPE base).
#[derive(Debug, Clone)]
pub struct ModelSettings {
    pub name: String,
    pub architecture: String,
    pub n_layers: usize,
    pub n_heads: usize,
    pub n_kv_heads: usize,
    pub n_embd: usize,
    pub n_intermediate: usize,
    pub head_dim: usize,
    pub max_seq_len: usize,
    pub vocab_size: usize,
    pub quant_type: String,
    pub n_gqa: usize,
}

/// The numeric settings, in the order layers, heads, key/value heads,
/// embedding width, feed-forward width, head width, context length,
/// vocabulary size, query groups.
pub type Dims = (usize, usize, usize, usize, usize, usize, usize, usize, usize);

pub open spec fn dims_of(s: ModelSettings) -> Dims {
    (s.n_layers, s.n_heads, s.n_kv_heads, s.n_embd, s.n_intermediate, s.head_dim, s.max_seq_len, s.vocab_size, s.n_gqa)
}

/// The default numbers of an architecture: `llama` and `gemma` have their
/// own, any other gets a small generic model.
pub open spec fn default_dims(arch: Seq<char>) -> Dims {
    if arch == "llama"@ {
        (32, 32, 8, 4096, 11008, 128, 4096, 32000, 4)
    } else if arch == "gemma"@ {
        (18, 8, 1, 2048, 16384, 256, 8192, 256000, 1)
    } else {
        (16, 16, 16, 2048, 8192, 128, 2048, 32000, 1)
    }
}

/// The default quantization name of an architecture.
pub open spec fn default_quant(arch: Seq<char>) -> Seq<char> {
    if arch == "llama"@ || arch == "gemma"@ {
        "Q4_0"@
    } else {
        "F16"@
    }
}

/// The defaults of an architecture (see `default_dims`), named after it.
pub fn guess_defaults(arch: &str) -> (s: ModelSettings)
    ensures
        s.name@ == arch@,
        s.architecture@ == arch@,
        dims_of(s) == default_dims(arch@),
        s.quant_type@ == default_quant(arch@),
{
    if str_eq(arch, "llama") {
        ModelSettings {
            name: String::from_str(arch),
            architecture: String::from_str(arch),
            n_layers: 32,
            n_heads: 32,
            n_kv_heads: 8,
            n_embd: 4096,
            n_intermediate: 11008,
            head_dim: 128,
            max_seq_len: 4096,
            vocab_size: 32000,
            quant_type: String::from_str("Q4_0"),
            n_gqa: 4,
        }
    } else if str_eq(arch, "gemma") {
        ModelSettings {
            name: String::from_str(arch),
            architecture: String::from_str(arch),
            n_layers: 18,
            n_heads: 8,
            n_kv_heads: 1,
            n_embd: 2048,
            n_intermediate: 16384,
            head_dim: 256,
            max_seq_len: 8192,
            vocab_size: 256000,
            quant_type: String::from_str("Q4_0"),
            n_gqa: 1,
        }
    } else {
        ModelSettings {
            name: String::from_str(arch),
            architecture: String::from_str(arch),
            n_layers: 16,
            n_heads: 16,
            n_kv_heads: 16,
            n_embd: 2048,
            n_intermediate: 8192,
            head_dim: 128,
            max_seq_len: 2048,
            vocab_size: 32000,
            quant_type: String::from_str("F16"),
            n_gqa: 1,
        }
    }
}

/// A `u32` setting `<arch>.<key>` of the header, or the default.
pub open spec fn setting(kvs: Seq<GgufKv>, arch: Seq<char>, key: Seq<char>, default: usize) -> usize {
    match u32_value(kvs, arch + "."@ + key) {
        Some(v) => v as usize,
        None => default,
    }
}

/// The head count after the header's override.
pub open spec fn heads_spec(kvs: Seq<GgufKv>, arch: Seq<char>) -> usize {
    setting(kvs, arch, "attention.head_count"@, default_dims(arch).1)
}

/// The key/value head count: the header's, else the head count (plain
/// multi-head attention).
pub open spec fn kv_heads_spec(kvs: Seq<GgufKv>, arch: Seq<char>) -> usize {
    setting(kvs, arch, "attention.head_count_kv"@, heads_spec(kvs, arch))
}

/// Both head counts are non-zero, so the head width and the query groups
/// can be derived.
pub open spec fn heads_nonzero(kvs: Seq<GgufKv>, arch: Seq<char>) -> bool {
    heads_spec(kvs, arch) != 0 && kv_heads_spec(kvs, arch) != 0
}

/// The numbers of a model after the header's overrides: block count,
/// embedding length, feed-forward length, head counts, context length and
/// vocabulary size, with the head width and the query groups derived.
pub open spec fn settings_dims(kvs: Seq<GgufKv>, arch: Seq<char>) -> Dims {
    let d = default_dims(arch);
    let n_embd = setting(kvs, arch, "embedding_length"@, d.3);
    let n_heads = heads_spec(kvs, arch);
    let n_kv = kv_heads_spec(kvs, arch);
    (
        setting(kvs, arch, "block_count"@, d.0),
        n_heads,
        n_kv,
        n_embd,
        setting(kvs, arch, "feed_forward_length"@, d.4),
        (n_embd / n_heads) as usize,
        setting(kvs, arch, "context_length"@, d.6),
        setting(kvs, arch, "vocab_size"@, d.7),
        (n_heads / n_kv) as usize,
    )
}

fn arch_key(arch: &str, key: &str) -> (k: String)
    ensures
        k@ == arch@ + "."@ + key@,
{
    let mut k = String::from_str(arch);
    push_str(&mut k, ".");
    push_str(&mut k, key);
    k
}

fn setting_exec(kvs: &[GgufKv], arch: &str, key: &str, default: usize) -> (v: usize)
    ensures
        v == setting(kvs@, arch@, key@, default),
{
    let k = arch_key(arch, key);
    match get_u32(kvs, k.as_str()) {
        Some(v) => v as usize,
        None => default,
    }
}

/// Whether both head counts are non-zero (see `heads_nonzero`).
pub fn heads_are_nonzero(kvs: &[GgufKv], arch: &str) -> (b: bool)
    ensures
        b == heads_nonzero(kvs@, arch@),
{
    let d = guess_defaults(arch);
    let n_heads = setting_exec(kvs, arch, "attention.head_count", d.n_heads);
    let n_kv = setting_exec(kvs, arch, "attention.head_count_kv", n_heads);
    n_heads != 0 && n_kv != 0
}

/// The settings of a model of architecture `arch` with header pairs `kvs`
/// (see `settings_dims`); the name and quantization are the
/// architecture's defaults.
pub fn model_settings(kvs: &[GgufKv], arch: &str) -> (s: ModelSettings)
    requires
        heads_nonzero(kvs@, arch@),
    ensures
        s.name@ == arch@,
        s.architecture@ == arch@,
        s.quant_type@ == default_quant(arch@),
        dims_of(s) == settings_dims(kvs@, arch@),
{
    let mut s = guess_defaults(arch);
    s.n_layers = setting_exec(kvs, arch, "block_count", s.n_layers);
    s.n_embd = setting_exec(kvs, arch, "embedding_length", s.n_embd);
    s.n_intermediate = setting_exec(kvs, arch, "feed_forward_length", s.n_intermediate);
    s.n_heads = setting_exec(kvs, arch, "attention.head_count", s.n_heads);
    s.n_kv_heads = setting_exec(kvs, arch, "attention.head_count_kv", s.n_heads);
    s.max_seq_len = setting_exec(kvs, arch, "context_length", s.max_seq_len);
    s.vocab_size = setting_exec(kvs, arch, "vocab_size", s.vocab_size);
    s.head_dim = s.n_embd / s.n_heads;
    s.n_gqa = s.n_heads / s.n_kv_heads;
    s
}

// ───────────────────────── weight tensors ─────────────────────────

/// The name of weight `suffix` of layer `i`: `blk.<i>.<suffix>`.
pub open spec fn layer_tensor_spec(i: nat, suffix: Seq<char>) -> Seq<char> {
    "blk."@ + decimal(i) + "."@ + suffix
}

/// The name of weight `suffix` of layer `i` (see `layer_tensor_spec`).
pub fn layer_tensor_name(i: usize, suffix: &str) -> (n: String)
    ensures
        n@ == layer_tensor_spec(i as nat, suffix@),
{
    let mut n = String::from_str("blk.");
    push_decimal(&mut n, i as u64);
    push_str(&mut n, ".");
    push_str(&mut n, suffix);
    n
}

/// Where a tensor's blocks lie: from the data start plus its offset, as
/// many whole blocks as its elements need.
pub open spec fn extent_spec(h: GgufHeader, i: int) -> (int, int, int) {
    let t = h.tensor_infos@[i];
    let start = h.data_offset + t.offset;
    let numel = shape_product(t.shape@);
    let bs = block_size_spec(t.quant_type) as int;
    let blocks = (numel + bs - 1) / bs;
    (start, start + blocks * bytes_per_block_spec(t.quant_type), numel)
}

/// The descriptors of a header as plain values.
pub open spec fn descriptor_views(h: GgufHeader) -> Seq<TensorView> {
    h.tensor_infos@.map_values(|t: GgufTensorInfo| tensor_view(t))
}

/// The arithmetic locating tensor `name` (its last descriptor, a later one
/// replacing an earlier one of the same name) does not overflow.
pub open spec fn extent_fits(h: GgufHeader, name: Seq<char>) -> bool {
    find_last_tensor(descriptor_views(h), name) matches Some(i) ==> {
        let t = h.tensor_infos@[i];
        &&& h.data_offset + t.offset <= usize::MAX
        &&& product_fits(t.shape@)
        &&& shape_product(t.shape@) + block_size_spec(t.quant_type) <= usize::MAX
        &&& extent_spec(h, i).1 <= usize::MAX
    }
}

/// Where a tensor's bytes lie, how many elements it has, and which
/// descriptor it was read from.
#[derive(Debug, Clone, Copy, PartialEq, Eq, Structural)]
pub struct TensorExtent {
    pub index: usize,
    pub start: usize,
    pub end: usize,
    pub numel: usize,
}

/// Whether the arithmetic for tensor `name` fits (see `extent_fits`).
pub fn extent_fits_exec(header: &GgufHeader, name: &str) -> (b: bool)
    ensures
        b == extent_fits(*header, name@),
{
    let i = match find_last_exec(&header.tensor_infos, name) {
        Some(i) => i,
        None => return true,
    };
    let t = &header.tensor_infos[i];
    if header.data_offset > usize::MAX as u64 || t.offset > usize::MAX as u64 {
        return false;
    }
    let start = match (header.data_offset as usize).checked_add(t.offset as usize) {
        Some(s) => s,
        None => return false,
    };
    let numel = match checked_product(&t.shape) {
        Some(n) => n,
        None => return false,
    };
    let bs = t.quant_type.block_size();
    let bp = t.quant_type.bytes_per_block();
    let padded = match numel.checked_add(bs) {
        Some(p) => p,
        None => return false,
    };
    let blocks = (padded - 1) / bs;
    let size = match blocks.checked_mul(bp) {
        Some(z) => z,
        None => return false,
    };
    start.checked_add(size).is_some()
}

/// Where tensor `name` lies (see `extent_spec`), read from its last
/// descriptor, or `MissingTensor` with the name.
pub fn tensor_extent(header: &GgufHeader, name: &str) -> (r: Result<TensorExtent, LoaderError>)
    requires
        extent_fits(*header, name@),
    ensures
        match find_last_tensor(descriptor_views(*header), name@) {
            None => r matches Err(LoaderError::MissingTensor(m)) && m@ == name@,
            Some(i) => r matches Ok(e) && e.index == i && (e.start as int, e.end as int, e.numel as int)
                == extent_spec(*header, i),
        },
{
    let i = match find_last_exec(&header.tensor_infos, name) {
        Some(i) => i,
        None => return Err(LoaderError::MissingTensor(String::from_str(name))),
    };
    let t = &header.tensor_infos[i];
    let start = header.data_offset as usize + t.offset as usize;
    let numel = product_exec(&t.shape);
    let bs = t.quant_type.block_size();
    let bp = t.quant_type.bytes_per_block();
    let blocks = (numel + bs - 1) / bs;
    assert(blocks * bp <= usize::MAX) by {
        assert(extent_spec(*header, i as int).1 <= usize::MAX);
    }
    let end = start + blocks * bp;
    Ok(TensorExtent { index: i, start, end, numel })
}

} // verus!
