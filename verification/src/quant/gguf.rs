//! The GGUF container: typed metadata values, tensor descriptors, a header
//! reader over bytes and a writer producing them.
use vstd::prelude::*;
use vstd::bytes::{
    spec_u16_from_le_bytes, spec_u32_from_le_bytes, spec_u64_from_le_bytes, spec_u16_to_le_bytes,
    spec_u32_to_le_bytes, spec_u64_to_le_bytes, u16_to_le_bytes, u32_to_le_bytes, u64_to_le_bytes,
};
use vstd::utf8::{valid_utf8, decode_utf8, encode_utf8};
use byteorder::{ByteOrder, LittleEndian};
use crate::quant::QuantType;

verus! {

/// "GGUF" as a little-endian u32.
pub const GGUF_MAGIC: u32 = 0x46554747;

/// A metadata value. Floating-point values are carried as their IEEE-754
/// bit patterns.
#[derive(Debug)]
pub enum GgufValue {
    U8(u8),
    I8(i8),
    U16(u16),
    I16(i16),
    U32(u32),
    I32(i32),
    F32(u32),
    Bool(bool),
    String(String),
    Array(Vec<GgufValue>),
    U64(u64),
    I64(i64),
    F64(u64),
}

#[derive(Debug)]
pub struct GgufKv {
    pub key: String,
    pub value: GgufValue,
}

#[derive(Debug)]
pub struct GgufTensorInfo {
    pub name: String,
    pub n_dims: u32,
    pub shape: Vec<u64>,
    pub quant_type: QuantType,
    pub offset: u64,
}

#[derive(Debug)]
pub struct GgufHeader {
    pub version: u32,
    pub n_tensors: u64,
    pub n_kv: u64,
    pub kv_pairs: Vec<GgufKv>,
    pub tensor_infos: Vec<GgufTensorInfo>,
    pub data_offset: u64,
}

/// The field being read when the input ran out.
#[derive(Debug, Clone, Copy, PartialEq, Eq, Structural)]
pub enum GgufField {
    Magic,
    Version,
    NTensorsV1,
    NKvV1,
    NTensors,
    NKv,
    StrLen,
    StrData,
    Type,
    U8,
    I8,
    U16,
    I16,
    U32,
    I32,
    F32,
    Bool,
    ArrType,
    ArrLen,
    U64,
    I64,
    F64,
    NDims,
    Shape,
    Quant,
    Offset,
}

/// Why a header could not be read.
#[derive(Debug, Clone, Copy, PartialEq, Eq, Structural)]
pub enum GgufError {
    /// The input ended inside the given field.
    Eof(GgufField),
    /// A string's bytes are not UTF-8.
    Utf8,
    /// A value type code outside 0..=12.
    UnknownType(u32),
    /// A tensor quantization code this library does not handle.
    UnsupportedQuant(u32),
    /// The file does not start with the GGUF magic number.
    BadMagic(u32),
}

/// Mathematical view of a metadata value.
pub enum GValue {
    U8(u8),
    I8(i8),
    U16(u16),
    I16(i16),
    U32(u32),
    I32(i32),
    F32(u32),
    Bool(bool),
    Str(Seq<char>),
    Array(Seq<GValue>),
    U64(u64),
    I64(i64),
    F64(u64),
}

pub open spec fn value_view(v: GgufValue) -> GValue
    decreases v, 1int,
{
    match v {
        GgufValue::U8(x) => GValue::U8(x),
        GgufValue::I8(x) => GValue::I8(x),
        GgufValue::U16(x) => GValue::U16(x),
        GgufValue::I16(x) => GValue::I16(x),
        GgufValue::U32(x) => GValue::U32(x),
        GgufValue::I32(x) => GValue::I32(x),
        GgufValue::F32(x) => GValue::F32(x),
        GgufValue::Bool(x) => GValue::Bool(x),
        GgufValue::String(s) => GValue::Str(s@),
        GgufValue::Array(items) => GValue::Array(values_view(items@)),
        GgufValue::U64(x) => GValue::U64(x),
        GgufValue::I64(x) => GValue::I64(x),
        GgufValue::F64(x) => GValue::F64(x),
    }
}

pub open spec fn values_view(s: Seq<GgufValue>) -> Seq<GValue>
    decreases s, 0int,
{
    if s.len() == 0 {
        Seq::empty()
    } else {
        values_view(s.subrange(0, s.len() - 1)).push(value_view(s[s.len() - 1]))
    }
}

pub type KvView = (Seq<char>, GValue);

pub type TensorView = (Seq<char>, u32, Seq<u64>, QuantType, u64);

/// Mathematical view of a header.
pub struct HeaderView {
    pub version: u32,
    pub n_tensors: u64,
    pub n_kv: u64,
    pub kv_pairs: Seq<KvView>,
    pub tensor_infos: Seq<TensorView>,
    pub data_offset: u64,
}

pub open spec fn kv_view(kv: GgufKv) -> KvView {
    (kv.key@, value_view(kv.value))
}

pub open spec fn tensor_view(t: GgufTensorInfo) -> TensorView {
    (t.name@, t.n_dims, t.shape@, t.quant_type, t.offset)
}

pub open spec fn header_view(h: GgufHeader) -> HeaderView {
    HeaderView {
        version: h.version,
        n_tensors: h.n_tensors,
        n_kv: h.n_kv,
        kv_pairs: h.kv_pairs@.map_values(|kv: GgufKv| kv_view(kv)),
        tensor_infos: h.tensor_infos@.map_values(|t: GgufTensorInfo| tensor_view(t)),
        data_offset: h.data_offset,
    }
}

// ───────────────────────── reading ─────────────────────────

/// The result of reading something at position `p`: the value and the
/// position after it, or the error.
pub type Read<T> = Result<(T, int), GgufError>;

pub open spec fn fits(d: Seq<u8>, p: int, w: int) -> bool {
    0 <= p && p + w <= d.len()
}

pub open spec fn u16_at(d: Seq<u8>, p: int) -> u16 {
    spec_u16_from_le_bytes(d.subrange(p, p + 2))
}

pub open spec fn u32_at(d: Seq<u8>, p: int) -> u32 {
    spec_u32_from_le_bytes(d.subrange(p, p + 4))
}

pub open spec fn u64_at(d: Seq<u8>, p: int) -> u64 {
    spec_u64_from_le_bytes(d.subrange(p, p + 8))
}

/// A length-prefixed (u64) UTF-8 string.
pub open spec fn read_string_spec(d: Seq<u8>, p: int) -> Read<Seq<char>> {
    if !fits(d, p, 8) {
        Err(GgufError::Eof(GgufField::StrLen))
    } else {
        let len = u64_at(d, p);
        if !fits(d, p + 8, len as int) {
            Err(GgufError::Eof(GgufField::StrData))
        } else {
            let bytes = d.subrange(p + 8, p + 8 + len);
            if valid_utf8(bytes) {
                Ok((decode_utf8(bytes), p + 8 + len))
            } else {
                Err(GgufError::Utf8)
            }
        }
    }
}

/// A value of type code `ty`, without its own type code.
pub open spec fn read_typed_spec(d: Seq<u8>, p: int, ty: u32) -> Read<GValue>
    decreases d.len() - p, 0int,
{
    if p < 0 || p > d.len() {
        Err(GgufError::Eof(GgufField::Type))
    } else if ty == 0 {
        if fits(d, p, 1) { Ok((GValue::U8(d[p]), p + 1)) } else { Err(GgufError::Eof(GgufField::U8)) }
    } else if ty == 1 {
        if fits(d, p, 1) { Ok((GValue::I8(d[p] as i8), p + 1)) } else { Err(GgufError::Eof(GgufField::I8)) }
    } else if ty == 2 {
        if fits(d, p, 2) { Ok((GValue::U16(u16_at(d, p)), p + 2)) } else { Err(GgufError::Eof(GgufField::U16)) }
    } else if ty == 3 {
        if fits(d, p, 2) { Ok((GValue::I16(u16_at(d, p) as i16), p + 2)) } else { Err(GgufError::Eof(GgufField::I16)) }
    } else if ty == 4 {
        if fits(d, p, 4) { Ok((GValue::U32(u32_at(d, p)), p + 4)) } else { Err(GgufError::Eof(GgufField::U32)) }
    } else if ty == 5 {
        if fits(d, p, 4) { Ok((GValue::I32(u32_at(d, p) as i32), p + 4)) } else { Err(GgufError::Eof(GgufField::I32)) }
    } else if ty == 6 {
        if fits(d, p, 4) { Ok((GValue::F32(u32_at(d, p)), p + 4)) } else { Err(GgufError::Eof(GgufField::F32)) }
    } else if ty == 7 {
        if fits(d, p, 1) { Ok((GValue::Bool(d[p] != 0), p + 1)) } else { Err(GgufError::Eof(GgufField::Bool)) }
    } else if ty == 8 {
        match read_string_spec(d, p) {
            Ok((s, q)) => Ok((GValue::Str(s), q)),
            Err(e) => Err(e),
        }
    } else if ty == 9 {
        if !fits(d, p, 4) {
            Err(GgufError::Eof(GgufField::ArrType))
        } else if !fits(d, p + 4, 8) {
            Err(GgufError::Eof(GgufField::ArrLen))
        } else {
            match read_items_spec(d, p + 12, u32_at(d, p), u64_at(d, p + 4) as nat) {
                Ok((items, q)) => Ok((GValue::Array(items), q)),
                Err(e) => Err(e),
            }
        }
    } else if ty == 10 {
        if fits(d, p, 8) { Ok((GValue::U64(u64_at(d, p)), p + 8)) } else { Err(GgufError::Eof(GgufField::U64)) }
    } else if ty == 11 {
        if fits(d, p, 8) { Ok((GValue::I64(u64_at(d, p) as i64), p + 8)) } else { Err(GgufError::Eof(GgufField::I64)) }
    } else if ty == 12 {
        if fits(d, p, 8) { Ok((GValue::F64(u64_at(d, p)), p + 8)) } else { Err(GgufError::Eof(GgufField::F64)) }
    } else {
        Err(GgufError::UnknownType(ty))
    }
}

/// `n` values of type code `ty`, one after the other.
pub open spec fn read_items_spec(d: Seq<u8>, p: int, ty: u32, n: nat) -> Read<Seq<GValue>>
    decreases d.len() - p, n + 1,
{
    if n == 0 {
        Ok((Seq::empty(), p))
    } else {
        match read_typed_spec(d, p, ty) {
            Ok((v, q)) => if p < q <= d.len() {
                match read_items_spec(d, q, ty, (n - 1) as nat) {
                    Ok((rest, r)) => Ok((seq![v] + rest, r)),
                    Err(e) => Err(e),
                }
            } else {
                Err(GgufError::Eof(GgufField::Type))
            },
            Err(e) => Err(e),
        }
    }
}

proof fn lemma_read_progress(d: Seq<u8>, p: int, ty: u32)
    ensures
        read_typed_spec(d, p, ty) matches Ok((v, q)) ==> p < q <= d.len(),
    decreases d.len() - p, 0int,
{
    if 0 <= p <= d.len() && ty == 9 && fits(d, p, 12) {
        lemma_items_progress(d, p + 12, u32_at(d, p), u64_at(d, p + 4) as nat);
    }
}

proof fn lemma_items_progress(d: Seq<u8>, p: int, ty: u32, n: nat)
    requires
        0 <= p <= d.len(),
    ensures
        read_items_spec(d, p, ty, n) matches Ok((s, q)) ==> p <= q <= d.len() && s.len() == n,
    decreases d.len() - p, n + 1,
{
    if n > 0 {
        lemma_read_progress(d, p, ty);
        if let Ok((v, q)) = read_typed_spec(d, p, ty) {
            lemma_items_progress(d, q, ty, (n - 1) as nat);
        }
    }
}

/// Reading `k` items then the remaining `n - k` is reading `n` items.
proof fn lemma_items_split(d: Seq<u8>, p: int, ty: u32, n: nat, v: GValue, q: int)
    requires
        n > 0,
        read_typed_spec(d, p, ty) == Ok::<(GValue, int), GgufError>((v, q)),
    ensures
        read_items_spec(d, p, ty, n) == (match read_items_spec(d, q, ty, (n - 1) as nat) {
            Ok((rest, r)) => Ok((seq![v] + rest, r)),
            Err(e) => Err(e),
        }),
{
    lemma_read_progress(d, p, ty);
}

// Little-endian reads of the `byteorder` crate.

/// `LittleEndian::read_u16` on two bytes: their little-endian value.
#[verifier::external_body]
fn le_u16(data: &[u8], p: usize) -> (x: u16)
    requires
        p + 2 <= data@.len(),
    ensures
        x == u16_at(data@, p as int),
{
    LittleEndian::read_u16(&data[p..p + 2])
}

/// `LittleEndian::read_i16` on two bytes: the little-endian value, as signed.
#[verifier::external_body]
fn le_i16(data: &[u8], p: usize) -> (x: i16)
    requires
        p + 2 <= data@.len(),
    ensures
        x == u16_at(data@, p as int) as i16,
{
    LittleEndian::read_i16(&data[p..p + 2])
}

/// `LittleEndian::read_u32` on four bytes: their little-endian value.
#[verifier::external_body]
fn le_u32(data: &[u8], p: usize) -> (x: u32)
    requires
        p + 4 <= data@.len(),
    ensures
        x == u32_at(data@, p as int),
{
    LittleEndian::read_u32(&data[p..p + 4])
}

/// `LittleEndian::read_i32` on four bytes: the little-endian value, as signed.
#[verifier::external_body]
fn le_i32(data: &[u8], p: usize) -> (x: i32)
    requires
        p + 4 <= data@.len(),
    ensures
        x == u32_at(data@, p as int) as i32,
{
    LittleEndian::read_i32(&data[p..p + 4])
}

/// `LittleEndian::read_u64` on eight bytes: their little-endian value.
#[verifier::external_body]
fn le_u64(data: &[u8], p: usize) -> (x: u64)
    requires
        p + 8 <= data@.len(),
    ensures
        x == u64_at(data@, p as int),
{
    LittleEndian::read_u64(&data[p..p + 8])
}

/// `LittleEndian::read_i64` on eight bytes: the little-endian value, as signed.
#[verifier::external_body]
fn le_i64(data: &[u8], p: usize) -> (x: i64)
    requires
        p + 8 <= data@.len(),
    ensures
        x == u64_at(data@, p as int) as i64,
{
    LittleEndian::read_i64(&data[p..p + 8])
}

/// `String::from_utf8`: the string when the bytes are UTF-8, otherwise none.
#[verifier::external_body]
pub(crate) fn utf8_string(bytes: Vec<u8>) -> (r: Option<String>)
    ensures
        r matches Some(s) ==> valid_utf8(bytes@) && s@ == decode_utf8(bytes@),
        r is None ==> !valid_utf8(bytes@),
{
    String::from_utf8(bytes).ok()
}

fn room(data: &[u8], p: usize, w: usize) -> (b: bool)
    ensures
        b == fits(data@, p as int, w as int),
        data@.len() <= usize::MAX,
{
    p <= data.len() && w <= data.len() - p
}

fn read_string(data: &[u8], p: usize) -> (r: Result<(String, usize), GgufError>)
    ensures
        match r {
            Ok((s, q)) => read_string_spec(data@, p as int) == Ok::<(Seq<char>, int), GgufError>((s@, q as int)),
            Err(e) => read_string_spec(data@, p as int) == Err::<(Seq<char>, int), GgufError>(e),
        },
{
    if !room(data, p, 8) {
        return Err(GgufError::Eof(GgufField::StrLen));
    }
    let len = le_u64(data, p);
    let start = p + 8;
    if len > (data.len() - start) as u64 {
        return Err(GgufError::Eof(GgufField::StrData));
    }
    let end = start + len as usize;
    let bytes = vstd::slice::slice_to_vec(&data[start..end]);
    assert(bytes@ =~= data@.subrange(start as int, end as int));
    match utf8_string(bytes) {
        Some(s) => Ok((s, end)),
        None => Err(GgufError::Utf8),
    }
}

fn read_typed_value(data: &[u8], p: usize, ty: u32) -> (r: Result<(GgufValue, usize), GgufError>)
    requires
        p <= data@.len(),
    ensures
        match r {
            Ok((v, q)) => read_typed_spec(data@, p as int, ty) == Ok::<(GValue, int), GgufError>((value_view(v), q as int)),
            Err(e) => read_typed_spec(data@, p as int, ty) == Err::<(GValue, int), GgufError>(e),
        },
    decreases data@.len() - p, 0int,
{
    match ty {
        0 => if room(data, p, 1) { Ok((GgufValue::U8(data[p]), p + 1)) } else { Err(GgufError::Eof(GgufField::U8)) },
        1 => if room(data, p, 1) { Ok((GgufValue::I8(data[p] as i8), p + 1)) } else { Err(GgufError::Eof(GgufField::I8)) },
        2 => if room(data, p, 2) { Ok((GgufValue::U16(le_u16(data, p)), p + 2)) } else { Err(GgufError::Eof(GgufField::U16)) },
        3 => if room(data, p, 2) { Ok((GgufValue::I16(le_i16(data, p)), p + 2)) } else { Err(GgufError::Eof(GgufField::I16)) },
        4 => if room(data, p, 4) { Ok((GgufValue::U32(le_u32(data, p)), p + 4)) } else { Err(GgufError::Eof(GgufField::U32)) },
        5 => if room(data, p, 4) { Ok((GgufValue::I32(le_i32(data, p)), p + 4)) } else { Err(GgufError::Eof(GgufField::I32)) },
        6 => if room(data, p, 4) { Ok((GgufValue::F32(le_u32(data, p)), p + 4)) } else { Err(GgufError::Eof(GgufField::F32)) },
        7 => if room(data, p, 1) { Ok((GgufValue::Bool(data[p] != 0), p + 1)) } else { Err(GgufError::Eof(GgufField::Bool)) },
        8 => match read_string(data, p) {
            Ok((s, q)) => Ok((GgufValue::String(s), q)),
            Err(e) => Err(e),
        },
        9 => {
            if !room(data, p, 4) {
                return Err(GgufError::Eof(GgufField::ArrType));
            }
            let arr_ty = le_u32(data, p);
            if !room(data, p + 4, 8) {
                return Err(GgufError::Eof(GgufField::ArrLen));
            }
            let arr_len = le_u64(data, p + 4);
            match read_items(data, p + 12, arr_ty, arr_len) {
                Ok((items, q)) => Ok((GgufValue::Array(items), q)),
                Err(e) => Err(e),
            }
        },
        10 => if room(data, p, 8) { Ok((GgufValue::U64(le_u64(data, p)), p + 8)) } else { Err(GgufError::Eof(GgufField::U64)) },
        11 => if room(data, p, 8) { Ok((GgufValue::I64(le_i64(data, p)), p + 8)) } else { Err(GgufError::Eof(GgufField::I64)) },
        12 => if room(data, p, 8) { Ok((GgufValue::F64(le_u64(data, p)), p + 8)) } else { Err(GgufError::Eof(GgufField::F64)) },
        _ => Err(GgufError::UnknownType(ty)),
    }
}

proof fn lemma_values_view_push(s: Seq<GgufValue>, x: GgufValue)
    ensures
        values_view(s.push(x)) == values_view(s).push(value_view(x)),
{
    assert(s.push(x).subrange(0, s.len() as int) =~= s);
}

fn read_items(data: &[u8], p: usize, ty: u32, n: u64) -> (r: Result<(Vec<GgufValue>, usize), GgufError>)
    requires
        p <= data@.len(),
    ensures
        match r {
            Ok((v, q)) => read_items_spec(data@, p as int, ty, n as nat) == Ok::<(Seq<GValue>, int), GgufError>((values_view(v@), q as int)),
            Err(e) => read_items_spec(data@, p as int, ty, n as nat) == Err::<(Seq<GValue>, int), GgufError>(e),
        },
    decreases data@.len() - p, n + 1,
{
    let mut items: Vec<GgufValue> = Vec::new();
    let mut q = p;
    let mut k: u64 = 0;
    assert(values_view(items@) =~= Seq::<GValue>::empty());
    while k < n
        invariant
            p <= q <= data@.len(),
            k <= n,
            read_items_spec(data@, p as int, ty, n as nat) == (match read_items_spec(data@, q as int, ty, (n - k) as nat) {
                Ok((rest, r)) => Ok((values_view(items@) + rest, r)),
                Err(e) => Err(e),
            }),
        decreases n - k,
    {
        match read_typed_value(data, q, ty) {
            Ok((v, q2)) => {
                proof {
                    lemma_read_progress(data@, q as int, ty);
                    lemma_items_split(data@, q as int, ty, (n - k) as nat, value_view(v), q2 as int);
                    lemma_values_view_push(items@, v);
                    let vv = value_view(v);
                    match read_items_spec(data@, q2 as int, ty, (n - k - 1) as nat) {
                        Ok((rest, r)) => {
                            assert(values_view(items@) + (seq![vv] + rest) =~= values_view(items@).push(vv) + rest);
                        },
                        Err(e) => {},
                    }
                }
                items.push(v);
                q = q2;
            },
            Err(e) => {
                return Err(e);
            },
        }
        k += 1;
    }
    assert(values_view(items@) + Seq::<GValue>::empty() =~= values_view(items@));
    Ok((items, q))
}

/// `n` things read one after the other by `f`, starting at `p`.
pub open spec fn read_many<T>(p: int, n: nat, f: spec_fn(int) -> Read<T>) -> Read<Seq<T>>
    decreases n,
{
    if n == 0 {
        Ok((Seq::empty(), p))
    } else {
        match f(p) {
            Ok((v, q)) => match read_many(q, (n - 1) as nat, f) {
                Ok((rest, r)) => Ok((seq![v] + rest, r)),
                Err(e) => Err(e),
            },
            Err(e) => Err(e),
        }
    }
}

/// A key (string), a type code (u32) and a value of that type.
pub open spec fn read_kv_spec(d: Seq<u8>, p: int) -> Read<KvView> {
    match read_string_spec(d, p) {
        Ok((key, q)) => if !fits(d, q, 4) {
            Err(GgufError::Eof(GgufField::Type))
        } else {
            match read_typed_spec(d, q + 4, u32_at(d, q)) {
                Ok((v, r)) => Ok(((key, v), r)),
                Err(e) => Err(e),
            }
        },
        Err(e) => Err(e),
    }
}

pub open spec fn read_dim_spec(d: Seq<u8>, p: int) -> Read<u64> {
    if fits(d, p, 8) { Ok((u64_at(d, p), p + 8)) } else { Err(GgufError::Eof(GgufField::Shape)) }
}

/// The quantization type of a GGML type code.
pub open spec fn quant_from_ggml_spec(raw: u32) -> Option<QuantType> {
    if raw == 0 { Some(QuantType::F32) }
    else if raw == 1 { Some(QuantType::F16) }
    else if raw == 2 { Some(QuantType::Q4_0) }
    else if raw == 8 { Some(QuantType::Q8_0) }
    else if raw == 14 { Some(QuantType::Q6_K) }
    else { None }
}

/// The GGML type code of a quantization type.
pub open spec fn quant_to_ggml_spec(q: QuantType) -> u32 {
    match q {
        QuantType::F32 => 0,
        QuantType::F16 => 1,
        QuantType::Q4_0 => 2,
        QuantType::Q8_0 => 8,
        QuantType::Q6_K => 14,
    }
}

/// A tensor descriptor: name, dimension count (u32), that many dimensions
/// (u64 each), GGML type code (u32) and data offset (u64).
pub open spec fn read_tensor_spec(d: Seq<u8>, p: int) -> Read<TensorView> {
    match read_string_spec(d, p) {
        Ok((name, q)) => if !fits(d, q, 4) {
            Err(GgufError::Eof(GgufField::NDims))
        } else {
            let n_dims = u32_at(d, q);
            match read_many(q + 4, n_dims as nat, |x: int| read_dim_spec(d, x)) {
                Ok((shape, r)) => if !fits(d, r, 4) {
                    Err(GgufError::Eof(GgufField::Quant))
                } else {
                    let raw = u32_at(d, r);
                    match quant_from_ggml_spec(raw) {
                        None => Err(GgufError::UnsupportedQuant(raw)),
                        Some(qt) => if !fits(d, r + 4, 8) {
                            Err(GgufError::Eof(GgufField::Offset))
                        } else {
                            Ok(((name, n_dims, shape, qt, u64_at(d, r + 4)), r + 12))
                        },
                    }
                },
                Err(e) => Err(e),
            }
        },
        Err(e) => Err(e),
    }
}

/// The counts of tensors and metadata pairs: u32 each in version 1, u64
/// each otherwise.
pub open spec fn read_counts_spec(d: Seq<u8>, version: u32) -> Read<(u64, u64)> {
    if version == 1 {
        if !fits(d, 8, 4) {
            Err(GgufError::Eof(GgufField::NTensorsV1))
        } else if !fits(d, 12, 4) {
            Err(GgufError::Eof(GgufField::NKvV1))
        } else {
            Ok(((u32_at(d, 8) as u64, u32_at(d, 12) as u64), 16))
        }
    } else {
        if !fits(d, 8, 8) {
            Err(GgufError::Eof(GgufField::NTensors))
        } else if !fits(d, 16, 8) {
            Err(GgufError::Eof(GgufField::NKv))
        } else {
            Ok(((u64_at(d, 8), u64_at(d, 16)), 24))
        }
    }
}

/// The header of a GGUF file: magic, version, counts, the metadata pairs,
/// the tensor descriptors; the data starts where the header ends.
pub open spec fn parse_header_spec(d: Seq<u8>) -> Result<HeaderView, GgufError> {
    if !fits(d, 0, 4) {
        Err(GgufError::Eof(GgufField::Magic))
    } else if u32_at(d, 0) != GGUF_MAGIC {
        Err(GgufError::BadMagic(u32_at(d, 0)))
    } else if !fits(d, 4, 4) {
        Err(GgufError::Eof(GgufField::Version))
    } else {
        let version = u32_at(d, 4);
        match read_counts_spec(d, version) {
            Err(e) => Err(e),
            Ok(((nt, nk), p)) => match read_many(p, nk as nat, |x: int| read_kv_spec(d, x)) {
                Err(e) => Err(e),
                Ok((kvs, q)) => match read_many(q, nt as nat, |x: int| read_tensor_spec(d, x)) {
                    Err(e) => Err(e),
                    Ok((ts, r)) => Ok(HeaderView {
                        version,
                        n_tensors: nt,
                        n_kv: nk,
                        kv_pairs: kvs,
                        tensor_infos: ts,
                        data_offset: r as u64,
                    }),
                },
            },
        }
    }
}

/// The quantization type of a GGML type code, if handled.
pub fn quant_type_from_ggml(raw: u32) -> (r: Option<QuantType>)
    ensures
        r == quant_from_ggml_spec(raw),
{
    match raw {
        0 => Some(QuantType::F32),
        1 => Some(QuantType::F16),
        2 => Some(QuantType::Q4_0),
        8 => Some(QuantType::Q8_0),
        14 => Some(QuantType::Q6_K),
        _ => None,
    }
}

/// The GGML type code of a quantization type.
pub fn quant_type_to_ggml(qt: QuantType) -> (r: u32)
    ensures
        r == quant_to_ggml_spec(qt),
{
    match qt {
        QuantType::F32 => 0,
        QuantType::F16 => 1,
        QuantType::Q4_0 => 2,
        QuantType::Q8_0 => 8,
        QuantType::Q6_K => 14,
    }
}

fn read_kv(data: &[u8], p: usize) -> (r: Result<(GgufKv, usize), GgufError>)
    ensures
        match r {
            Ok((kv, q)) => read_kv_spec(data@, p as int) == Ok::<(KvView, int), GgufError>((kv_view(kv), q as int)),
            Err(e) => read_kv_spec(data@, p as int) == Err::<(KvView, int), GgufError>(e),
        },
{
    let (key, q) = match read_string(data, p) {
        Ok(x) => x,
        Err(e) => return Err(e),
    };
    if !room(data, q, 4) {
        return Err(GgufError::Eof(GgufField::Type));
    }
    let ty = le_u32(data, q);
    match read_typed_value(data, q + 4, ty) {
        Ok((value, r)) => Ok((GgufKv { key, value }, r)),
        Err(e) => Err(e),
    }
}

fn read_tensor_info(data: &[u8], p: usize) -> (r: Result<(GgufTensorInfo, usize), GgufError>)
    ensures
        match r {
            Ok((t, q)) => read_tensor_spec(data@, p as int) == Ok::<(TensorView, int), GgufError>((tensor_view(t), q as int)),
            Err(e) => read_tensor_spec(data@, p as int) == Err::<(TensorView, int), GgufError>(e),
        },
{
    let ghost d = data@;
    let (name, q) = match read_string(data, p) {
        Ok(x) => x,
        Err(e) => return Err(e),
    };
    if !room(data, q, 4) {
        return Err(GgufError::Eof(GgufField::NDims));
    }
    let n_dims = le_u32(data, q);
    let ghost f = |x: int| read_dim_spec(d, x);
    let mut shape: Vec<u64> = Vec::new();
    let mut pos = q + 4;
    let mut k: u32 = 0;
    assert(shape@ + Seq::<u64>::empty() =~= shape@);
    while k < n_dims
        invariant
            d == data@,
            forall|x: int| #[trigger] f(x) == read_dim_spec(d, x),
            f == (|x: int| read_dim_spec(d, x)),
            read_string_spec(d, p as int) == Ok::<(Seq<char>, int), GgufError>((name@, q as int)),
            fits(d, q as int, 4),
            n_dims == u32_at(d, q as int),
            pos <= data@.len(),
            k <= n_dims,
            read_many(q + 4, n_dims as nat, f) == (match read_many(pos as int, (n_dims - k) as nat, f) {
                Ok((rest, r)) => Ok((shape@ + rest, r)),
                Err(e) => Err(e),
            }),
        decreases n_dims - k,
    {
        if !room(data, pos, 8) {
            assert(read_many(pos as int, (n_dims - k) as nat, f) == Err::<(Seq<u64>, int), GgufError>(GgufError::Eof(GgufField::Shape)));
            return Err(GgufError::Eof(GgufField::Shape));
        }
        let dim = le_u64(data, pos);
        proof {
            match read_many(pos + 8, (n_dims - k - 1) as nat, f) {
                Ok((rest, r)) => {
                    assert(shape@ + (seq![dim] + rest) =~= shape@.push(dim) + rest);
                },
                Err(e) => {},
            }
        }
        shape.push(dim);
        pos = pos + 8;
        k += 1;
    }
    assert(shape@ + Seq::<u64>::empty() =~= shape@);
    if !room(data, pos, 4) {
        return Err(GgufError::Eof(GgufField::Quant));
    }
    let quant_raw = le_u32(data, pos);
    let quant_type = match quant_type_from_ggml(quant_raw) {
        Some(qt) => qt,
        None => return Err(GgufError::UnsupportedQuant(quant_raw)),
    };
    if !room(data, pos + 4, 8) {
        return Err(GgufError::Eof(GgufField::Offset));
    }
    let offset = le_u64(data, pos + 4);
    Ok((GgufTensorInfo { name, n_dims, shape, quant_type, offset }, pos + 12))
}

/// Reads the header of a GGUF file.
pub fn parse_header(data: &[u8]) -> (r: Result<GgufHeader, GgufError>)
    ensures
        match r {
            Ok(h) => parse_header_spec(data@) == Ok::<HeaderView, GgufError>(header_view(h)),
            Err(e) => parse_header_spec(data@) == Err::<HeaderView, GgufError>(e),
        },
{
    let ghost d = data@;
    if !room(data, 0, 4) {
        return Err(GgufError::Eof(GgufField::Magic));
    }
    let magic = le_u32(data, 0);
    if magic != GGUF_MAGIC {
        return Err(GgufError::BadMagic(magic));
    }
    if !room(data, 4, 4) {
        return Err(GgufError::Eof(GgufField::Version));
    }
    let version = le_u32(data, 4);
    let (n_tensors, n_kv, p): (u64, u64, usize) = if version == 1 {
        if !room(data, 8, 4) {
            return Err(GgufError::Eof(GgufField::NTensorsV1));
        }
        let nt = le_u32(data, 8) as u64;
        if !room(data, 12, 4) {
            return Err(GgufError::Eof(GgufField::NKvV1));
        }
        let nk = le_u32(data, 12) as u64;
        (nt, nk, 16)
    } else {
        if !room(data, 8, 8) {
            return Err(GgufError::Eof(GgufField::NTensors));
        }
        let nt = le_u64(data, 8);
        if !room(data, 16, 8) {
            return Err(GgufError::Eof(GgufField::NKv));
        }
        let nk = le_u64(data, 16);
        (nt, nk, 24)
    };
    let ghost fk = |x: int| read_kv_spec(d, x);
    let mut kv_pairs: Vec<GgufKv> = Vec::new();
    let mut pos = p;
    let mut k: u64 = 0;
    assert(kv_pairs@.map_values(|kv: GgufKv| kv_view(kv)) + Seq::<KvView>::empty() =~= Seq::<KvView>::empty());
    while k < n_kv
        invariant
            d == data@,
            forall|x: int| #[trigger] fk(x) == read_kv_spec(d, x),
            fk == (|x: int| read_kv_spec(d, x)),
            p == 16 || p == 24,
            version == u32_at(d, 4),
            read_counts_spec(d, version) == Ok::<((u64, u64), int), GgufError>(((n_tensors, n_kv), p as int)),
            fits(d, 0, 4) && u32_at(d, 0) == GGUF_MAGIC && fits(d, 4, 4),
            pos <= data@.len(),
            k <= n_kv,
            read_many(p as int, n_kv as nat, fk) == (match read_many(pos as int, (n_kv - k) as nat, fk) {
                Ok((rest, r)) => Ok((kv_pairs@.map_values(|kv: GgufKv| kv_view(kv)) + rest, r)),
                Err(e) => Err(e),
            }),
        decreases n_kv - k,
    {
        let (kv, q) = match read_kv(data, pos) {
            Ok(x) => x,
            Err(e) => {
                assert(read_many(pos as int, (n_kv - k) as nat, fk) == Err::<(Seq<KvView>, int), GgufError>(e));
                return Err(e);
            },
        };
        proof {
            let kvv = kv_view(kv);
            let before = kv_pairs@.map_values(|kv: GgufKv| kv_view(kv));
            assert(kv_pairs@.push(kv).map_values(|kv: GgufKv| kv_view(kv)) =~= before.push(kvv));
            match read_many(q as int, (n_kv - k - 1) as nat, fk) {
                Ok((rest, r)) => {
                    assert(before + (seq![kvv] + rest) =~= before.push(kvv) + rest);
                },
                Err(e) => {},
            }
            assert(q <= data@.len()) by {
                lemma_kv_progress(d, pos as int);
            }
        }
        kv_pairs.push(kv);
        pos = q;
        k += 1;
    }
    assert(kv_pairs@.map_values(|kv: GgufKv| kv_view(kv)) + Seq::<KvView>::empty() =~= kv_pairs@.map_values(|kv: GgufKv| kv_view(kv)));
    let kv_end = pos;
    let ghost kv_pairs_v = kv_pairs@.map_values(|kv: GgufKv| kv_view(kv));
    let ghost ft = |x: int| read_tensor_spec(d, x);
    let mut tensor_infos: Vec<GgufTensorInfo> = Vec::new();
    let mut k: u64 = 0;
    assert(tensor_infos@.map_values(|t: GgufTensorInfo| tensor_view(t)) + Seq::<TensorView>::empty() =~= Seq::<TensorView>::empty());
    while k < n_tensors
        invariant
            d == data@,
            p == 16 || p == 24,
            version == u32_at(d, 4),
            read_counts_spec(d, version) == Ok::<((u64, u64), int), GgufError>(((n_tensors, n_kv), p as int)),
            fits(d, 0, 4) && u32_at(d, 0) == GGUF_MAGIC && fits(d, 4, 4),
            kv_pairs@.map_values(|kv: GgufKv| kv_view(kv)) == kv_pairs_v,
            forall|x: int| #[trigger] ft(x) == read_tensor_spec(d, x),
            ft == (|x: int| read_tensor_spec(d, x)),
            fk == (|x: int| read_kv_spec(d, x)),
            read_many(p as int, n_kv as nat, fk) == Ok::<(Seq<KvView>, int), GgufError>((kv_pairs_v, kv_end as int)),
            pos <= data@.len(),
            k <= n_tensors,
            read_many(kv_end as int, n_tensors as nat, ft) == (match read_many(pos as int, (n_tensors - k) as nat, ft) {
                Ok((rest, r)) => Ok((tensor_infos@.map_values(|t: GgufTensorInfo| tensor_view(t)) + rest, r)),
                Err(e) => Err(e),
            }),
        decreases n_tensors - k,
    {
        let (t, q) = match read_tensor_info(data, pos) {
            Ok(x) => x,
            Err(e) => {
                assert(read_many(pos as int, (n_tensors - k) as nat, ft) == Err::<(Seq<TensorView>, int), GgufError>(e));
                return Err(e);
            },
        };
        proof {
            let tv = tensor_view(t);
            let before = tensor_infos@.map_values(|t: GgufTensorInfo| tensor_view(t));
            assert(tensor_infos@.push(t).map_values(|t: GgufTensorInfo| tensor_view(t)) =~= before.push(tv));
            match read_many(q as int, (n_tensors - k - 1) as nat, ft) {
                Ok((rest, r)) => {
                    assert(before + (seq![tv] + rest) =~= before.push(tv) + rest);
                },
                Err(e) => {},
            }
            assert(q <= data@.len()) by {
                lemma_tensor_progress(d, pos as int);
            }
        }
        tensor_infos.push(t);
        pos = q;
        k += 1;
    }
    assert(tensor_infos@.map_values(|t: GgufTensorInfo| tensor_view(t)) + Seq::<TensorView>::empty() =~= tensor_infos@.map_values(|t: GgufTensorInfo| tensor_view(t)));
    let h = GgufHeader { version, n_tensors, n_kv, kv_pairs, tensor_infos, data_offset: pos as u64 };
    assert(parse_header_spec(d) == Ok::<HeaderView, GgufError>(header_view(h)));
    Ok(h)
}

proof fn lemma_kv_progress(d: Seq<u8>, p: int)
    ensures
        read_kv_spec(d, p) matches Ok((kv, q)) ==> p < q <= d.len(),
{
    if let Ok((key, q)) = read_string_spec(d, p) {
        if fits(d, q, 4) {
            lemma_read_progress(d, q + 4, u32_at(d, q));
        }
    }
}

proof fn lemma_many_progress<T>(p: int, n: nat, f: spec_fn(int) -> Read<T>, lim: int)
    requires
        p <= lim,
        forall|x: int| x <= lim ==> (#[trigger] f(x) matches Ok((v, q)) ==> x < q <= lim),
    ensures
        read_many(p, n, f) matches Ok((s, q)) ==> p <= q <= lim && s.len() == n,
    decreases n,
{
    if n > 0 {
        if let Ok((v, q)) = f(p) {
            lemma_many_progress(q, (n - 1) as nat, f, lim);
        }
    }
}

proof fn lemma_tensor_progress(d: Seq<u8>, p: int)
    ensures
        read_tensor_spec(d, p) matches Ok((t, q)) ==> p < q <= d.len(),
{
    if let Ok((name, q)) = read_string_spec(d, p) {
        if fits(d, q, 4) {
            let f = |x: int| read_dim_spec(d, x);
            lemma_many_progress(q + 4, u32_at(d, q) as nat, f, d.len() as int);
        }
    }
}

// ───────────────────────── writing ─────────────────────────

/// The bytes of `f(x)` for each `x` of `xs`, concatenated.
pub open spec fn concat_map<T>(xs: Seq<T>, f: spec_fn(T) -> Seq<u8>) -> Seq<u8>
    decreases xs.len(),
{
    if xs.len() == 0 {
        Seq::empty()
    } else {
        f(xs[0]) + concat_map(xs.subrange(1, xs.len() as int), f)
    }
}

/// A string as written: its UTF-8 byte length (u64) then its bytes.
pub open spec fn string_bytes(s: Seq<char>) -> Seq<u8> {
    spec_u64_to_le_bytes(encode_utf8(s).len() as u64) + encode_utf8(s)
}

/// The type code of a value.
pub open spec fn type_code(v: GValue) -> u32 {
    match v {
        GValue::U8(_) => 0,
        GValue::I8(_) => 1,
        GValue::U16(_) => 2,
        GValue::I16(_) => 3,
        GValue::U32(_) => 4,
        GValue::I32(_) => 5,
        GValue::F32(_) => 6,
        GValue::Bool(_) => 7,
        GValue::Str(_) => 8,
        GValue::Array(_) => 9,
        GValue::U64(_) => 10,
        GValue::I64(_) => 11,
        GValue::F64(_) => 12,
    }
}

/// A value as written: its type code, then its payload. An array's payload
/// is the type code of its first element (4 when empty), its length (u64)
/// and each element written as a value, with its own type code.
pub open spec fn value_bytes(v: GValue) -> Seq<u8>
    decreases v, 1int,
{
    spec_u32_to_le_bytes(type_code(v)) + payload_bytes(v)
}

pub open spec fn payload_bytes(v: GValue) -> Seq<u8>
    decreases v, 0int,
{
    match v {
        GValue::U8(x) => seq![x],
        GValue::I8(x) => seq![x as u8],
        GValue::U16(x) => spec_u16_to_le_bytes(x),
        GValue::I16(x) => spec_u16_to_le_bytes(x as u16),
        GValue::U32(x) => spec_u32_to_le_bytes(x),
        GValue::I32(x) => spec_u32_to_le_bytes(x as u32),
        GValue::F32(x) => spec_u32_to_le_bytes(x),
        GValue::Bool(b) => seq![if b { 1u8 } else { 0u8 }],
        GValue::Str(s) => string_bytes(s),
        GValue::Array(items) => spec_u32_to_le_bytes(if items.len() == 0 { 4u32 } else { type_code(items[0]) })
            + spec_u64_to_le_bytes(items.len() as u64) + items_bytes(items),
        GValue::U64(x) => spec_u64_to_le_bytes(x),
        GValue::I64(x) => spec_u64_to_le_bytes(x as u64),
        GValue::F64(x) => spec_u64_to_le_bytes(x),
    }
}

pub open spec fn items_bytes(s: Seq<GValue>) -> Seq<u8>
    decreases s, 2int,
{
    if s.len() == 0 {
        Seq::empty()
    } else {
        value_bytes(s[0]) + items_bytes(s.subrange(1, s.len() as int))
    }
}

pub open spec fn kv_bytes(kv: KvView) -> Seq<u8> {
    string_bytes(kv.0) + value_bytes(kv.1)
}

pub open spec fn dim_bytes(x: u64) -> Seq<u8> {
    spec_u64_to_le_bytes(x)
}

/// A tensor descriptor as written.
pub open spec fn tensor_bytes(t: TensorView) -> Seq<u8> {
    string_bytes(t.0) + spec_u32_to_le_bytes(t.1) + concat_map(t.2, |x: u64| dim_bytes(x))
        + spec_u32_to_le_bytes(quant_to_ggml_spec(t.3)) + spec_u64_to_le_bytes(t.4)
}

/// A header as written: magic, version, the two counts (u64 each), the
/// metadata pairs, then the tensor descriptors.
pub open spec fn header_bytes(version: u32, n_tensors: u64, n_kv: u64, kv: Seq<KvView>, tensors: Seq<TensorView>) -> Seq<u8> {
    spec_u32_to_le_bytes(GGUF_MAGIC) + spec_u32_to_le_bytes(version) + spec_u64_to_le_bytes(n_tensors)
        + spec_u64_to_le_bytes(n_kv) + concat_map(kv, |x: KvView| kv_bytes(x)) + concat_map(tensors, |t: TensorView| tensor_bytes(t))
}

pub(crate) proof fn lemma_concat_push<T>(xs: Seq<T>, x: T, f: spec_fn(T) -> Seq<u8>)
    ensures
        concat_map(xs.push(x), f) == concat_map(xs, f) + f(x),
    decreases xs.len(),
{
    if xs.len() == 0 {
        assert(xs.push(x).subrange(1, 1) =~= Seq::<T>::empty());
        assert(concat_map(Seq::<T>::empty(), f) == Seq::<u8>::empty());
        assert(concat_map(xs.push(x), f) == f(x) + concat_map(Seq::<T>::empty(), f));
        assert(f(x) + Seq::<u8>::empty() =~= Seq::<u8>::empty() + f(x));
    } else {
        let tail = xs.subrange(1, xs.len() as int);
        lemma_concat_push(tail, x, f);
        assert(xs.push(x).subrange(1, xs.len() as int + 1) =~= tail.push(x));
        assert(xs.push(x)[0] == xs[0]);
        assert(concat_map(xs.push(x), f) == f(xs[0]) + concat_map(tail.push(x), f));
        assert(f(xs[0]) + (concat_map(tail, f) + f(x)) =~= (f(xs[0]) + concat_map(tail, f)) + f(x));
    }
}

proof fn lemma_items_bytes_push(xs: Seq<GValue>, x: GValue)
    ensures
        items_bytes(xs.push(x)) == items_bytes(xs) + value_bytes(x),
    decreases xs.len(),
{
    if xs.len() == 0 {
        assert(xs.push(x).subrange(1, 1) =~= Seq::<GValue>::empty());
        assert(items_bytes(Seq::<GValue>::empty()) == Seq::<u8>::empty());
        assert(items_bytes(xs.push(x)) == value_bytes(x) + items_bytes(Seq::<GValue>::empty()));
        assert(value_bytes(x) + Seq::<u8>::empty() =~= Seq::<u8>::empty() + value_bytes(x));
    } else {
        let tail = xs.subrange(1, xs.len() as int);
        lemma_items_bytes_push(tail, x);
        assert(xs.push(x).subrange(1, xs.len() as int + 1) =~= tail.push(x));
        assert(xs.push(x)[0] == xs[0]);
        assert(items_bytes(xs.push(x)) == value_bytes(xs[0]) + items_bytes(tail.push(x)));
        assert(value_bytes(xs[0]) + (items_bytes(tail) + value_bytes(x)) =~= (value_bytes(xs[0]) + items_bytes(tail)) + value_bytes(x));
    }
}

/// Serializes a GGUF header and tensor data into memory.
pub struct GgufWriter {
    buf: Vec<u8>,
}

impl View for GgufWriter {
    type V = Seq<u8>;

    closed spec fn view(&self) -> Seq<u8> {
        self.buf@
    }
}

impl GgufWriter {
    pub fn new() -> (w: Self)
        ensures
            w@ == Seq::<u8>::empty(),
    {
        GgufWriter { buf: Vec::new() }
    }

    /// The bytes written so far.
    pub fn finish(self) -> (v: Vec<u8>)
        ensures
            v@ == self@,
    {
        self.buf
    }

    fn write_u8(&mut self, v: u8)
        ensures
            final(self)@ == old(self)@.push(v),
    {
        self.buf.push(v);
    }

    fn write_u16(&mut self, v: u16)
        ensures
            final(self)@ == old(self)@ + spec_u16_to_le_bytes(v),
    {
        let mut b = u16_to_le_bytes(v);
        self.buf.append(&mut b);
    }

    fn write_u32(&mut self, v: u32)
        ensures
            final(self)@ == old(self)@ + spec_u32_to_le_bytes(v),
    {
        let mut b = u32_to_le_bytes(v);
        self.buf.append(&mut b);
    }

    fn write_u64(&mut self, v: u64)
        ensures
            final(self)@ == old(self)@ + spec_u64_to_le_bytes(v),
    {
        let mut b = u64_to_le_bytes(v);
        self.buf.append(&mut b);
    }

    fn write_string(&mut self, s: &str)
        ensures
            final(self)@ == old(self)@ + string_bytes(s@),
    {
        let bytes = s.as_bytes();
        let n = bytes.len();
        self.write_u64(n as u64);
        let mut v = vstd::slice::slice_to_vec(bytes);
        self.buf.append(&mut v);
        assert(final(self)@ =~= old(self)@ + string_bytes(s@));
    }

    fn write_kv(&mut self, key: &str, value: &GgufValue)
        ensures
            final(self)@ == old(self)@ + kv_bytes((key@, value_view(*value))),
    {
        self.write_string(key);
        self.write_value(value);
        assert(final(self)@ =~= old(self)@ + kv_bytes((key@, value_view(*value))));
    }

    fn write_value(&mut self, value: &GgufValue)
        ensures
            final(self)@ == old(self)@ + value_bytes(value_view(*value)),
        decreases value,
    {
        let ghost start = self@;
        match value {
            GgufValue::U8(v) => {
                self.write_u32(0);
                self.write_u8(*v);
            },
            GgufValue::I8(v) => {
                self.write_u32(1);
                self.write_u8(*v as u8);
            },
            GgufValue::U16(v) => {
                self.write_u32(2);
                self.write_u16(*v);
            },
            GgufValue::I16(v) => {
                self.write_u32(3);
                self.write_u16(*v as u16);
            },
            GgufValue::U32(v) => {
                self.write_u32(4);
                self.write_u32(*v);
            },
            GgufValue::I32(v) => {
                self.write_u32(5);
                self.write_u32(*v as u32);
            },
            GgufValue::F32(v) => {
                self.write_u32(6);
                self.write_u32(*v);
            },
            GgufValue::Bool(v) => {
                self.write_u32(7);
                self.write_u8(if *v { 1 } else { 0 });
            },
            GgufValue::String(s) => {
                self.write_u32(8);
                self.write_string(s.as_str());
            },
            GgufValue::Array(items) => {
                self.write_u32(9);
                let elem_type: u32 = if items.len() == 0 {
                    4
                } else {
                    match &items[0] {
                        GgufValue::U8(_) => 0,
                        GgufValue::I8(_) => 1,
                        GgufValue::U16(_) => 2,
                        GgufValue::I16(_) => 3,
                        GgufValue::U32(_) => 4,
                        GgufValue::I32(_) => 5,
                        GgufValue::F32(_) => 6,
                        GgufValue::Bool(_) => 7,
                        GgufValue::String(_) => 8,
                        GgufValue::Array(_) => 9,
                        GgufValue::U64(_) => 10,
                        GgufValue::I64(_) => 11,
                        GgufValue::F64(_) => 12,
                    }
                };
                proof {
                    lemma_values_view(items@);
                }
                self.write_u32(elem_type);
                self.write_u64(items.len() as u64);
                let ghost mid = self@;
                let ghost vs = values_view(items@);
                let n = items.len();
                let mut i: usize = 0;
                assert(vs.take(0) =~= Seq::<GValue>::empty());
                while i < n
                    invariant
                        n == items@.len(),
                        vs == values_view(items@),
                        vs.len() == n,
                        forall|j: int| 0 <= j < n ==> #[trigger] vs[j] == value_view(items@[j]),
                        i <= n,
                        self@ == mid + items_bytes(vs.take(i as int)),
                        *value == GgufValue::Array(*items),
                    decreases n - i,
                {
                    proof {
                        assert(decreases_to!(items@ => items@[i as int]));
                        assert(decreases_to!(*items => items@));
                        assert(decreases_to!(*value => value->Array_0));
                        assert(vs.take(i + 1) =~= vs.take(i as int).push(vs[i as int]));
                        lemma_items_bytes_push(vs.take(i as int), vs[i as int]);
                    }
                    self.write_value(&items[i]);
                    i += 1;
                }
                assert(vs.take(n as int) =~= vs);
            },
            GgufValue::U64(v) => {
                self.write_u32(10);
                self.write_u64(*v);
            },
            GgufValue::I64(v) => {
                self.write_u32(11);
                self.write_u64(*v as u64);
            },
            GgufValue::F64(v) => {
                self.write_u32(12);
                self.write_u64(*v);
            },
        }
        assert(self@ =~= start + value_bytes(value_view(*value)));
    }

    /// Writes a header: magic, version, the given counts, the metadata pairs
    /// and the tensor descriptors.
    pub fn write_header(&mut self, version: u32, n_tensors: u64, n_kv: u64, kv: &[GgufKv], tensors: &[GgufTensorInfo])
        ensures
            final(self)@ == old(self)@ + header_bytes(
                version,
                n_tensors,
                n_kv,
                kv@.map_values(|k: GgufKv| kv_view(k)),
                tensors@.map_values(|t: GgufTensorInfo| tensor_view(t)),
            ),
    {
        let ghost start = self@;
        self.write_u32(GGUF_MAGIC);
        self.write_u32(version);
        self.write_u64(n_tensors);
        self.write_u64(n_kv);
        let ghost mid = self@;
        let ghost kvs = kv@.map_values(|k: GgufKv| kv_view(k));
        let ghost fk = |x: KvView| kv_bytes(x);
        let n = kv.len();
        let mut i: usize = 0;
        assert(kvs.take(0) =~= Seq::<KvView>::empty());
        while i < n
            invariant
                n == kv@.len(),
                kvs == kv@.map_values(|k: GgufKv| kv_view(k)),
                fk == (|x: KvView| kv_bytes(x)),
                i <= n,
                self@ == mid + concat_map(kvs.take(i as int), fk),
            decreases n - i,
        {
            proof {
                assert(kvs.take(i + 1) =~= kvs.take(i as int).push(kvs[i as int]));
                lemma_concat_push(kvs.take(i as int), kvs[i as int], fk);
            }
            self.write_kv(kv[i].key.as_str(), &kv[i].value);
            i += 1;
        }
        assert(kvs.take(n as int) =~= kvs);
        let ghost mid2 = self@;
        let ghost ts = tensors@.map_values(|t: GgufTensorInfo| tensor_view(t));
        let ghost ft = |t: TensorView| tensor_bytes(t);
        let m = tensors.len();
        let mut i: usize = 0;
        assert(ts.take(0) =~= Seq::<TensorView>::empty());
        while i < m
            invariant
                m == tensors@.len(),
                ts == tensors@.map_values(|t: GgufTensorInfo| tensor_view(t)),
                ft == (|t: TensorView| tensor_bytes(t)),
                i <= m,
                self@ == mid2 + concat_map(ts.take(i as int), ft),
            decreases m - i,
        {
            proof {
                assert(ts.take(i + 1) =~= ts.take(i as int).push(ts[i as int]));
                lemma_concat_push(ts.take(i as int), ts[i as int], ft);
            }
            let t = &tensors[i];
            let ghost before = self@;
            self.write_string(t.name.as_str());
            self.write_u32(t.n_dims);
            let ghost mid3 = self@;
            let ghost fd = |x: u64| dim_bytes(x);
            let k = t.shape.len();
            let mut j: usize = 0;
            assert(t.shape@.take(0) =~= Seq::<u64>::empty());
            while j < k
                invariant
                    k == t.shape@.len(),
                    fd == (|x: u64| dim_bytes(x)),
                    j <= k,
                    self@ == mid3 + concat_map(t.shape@.take(j as int), fd),
                decreases k - j,
            {
                proof {
                    assert(t.shape@.take(j + 1) =~= t.shape@.take(j as int).push(t.shape@[j as int]));
                    lemma_concat_push(t.shape@.take(j as int), t.shape@[j as int], fd);
                }
                self.write_u64(t.shape[j]);
                j += 1;
            }
            assert(t.shape@.take(k as int) =~= t.shape@);
            self.write_u32(quant_type_to_ggml(t.quant_type));
            self.write_u64(t.offset);
            assert(self@ =~= before + tensor_bytes(ts[i as int]));
            i += 1;
        }
        assert(ts.take(m as int) =~= ts);
        assert(self@ =~= start + header_bytes(version, n_tensors, n_kv, kvs, ts));
    }

    /// Pads with zero bytes to a multiple of 32, then appends `data`.
    pub fn write_tensor_data(&mut self, data: &[u8])
        ensures
            final(self)@ == old(self)@ + Seq::new(
                (if old(self)@.len() % 32 == 0 { 0 } else { 32 - old(self)@.len() % 32 }) as nat,
                |i: int| 0u8,
            ) + data@,
    {
        let align: usize = 32;
        let rem = self.buf.len() % align;
        let ghost start = self@;
        let pad: usize = if rem != 0 { align - rem } else { 0 };
        let mut k: usize = 0;
        while k < pad
            invariant
                k <= pad,
                self@ == start + Seq::new(k as nat, |i: int| 0u8),
            decreases pad - k,
        {
            self.buf.push(0u8);
            assert(self@ =~= start + Seq::new((k + 1) as nat, |i: int| 0u8));
            k += 1;
        }
        let mut v = vstd::slice::slice_to_vec(data);
        self.buf.append(&mut v);
    }

    /// Appends `data` as it is.
    pub fn write_raw(&mut self, data: &[u8])
        ensures
            final(self)@ == old(self)@ + data@,
    {
        let mut v = vstd::slice::slice_to_vec(data);
        self.buf.append(&mut v);
    }

    /// The number of bytes written so far.
    pub fn current_offset(&self) -> (n: u64)
        ensures
            n == self@.len(),
    {
        self.buf.len() as u64
    }
}

proof fn lemma_values_view(s: Seq<GgufValue>)
    ensures
        values_view(s).len() == s.len(),
        forall|i: int| 0 <= i < s.len() ==> #[trigger] values_view(s)[i] == value_view(s[i]),
    decreases s.len(),
{
    if s.len() > 0 {
        lemma_values_view(s.subrange(0, s.len() - 1));
    }
}

// ───────────────────────── reading back what was written ─────────────────────────

/// `d` holds `b` at position `p`.
pub open spec fn at(d: Seq<u8>, p: int, b: Seq<u8>) -> bool {
    0 <= p && p + b.len() <= d.len() && d.subrange(p, p + b.len()) == b
}

/// A value the writer writes in the form the reader reads: anything but a
/// non-empty array (the writer gives each array element its own type code,
/// which the reader does not expect).
pub open spec fn writable(v: GValue) -> bool {
    v matches GValue::Array(items) ==> items.len() == 0
}

pub(crate) proof fn lemma_at_concat(d: Seq<u8>, p: int, a: Seq<u8>, b: Seq<u8>)
    requires
        at(d, p, a + b),
    ensures
        at(d, p, a),
        at(d, p + a.len(), b),
{
    let whole = d.subrange(p, p + (a + b).len());
    assert(whole == a + b);
    assert(d.subrange(p, p + a.len()) =~= whole.subrange(0, a.len() as int));
    assert(whole.subrange(0, a.len() as int) =~= a);
    assert(d.subrange(p + a.len(), p + a.len() + b.len()) =~= whole.subrange(a.len() as int, (a.len() + b.len()) as int));
    assert(whole.subrange(a.len() as int, (a.len() + b.len()) as int) =~= b);
}

pub(crate) proof fn lemma_read_u16(d: Seq<u8>, p: int, x: u16)
    requires
        at(d, p, spec_u16_to_le_bytes(x)),
    ensures
        spec_u16_to_le_bytes(x).len() == 2,
        fits(d, p, 2),
        u16_at(d, p) == x,
{
    vstd::bytes::lemma_auto_spec_u16_to_from_le_bytes();
}

pub(crate) proof fn lemma_read_u32(d: Seq<u8>, p: int, x: u32)
    requires
        at(d, p, spec_u32_to_le_bytes(x)),
    ensures
        spec_u32_to_le_bytes(x).len() == 4,
        fits(d, p, 4),
        u32_at(d, p) == x,
{
    vstd::bytes::lemma_auto_spec_u32_to_from_le_bytes();
}

proof fn lemma_read_u64(d: Seq<u8>, p: int, x: u64)
    requires
        at(d, p, spec_u64_to_le_bytes(x)),
    ensures
        spec_u64_to_le_bytes(x).len() == 8,
        fits(d, p, 8),
        u64_at(d, p) == x,
{
    vstd::bytes::lemma_auto_spec_u64_to_from_le_bytes();
}

proof fn lemma_read_string(d: Seq<u8>, p: int, s: Seq<char>)
    requires
        at(d, p, string_bytes(s)),
        d.len() <= u64::MAX,
    ensures
        read_string_spec(d, p) == Ok::<(Seq<char>, int), GgufError>((s, p + string_bytes(s).len())),
{
    let e = encode_utf8(s);
    lemma_at_concat(d, p, spec_u64_to_le_bytes(e.len() as u64), e);
    lemma_read_u64(d, p, e.len() as u64);
    vstd::utf8::encode_utf8_valid_utf8(s);
    vstd::utf8::encode_utf8_decode_utf8(s);
    assert(d.subrange(p + 8, p + 8 + e.len()) == e);
}

proof fn lemma_read_payload(d: Seq<u8>, p: int, v: GValue)
    requires
        writable(v),
        at(d, p, payload_bytes(v)),
        d.len() <= u64::MAX,
    ensures
        read_typed_spec(d, p, type_code(v)) == Ok::<(GValue, int), GgufError>((v, p + payload_bytes(v).len())),
{
    vstd::bytes::lemma_auto_spec_u16_to_from_le_bytes();
    vstd::bytes::lemma_auto_spec_u32_to_from_le_bytes();
    vstd::bytes::lemma_auto_spec_u64_to_from_le_bytes();
    match v {
        GValue::U8(x) => {
            assert(d[p] == d.subrange(p, p + 1)[0]);
        },
        GValue::I8(x) => {
            assert(d[p] == d.subrange(p, p + 1)[0]);
            assert((x as u8) as i8 == x) by (bit_vector);
        },
        GValue::U16(x) => {
            lemma_read_u16(d, p, x);
        },
        GValue::I16(x) => {
            lemma_read_u16(d, p, x as u16);
            assert((x as u16) as i16 == x) by (bit_vector);
        },
        GValue::U32(x) => {
            lemma_read_u32(d, p, x);
        },
        GValue::I32(x) => {
            lemma_read_u32(d, p, x as u32);
            assert((x as u32) as i32 == x) by (bit_vector);
        },
        GValue::F32(x) => {
            lemma_read_u32(d, p, x);
        },
        GValue::Bool(b) => {
            assert(d[p] == d.subrange(p, p + 1)[0]);
        },
        GValue::Str(s) => {
            lemma_read_string(d, p, s);
        },
        GValue::Array(items) => {
            assert(items.len() == 0);
            let a = spec_u32_to_le_bytes(4u32);
            let b = spec_u64_to_le_bytes(0u64);
            assert(items_bytes(items) =~= Seq::<u8>::empty());
            assert(payload_bytes(v) =~= a + b);
            lemma_at_concat(d, p, a, b);
            lemma_read_u32(d, p, 4u32);
            lemma_read_u64(d, p + 4, 0u64);
            assert(items =~= Seq::<GValue>::empty());
        },
        GValue::U64(x) => {
            lemma_read_u64(d, p, x);
        },
        GValue::I64(x) => {
            lemma_read_u64(d, p, x as u64);
            assert((x as u64) as i64 == x) by (bit_vector);
        },
        GValue::F64(x) => {
            lemma_read_u64(d, p, x);
        },
    }
}

proof fn lemma_read_kv(d: Seq<u8>, p: int, kv: KvView)
    requires
        writable(kv.1),
        at(d, p, kv_bytes(kv)),
        d.len() <= u64::MAX,
    ensures
        read_kv_spec(d, p) == Ok::<(KvView, int), GgufError>((kv, p + kv_bytes(kv).len())),
{
    let sb = string_bytes(kv.0);
    let tb = spec_u32_to_le_bytes(type_code(kv.1));
    let pb = payload_bytes(kv.1);
    assert(kv_bytes(kv) =~= sb + (tb + pb));
    lemma_at_concat(d, p, sb, tb + pb);
    lemma_at_concat(d, p + sb.len(), tb, pb);
    lemma_read_string(d, p, kv.0);
    lemma_read_u32(d, p + sb.len(), type_code(kv.1));
    lemma_read_payload(d, p + sb.len() + 4, kv.1);
}

proof fn lemma_read_kvs(d: Seq<u8>, p: int, kvs: Seq<KvView>)
    requires
        forall|i: int| 0 <= i < kvs.len() ==> writable(#[trigger] kvs[i].1),
        at(d, p, concat_map(kvs, |x: KvView| kv_bytes(x))),
        d.len() <= u64::MAX,
    ensures
        read_many(p, kvs.len(), |x: int| read_kv_spec(d, x)) == Ok::<(Seq<KvView>, int), GgufError>(
            (kvs, p + concat_map(kvs, |x: KvView| kv_bytes(x)).len()),
        ),
    decreases kvs.len(),
{
    let f = |x: KvView| kv_bytes(x);
    if kvs.len() == 0 {
        assert(kvs =~= Seq::<KvView>::empty());
    } else {
        let tail = kvs.subrange(1, kvs.len() as int);
        lemma_at_concat(d, p, f(kvs[0]), concat_map(tail, f));
        lemma_read_kv(d, p, kvs[0]);
        lemma_read_kvs(d, p + kv_bytes(kvs[0]).len(), tail);
        assert(seq![kvs[0]] + tail =~= kvs);
    }
}

proof fn lemma_read_dims(d: Seq<u8>, p: int, xs: Seq<u64>)
    requires
        at(d, p, concat_map(xs, |x: u64| dim_bytes(x))),
    ensures
        read_many(p, xs.len(), |x: int| read_dim_spec(d, x)) == Ok::<(Seq<u64>, int), GgufError>(
            (xs, p + concat_map(xs, |x: u64| dim_bytes(x)).len()),
        ),
    decreases xs.len(),
{
    let f = |x: u64| dim_bytes(x);
    if xs.len() == 0 {
        assert(xs =~= Seq::<u64>::empty());
    } else {
        let tail = xs.subrange(1, xs.len() as int);
        lemma_at_concat(d, p, f(xs[0]), concat_map(tail, f));
        lemma_read_u64(d, p, xs[0]);
        lemma_read_dims(d, p + 8, tail);
        assert(seq![xs[0]] + tail =~= xs);
    }
}

proof fn lemma_read_tensor(d: Seq<u8>, p: int, t: TensorView)
    requires
        t.1 == t.2.len(),
        at(d, p, tensor_bytes(t)),
        d.len() <= u64::MAX,
    ensures
        read_tensor_spec(d, p) == Ok::<(TensorView, int), GgufError>((t, p + tensor_bytes(t).len())),
{
    let sb = string_bytes(t.0);
    let nb = spec_u32_to_le_bytes(t.1);
    let db = concat_map(t.2, |x: u64| dim_bytes(x));
    let qb = spec_u32_to_le_bytes(quant_to_ggml_spec(t.3));
    let ob = spec_u64_to_le_bytes(t.4);
    assert(tensor_bytes(t) =~= sb + (nb + (db + (qb + ob))));
    lemma_at_concat(d, p, sb, nb + (db + (qb + ob)));
    lemma_at_concat(d, p + sb.len(), nb, db + (qb + ob));
    lemma_read_u32(d, p + sb.len(), t.1);
    lemma_at_concat(d, p + sb.len() + 4, db, qb + ob);
    lemma_at_concat(d, p + sb.len() + 4 + db.len(), qb, ob);
    lemma_read_string(d, p, t.0);
    lemma_read_dims(d, p + sb.len() + 4, t.2);
    lemma_read_u32(d, p + sb.len() + 4 + db.len(), quant_to_ggml_spec(t.3));
    lemma_read_u64(d, p + sb.len() + 4 + db.len() + 4, t.4);
}

proof fn lemma_read_tensors(d: Seq<u8>, p: int, ts: Seq<TensorView>)
    requires
        forall|i: int| 0 <= i < ts.len() ==> (#[trigger] ts[i]).1 == ts[i].2.len(),
        at(d, p, concat_map(ts, |t: TensorView| tensor_bytes(t))),
        d.len() <= u64::MAX,
    ensures
        read_many(p, ts.len(), |x: int| read_tensor_spec(d, x)) == Ok::<(Seq<TensorView>, int), GgufError>(
            (ts, p + concat_map(ts, |t: TensorView| tensor_bytes(t)).len()),
        ),
    decreases ts.len(),
{
    let f = |t: TensorView| tensor_bytes(t);
    if ts.len() == 0 {
        assert(ts =~= Seq::<TensorView>::empty());
    } else {
        let tail = ts.subrange(1, ts.len() as int);
        lemma_at_concat(d, p, f(ts[0]), concat_map(tail, f));
        lemma_read_tensor(d, p, ts[0]);
        lemma_read_tensors(d, p + tensor_bytes(ts[0]).len(), tail);
        assert(seq![ts[0]] + tail =~= ts);
    }
}

/// A header written by `GgufWriter::write_header` is read back by
/// `parse_header`, whatever follows it, with the data starting right after
/// it — provided its version is not 1 (version 1 counts are read as u32),
/// its counts are the numbers of pairs and descriptors, no metadata value is
/// a non-empty array, and each descriptor's dimension count is its shape's
/// length.
#[verifier::spinoff_prover]
#[verifier::rlimit(40)]
pub proof fn lemma_header_roundtrip(version: u32, kvs: Seq<KvView>, ts: Seq<TensorView>, rest: Seq<u8>)
    requires
        version != 1,
        kvs.len() <= u64::MAX,
        ts.len() <= u64::MAX,
        forall|i: int| 0 <= i < kvs.len() ==> writable(#[trigger] kvs[i].1),
        forall|i: int| 0 <= i < ts.len() ==> (#[trigger] ts[i]).1 == ts[i].2.len(),
        header_bytes(version, ts.len() as u64, kvs.len() as u64, kvs, ts).len() + rest.len() <= u64::MAX,
    ensures
        parse_header_spec(header_bytes(version, ts.len() as u64, kvs.len() as u64, kvs, ts) + rest) == Ok::<HeaderView, GgufError>(
            HeaderView {
                version,
                n_tensors: ts.len() as u64,
                n_kv: kvs.len() as u64,
                kv_pairs: kvs,
                tensor_infos: ts,
                data_offset: header_bytes(version, ts.len() as u64, kvs.len() as u64, kvs, ts).len() as u64,
            },
        ),
{
    let h = header_bytes(version, ts.len() as u64, kvs.len() as u64, kvs, ts);
    let d = h + rest;
    let mb = spec_u32_to_le_bytes(GGUF_MAGIC);
    let vb = spec_u32_to_le_bytes(version);
    let tb = spec_u64_to_le_bytes(ts.len() as u64);
    let kb = spec_u64_to_le_bytes(kvs.len() as u64);
    let kvb = concat_map(kvs, |x: KvView| kv_bytes(x));
    let tsb = concat_map(ts, |t: TensorView| tensor_bytes(t));
    assert(d =~= mb + (vb + (tb + (kb + (kvb + (tsb + rest))))));
    assert(at(d, 0, d)) by {
        assert(d.subrange(0, d.len() as int) =~= d);
    }
    lemma_at_concat(d, 0, mb, vb + (tb + (kb + (kvb + (tsb + rest)))));
    lemma_read_u32(d, 0, GGUF_MAGIC);
    lemma_at_concat(d, 4, vb, tb + (kb + (kvb + (tsb + rest))));
    lemma_read_u32(d, 4, version);
    lemma_at_concat(d, 8, tb, kb + (kvb + (tsb + rest)));
    lemma_read_u64(d, 8, ts.len() as u64);
    lemma_at_concat(d, 16, kb, kvb + (tsb + rest));
    lemma_read_u64(d, 16, kvs.len() as u64);
    lemma_at_concat(d, 24, kvb, tsb + rest);
    lemma_at_concat(d, 24 + kvb.len() as int, tsb, rest);
    lemma_read_kvs(d, 24, kvs);
    lemma_read_tensors(d, 24 + kvb.len() as int, ts);
    assert(h.len() == 24 + kvb.len() + tsb.len());
}

} // verus!
