//! Model metadata lookups over the key/value pairs of a GGUF header.
use vstd::prelude::*;
use crate::quant::gguf::{GgufKv, GgufValue};
use crate::text::{starts_with, str_eq, str_starts_with};
use crate::unicode::{lower_case, to_lower};

verus! {

/// `std::io::Error`, carried by `LoaderError::Io`.
#[verifier::external_type_specification]
#[verifier::external_body]
pub struct ExIoError(std::io::Error);

/// Why a model could not be loaded.
#[derive(Debug)]
pub enum LoaderError {
    Io(std::io::Error),
    InvalidFormat(String),
    UnsupportedArchitecture(String),
    QuantizationNotImplemented(String),
    MissingTensor(String),
}

/// The position of the first pair with key `key`.
pub open spec fn first_key(kvs: Seq<GgufKv>, key: Seq<char>) -> Option<int>
    decreases kvs.len(),
{
    if kvs.len() == 0 {
        None
    } else if kvs[0].key@ == key {
        Some(0)
    } else {
        match first_key(kvs.drop_first(), key) {
            Some(i) => Some(i + 1),
            None => None,
        }
    }
}

/// The value of the first pair with key `key`.
pub open spec fn value_of(kvs: Seq<GgufKv>, key: Seq<char>) -> Option<GgufValue> {
    match first_key(kvs, key) {
        Some(i) => Some(kvs[i].value),
        None => None,
    }
}

/// The string value of a key, if its first pair holds a string.
pub open spec fn str_value(kvs: Seq<GgufKv>, key: Seq<char>) -> Option<Seq<char>> {
    match value_of(kvs, key) {
        Some(GgufValue::String(s)) => Some(s@),
        _ => None,
    }
}

/// The value of a key as `u32`: a `u32`, or an `i32` or `u64` taken modulo
/// 2^32.
pub open spec fn u32_value(kvs: Seq<GgufKv>, key: Seq<char>) -> Option<u32> {
    match value_of(kvs, key) {
        Some(GgufValue::U32(v)) => Some(v),
        Some(GgufValue::I32(v)) => Some(v as u32),
        Some(GgufValue::U64(v)) => Some(v as u32),
        _ => None,
    }
}

/// The value of a key as `u64`: a `u64`, an `i64` taken modulo 2^64, or a
/// `u32`.
pub open spec fn u64_value(kvs: Seq<GgufKv>, key: Seq<char>) -> Option<u64> {
    match value_of(kvs, key) {
        Some(GgufValue::U64(v)) => Some(v),
        Some(GgufValue::I64(v)) => Some(v as u64),
        Some(GgufValue::U32(v)) => Some(v as u64),
        _ => None,
    }
}

/// The architecture a header names: `general.architecture` in lower case,
/// else `llama` when some key starts with `llama.`.
pub open spec fn arch_spec(kvs: Seq<GgufKv>) -> Option<Seq<char>> {
    match str_value(kvs, "general.architecture"@) {
        Some(a) => Some(lower_case(a)),
        None => if exists|i: int| 0 <= i < kvs.len() && starts_with(#[trigger] kvs[i].key@, "llama."@) {
            Some("llama"@)
        } else {
            None
        },
    }
}

pub(crate) fn find_key(pairs: &[GgufKv], key: &str) -> (r: Option<usize>)
    ensures
        match first_key(pairs@, key@) {
            Some(i) => r == Some(i as usize) && 0 <= i < pairs@.len(),
            None => r is None,
        },
{
    let n = pairs.len();
    let mut i: usize = 0;
    assert(pairs@.skip(0) =~= pairs@);
    while i < n
        invariant
            n == pairs@.len(),
            i <= n,
            first_key(pairs@, key@) == match first_key(pairs@.skip(i as int), key@) {
                Some(k) => Some(k + i),
                None => None,
            },
        decreases n - i,
    {
        assert(pairs@.skip(i as int).drop_first() =~= pairs@.skip(i + 1));
        if str_eq(pairs[i].key.as_str(), key) {
            return Some(i);
        }
        i += 1;
    }
    None
}

/// The string value of `key` (see `str_value`).
pub fn get_str<'a>(pairs: &'a [GgufKv], key: &str) -> (r: Option<&'a str>)
    ensures
        match str_value(pairs@, key@) {
            Some(s) => r matches Some(t) && t@ == s,
            None => r is None,
        },
{
    match find_key(pairs, key) {
        Some(i) => match &pairs[i].value {
            GgufValue::String(s) => Some(s.as_str()),
            _ => None,
        },
        None => None,
    }
}

/// The value of `key` as `u32` (see `u32_value`).
pub fn get_u32(pairs: &[GgufKv], key: &str) -> (r: Option<u32>)
    ensures
        r == u32_value(pairs@, key@),
{
    match find_key(pairs, key) {
        Some(i) => match &pairs[i].value {
            GgufValue::U32(v) => Some(*v),
            GgufValue::I32(v) => Some(*v as u32),
            GgufValue::U64(v) => Some(*v as u32),
            _ => None,
        },
        None => None,
    }
}

/// The value of `key` as `u64` (see `u64_value`).
pub fn get_u64(pairs: &[GgufKv], key: &str) -> (r: Option<u64>)
    ensures
        r == u64_value(pairs@, key@),
{
    match find_key(pairs, key) {
        Some(i) => match &pairs[i].value {
            GgufValue::U64(v) => Some(*v),
            GgufValue::I64(v) => Some(*v as u64),
            GgufValue::U32(v) => Some(*v as u64),
            _ => None,
        },
        None => None,
    }
}

/// The architecture of a model (see `arch_spec`); `InvalidFormat("unknown
/// architecture")` when the header names none.
pub fn detect_arch(pairs: &[GgufKv]) -> (r: Result<String, LoaderError>)
    ensures
        match arch_spec(pairs@) {
            Some(a) => r matches Ok(s) && s@ == a,
            None => r matches Err(LoaderError::InvalidFormat(m)) && m@ == "unknown architecture"@,
        },
{
    if let Some(arch) = get_str(pairs, "general.architecture") {
        return Ok(to_lower(arch));
    }
    let n = pairs.len();
    let mut i: usize = 0;
    while i < n
        invariant
            n == pairs@.len(),
            i <= n,
            str_value(pairs@, "general.architecture"@) is None,
            forall|k: int| 0 <= k < i ==> !starts_with(#[trigger] pairs@[k].key@, "llama."@),
        decreases n - i,
    {
        if str_starts_with(pairs[i].key.as_str(), "llama.") {
            assert(starts_with(pairs@[i as int].key@, "llama."@));
            return Ok(String::from_str("llama"));
        }
        i += 1;
    }
    Err(LoaderError::InvalidFormat(String::from_str("unknown architecture")))
}

} // verus!
