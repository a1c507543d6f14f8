//! Quantization formats and the integer layout of their blocks.
pub mod gguf;

use vstd::prelude::*;
use crate::text::str_eq;
use crate::unicode::{to_upper, upper_case};

verus! {

/// Supported quantization types.
#[derive(Debug, Clone, Copy, PartialEq, Eq, Structural)]
pub enum QuantType {
    F32,
    F16,
    Q4_0,
    Q8_0,
    Q6_K,
}

/// Weights per Q6_K super-block.
pub const QK_K: usize = 256;

pub open spec fn block_size_spec(q: QuantType) -> usize {
    match q {
        QuantType::F32 => 1,
        QuantType::F16 => 1,
        QuantType::Q4_0 => 32,
        QuantType::Q8_0 => 32,
        QuantType::Q6_K => 256,
    }
}

pub open spec fn bytes_per_block_spec(q: QuantType) -> usize {
    match q {
        QuantType::F32 => 4,
        QuantType::F16 => 2,
        QuantType::Q4_0 => 18,
        QuantType::Q8_0 => 34,
        QuantType::Q6_K => 210,
    }
}

/// The type named by an upper-case name.
pub open spec fn quant_from_name(u: Seq<char>) -> Option<QuantType> {
    if u == "F32"@ { Some(QuantType::F32) }
    else if u == "F16"@ { Some(QuantType::F16) }
    else if u == "Q4_0"@ { Some(QuantType::Q4_0) }
    else if u == "Q8_0"@ { Some(QuantType::Q8_0) }
    else if u == "Q6_K"@ { Some(QuantType::Q6_K) }
    else { None }
}

impl QuantType {
    /// Weights per block.
    pub fn block_size(&self) -> (n: usize)
        ensures
            n == block_size_spec(*self),
    {
        match self {
            QuantType::F32 => 1,
            QuantType::F16 => 1,
            QuantType::Q4_0 => 32,
            QuantType::Q8_0 => 32,
            QuantType::Q6_K => QK_K,
        }
    }

    /// Bytes per block.
    pub fn bytes_per_block(&self) -> (n: usize)
        ensures
            n == bytes_per_block_spec(*self),
    {
        match self {
            QuantType::F32 => 4,
            QuantType::F16 => 2,
            QuantType::Q4_0 => 18,
            QuantType::Q8_0 => 34,
            QuantType::Q6_K => QK_K / 2 + QK_K / 4 + QK_K / 16 + 2,
        }
    }

    /// The type whose name, upper-cased, is `upper`.
    pub fn from_upper_name(upper: &str) -> (r: Option<Self>)
        ensures
            r == quant_from_name(upper@),
    {
        if str_eq(upper, "F32") {
            Some(QuantType::F32)
        } else if str_eq(upper, "F16") {
            Some(QuantType::F16)
        } else if str_eq(upper, "Q4_0") {
            Some(QuantType::Q4_0)
        } else if str_eq(upper, "Q8_0") {
            Some(QuantType::Q8_0)
        } else if str_eq(upper, "Q6_K") {
            Some(QuantType::Q6_K)
        } else {
            None
        }
    }

    /// The type with the given name, in any letter case.
    pub fn from_str(s: &str) -> (r: Option<Self>)
        ensures
            r == quant_from_name(upper_case(s@)),
    {
        let u = to_upper(s);
        Self::from_upper_name(u.as_str())
    }
}

/// Q4_0 block: a 16-bit scale (half-float bits) and 16 bytes of packed
/// 4-bit values, for 32 weights.
#[derive(Clone, Copy)]
pub struct BlockQ4_0 {
    pub scale: u16,
    pub nibbles: [u8; 16],
}

/// Q8_0 block: a 16-bit scale (half-float bits) and 32 signed bytes.
#[derive(Clone, Copy)]
pub struct BlockQ8_0 {
    pub scale: u16,
    pub values: [i8; 32],
}

/// Q6_K block: 256 weights in 210 bytes: low 4 bits, high 2 bits, 16 signed
/// sub-block scales and a 16-bit super-scale (half-float bits).
#[derive(Clone, Copy)]
pub struct BlockQ6_K {
    pub ql: [u8; 128],
    pub qh: [u8; 64],
    pub scales: [i8; 16],
    pub d: u16,
}

/// Little-endian 16-bit value of two bytes.
pub open spec fn le16(lo: u8, hi: u8) -> u16 {
    (lo as u16) | ((hi as u16) << 8u16)
}

/// The 32 quantized values of a Q4_0 block, in the GGML layout: values 0..16
/// are the low nibbles of bytes 0..16 and values 16..32 their high nibbles,
/// each minus 8.
pub open spec fn q4_0_values(nibbles: Seq<u8>) -> Seq<i8> {
    Seq::new(32, |i: int| if i < 16 { ((nibbles[i] % 16) - 8) as i8 } else { ((nibbles[i - 16] / 16) - 8) as i8 })
}

impl BlockQ4_0 {
    /// Reads a block from its 18-byte little-endian layout.
    pub fn from_bytes(b: &[u8]) -> (blk: Self)
        requires
            b@.len() >= 18,
        ensures
            blk.scale == le16(b@[0], b@[1]),
            forall|i: int| 0 <= i < 16 ==> blk.nibbles@[i] == b@[2 + i],
    {
        let mut nibbles = [0u8; 16];
        let mut i: usize = 0;
        while i < 16
            invariant
                b@.len() >= 18,
                i <= 16,
                nibbles@.len() == 16,
                forall|k: int| 0 <= k < i ==> nibbles@[k] == b@[2 + k],
            decreases 16 - i,
        {
            nibbles[i] = b[2 + i];
            i += 1;
        }
        BlockQ4_0 { scale: (b[0] as u16) | ((b[1] as u16) << 8u16), nibbles }
    }

    /// The block's 32 quantized values (each to be multiplied by the scale).
    pub fn quants(&self) -> (v: Vec<i8>)
        ensures
            v@ == q4_0_values(self.nibbles@),
    {
        let mut v: Vec<i8> = Vec::new();
        let mut i: usize = 0;
        while i < 32
            invariant
                i <= 32,
                self.nibbles@.len() == 16,
                v@.len() == i,
                forall|k: int| 0 <= k < i ==> v@[k] == q4_0_values(self.nibbles@)[k],
            decreases 32 - i,
        {
            if i < 16 {
                let nibble = self.nibbles[i];
                assert((nibble & 0x0F) == nibble % 16) by (bit_vector);
                v.push((nibble & 0x0F) as i8 - 8);
            } else {
                let nibble = self.nibbles[i - 16];
                assert((nibble >> 4u8) == nibble / 16) by (bit_vector);
                v.push((nibble >> 4u8) as i8 - 8);
            }
            i += 1;
        }
        assert(v@ =~= q4_0_values(self.nibbles@));
        v
    }
}

impl BlockQ8_0 {
    /// Reads a block from its 34-byte little-endian layout.
    pub fn from_bytes(b: &[u8]) -> (blk: Self)
        requires
            b@.len() >= 34,
        ensures
            blk.scale == le16(b@[0], b@[1]),
            forall|i: int| 0 <= i < 32 ==> blk.values@[i] == b@[2 + i] as i8,
    {
        let mut values = [0i8; 32];
        let mut i: usize = 0;
        while i < 32
            invariant
                b@.len() >= 34,
                i <= 32,
                values@.len() == 32,
                forall|k: int| 0 <= k < i ==> values@[k] == b@[2 + k] as i8,
            decreases 32 - i,
        {
            values[i] = b[2 + i] as i8;
            i += 1;
        }
        BlockQ8_0 { scale: (b[0] as u16) | ((b[1] as u16) << 8u16), values }
    }
}

/// The 6-bit value of weight `l` (0..32) of quarter `q` (0..4) of half `h`
/// of a Q6_K block, minus 32.
pub open spec fn q6_value(ql: Seq<u8>, qh: Seq<u8>, h: int, q: int, l: int) -> int {
    let low = ql[h * 64 + l + (if q % 2 == 1 { 32int } else { 0 })];
    let nib = if q < 2 { (low as int) % 16 } else { (low as int) / 16 };
    let high = ((qh[h * 32 + l] as int) / (if q == 0 { 1int } else if q == 1 { 4int } else if q == 2 { 16int } else { 64int })) % 4;
    nib + 16 * high - 32
}

/// The (sub-block scale, quantized value) pair of each of the 256 weights of
/// a Q6_K block, in output order.
pub open spec fn q6_k_pairs(ql: Seq<u8>, qh: Seq<u8>, scales: Seq<i8>) -> Seq<(i8, i8)> {
    Seq::new(256, |i: int| {
        let h = i / 128;
        let q = (i % 128) / 32;
        let l = i % 32;
        (scales[h * 8 + l / 16 + 2 * q], q6_value(ql, qh, h, q, l) as i8)
    })
}

/// Each run of 16 consecutive weights of a Q6_K block has a scale of its
/// own, stored in order: weight `i` is scaled by `scales[i / 16]`.
pub proof fn lemma_q6_k_scale_of_weight(ql: Seq<u8>, qh: Seq<u8>, scales: Seq<i8>, i: int)
    requires
        0 <= i < 256,
    ensures
        q6_k_pairs(ql, qh, scales)[i].0 == scales[i / 16],
{
    let h = i / 128;
    let q = (i % 128) / 32;
    let l = i % 32;
    assert(h * 8 + l / 16 + 2 * q == i / 16) by (nonlinear_arith)
        requires
            0 <= i < 256,
            h == i / 128,
            q == (i % 128) / 32,
            l == i % 32,
    ;
}

/// The 6-bit code of weight `i` of a Q6_K block (its value plus 32): the low
/// four bits are a nibble of `ql` byte `64 * (i / 128) + i % 64` (the low
/// nibble for the first 64 weights of each half, the high one for the next
/// 64), the high two bits are the bit pair of `qh` byte
/// `32 * (i / 128) + i % 32` selected by which 32-weight quarter of the half
/// the weight is in.
pub proof fn lemma_q6_k_code_of_weight(ql: Seq<u8>, qh: Seq<u8>, scales: Seq<i8>, i: int)
    requires
        0 <= i < 256,
    ensures
        ({
            let r = i % 128;
            let lo = ql[64 * (i / 128) + i % 64] as int;
            let hi = qh[32 * (i / 128) + i % 32] as int;
            let nib = if r < 64 { lo % 16 } else { lo / 16 };
            let pair = (hi / (if r < 32 { 1int } else if r < 64 { 4int } else if r < 96 { 16int } else { 64int })) % 4;
            q6_k_pairs(ql, qh, scales)[i].1 as int == nib + 16 * pair - 32
        }),
{
    let h = i / 128;
    let q = (i % 128) / 32;
    let l = i % 32;
    assert(h * 64 + l + (if q % 2 == 1 { 32int } else { 0 }) == 64 * (i / 128) + i % 64) by (nonlinear_arith)
        requires
            0 <= i < 256,
            h == i / 128,
            q == (i % 128) / 32,
            l == i % 32,
    ;
    assert(h * 32 + l == 32 * (i / 128) + i % 32);
    let v = q6_value(ql, qh, h, q, l);
    let low = ql[h * 64 + l + (if q % 2 == 1 { 32int } else { 0 })] as int;
    let high = ((qh[h * 32 + l] as int) / (if q == 0 { 1int } else if q == 1 { 4int } else if q == 2 { 16int } else { 64int })) % 4;
    assert(0 <= low < 256);
    assert(0 <= (if q < 2 { low % 16 } else { low / 16 }) < 16);
    assert(0 <= high < 4);
    assert(-32 <= v < 32);
}

impl BlockQ6_K {
    /// Reads a block from its 210-byte little-endian layout.
    pub fn from_bytes(b: &[u8]) -> (blk: Self)
        requires
            b@.len() >= 210,
        ensures
            forall|i: int| 0 <= i < 128 ==> blk.ql@[i] == b@[i],
            forall|i: int| 0 <= i < 64 ==> blk.qh@[i] == b@[128 + i],
            forall|i: int| 0 <= i < 16 ==> blk.scales@[i] == b@[192 + i] as i8,
            blk.d == le16(b@[208], b@[209]),
    {
        let mut ql = [0u8; 128];
        let mut qh = [0u8; 64];
        let mut scales = [0i8; 16];
        let mut i: usize = 0;
        while i < 128
            invariant
                b@.len() >= 210,
                i <= 128,
                ql@.len() == 128,
                forall|k: int| 0 <= k < i ==> ql@[k] == b@[k],
            decreases 128 - i,
        {
            ql[i] = b[i];
            i += 1;
        }
        let mut i: usize = 0;
        while i < 64
            invariant
                b@.len() >= 210,
                i <= 64,
                qh@.len() == 64,
                forall|k: int| 0 <= k < i ==> qh@[k] == b@[128 + k],
            decreases 64 - i,
        {
            qh[i] = b[128 + i];
            i += 1;
        }
        let mut i: usize = 0;
        while i < 16
            invariant
                b@.len() >= 210,
                i <= 16,
                scales@.len() == 16,
                forall|k: int| 0 <= k < i ==> scales@[k] == b@[192 + k] as i8,
            decreases 16 - i,
        {
            scales[i] = b[192 + i] as i8;
            i += 1;
        }
        BlockQ6_K { ql, qh, scales, d: (b[208] as u16) | ((b[209] as u16) << 8u16) }
    }

    /// The (sub-block scale, quantized value) pair of each weight; the weight
    /// is the super-scale times the scale times the value.
    pub fn scaled_quants(&self) -> (v: Vec<(i8, i8)>)
        ensures
            v@ == q6_k_pairs(self.ql@, self.qh@, self.scales@),
    {
        let mut v: Vec<(i8, i8)> = Vec::new();
        let mut i: usize = 0;
        while i < 256
            invariant
                i <= 256,
                self.ql@.len() == 128,
                self.qh@.len() == 64,
                self.scales@.len() == 16,
                v@.len() == i,
                forall|k: int| 0 <= k < i ==> v@[k] == q6_k_pairs(self.ql@, self.qh@, self.scales@)[k],
            decreases 256 - i,
        {
            let h = i / 128;
            let q = (i % 128) / 32;
            let l = i % 32;
            let low_idx = h * 64 + l + if q % 2 == 1 { 32 } else { 0 };
            let low = self.ql[low_idx] as u16;
            let nib: u16 = if q < 2 { low & 0xF } else { low >> 4u16 };
            let qh_b = self.qh[h * 32 + l] as u16;
            let shift: u16 = (2 * q) as u16;
            let high: u16 = (qh_b >> shift) & 3;
            proof {
                assert(low < 256 ==> (low & 0xF) < 16 && (low >> 4u16) < 16) by (bit_vector);
                assert(high == (qh_b >> shift) & 3 ==> high < 4) by (bit_vector);
                assert(nib < 16 && high < 4 ==> (nib | (high << 4u16)) < 64) by (bit_vector);
            }
            let value = ((nib | (high << 4u16)) as i8) - 32;
            proof {
                assert(low < 256 ==> (low & 0xF) == low % 16 && (low >> 4u16) == low / 16) by (bit_vector);
                assert(qh_b < 256 ==> (qh_b >> 0u16) & 3 == (qh_b / 1) % 4 && (qh_b >> 2u16) & 3 == (qh_b / 4) % 4
                    && (qh_b >> 4u16) & 3 == (qh_b / 16) % 4 && (qh_b >> 6u16) & 3 == (qh_b / 64) % 4) by (bit_vector);
                assert(nib < 16 && high < 4 ==> (nib | (high << 4u16)) == nib + 16 * high) by (bit_vector);
            }
            let s = self.scales[h * 8 + l / 16 + 2 * q];
            v.push((s, value));
            i += 1;
        }
        assert(v@ =~= q6_k_pairs(self.ql@, self.qh@, self.scales@));
        v
    }
}

} // verus!
