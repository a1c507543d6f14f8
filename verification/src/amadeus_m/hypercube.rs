//! Context packing for the seven-dimensional n-gram cube.
use vstd::prelude::*;
use crate::amadeus_m::token7::Token7;

verus! {

/// Distance bucket of a head offset: 0 for none, then 1, 2-3, 4-7 and
/// farther (positive offsets share bucket 1).
pub open spec fn syn_bin_spec(off: i16) -> u8 {
    if off == 0 { 0 }
    else if off >= -1 { 1 }
    else if off >= -3 { 2 }
    else if off >= -7 { 3 }
    else { 4 }
}

/// The 16-bit hash of a lexical root: its two halves xor-ed.
pub open spec fn lex_hash(lex: u32) -> u128 {
    ((lex ^ (lex >> 16u32)) as u128) & 0xFFFF
}

/// The packed context word of a token: lexical hash in bits 0..16,
/// morphology from bit 16, distance bucket from bit 32, function from bit 36,
/// punctuation from bit 40, style from bit 44, clause depth from bit 52 and
/// semantic signature from bit 64 (fields wider than their slot spill into
/// the next one, as the bitwise or of the shifted fields).
pub open spec fn pack8d_spec(t: Token7, clause_depth: u8) -> u128 {
    lex_hash(t.lex) | ((t.morph as u128) << 16u128) | ((syn_bin_spec(t.syn_off) as u128) << 32u128)
        | ((t.syn_func as u128) << 36u128) | ((t.punct as u128) << 40u128) | ((t.style as u128)
        << 44u128) | ((clause_depth as u128) << 52u128) | ((t.graph as u128) << 64u128)
}

pub fn syn_bin(off: i16) -> (b: u8)
    ensures
        b == syn_bin_spec(off),
        b <= 4,
{
    if off == 0 {
        0
    } else if off >= -1 {
        1
    } else if off >= -3 {
        2
    } else if off >= -7 {
        3
    } else {
        4
    }
}

pub fn pack8d(t: &Token7, clause_depth: u8) -> (p: u128)
    ensures
        p == pack8d_spec(*t, clause_depth),
{
    let lex_hash = (t.lex ^ (t.lex >> 16u32)) as u128 & 0xFFFF;
    let syn_bin = syn_bin(t.syn_off);
    lex_hash | ((t.morph as u128) << 16u128) | ((syn_bin as u128) << 32u128) | ((t.syn_func as u128)
        << 36u128) | ((t.punct as u128) << 40u128) | ((t.style as u128) << 44u128) | ((clause_depth
        as u128) << 52u128) | ((t.graph as u128) << 64u128)
}

/// When every field fits its slot, each field can be read back from the
/// packed word, so two such tokens with different fields never share a word.
pub proof fn lemma_pack8d_fields(t: Token7, clause_depth: u8)
    requires
        t.syn_func < 16,
        t.punct < 16,
        t.style < 256,
        clause_depth < 16,
    ensures
        pack8d_spec(t, clause_depth) & 0xFFFF == lex_hash(t.lex),
        (pack8d_spec(t, clause_depth) >> 16u128) & 0xFFFF == t.morph as u128,
        (pack8d_spec(t, clause_depth) >> 32u128) & 0xF == syn_bin_spec(t.syn_off) as u128,
        (pack8d_spec(t, clause_depth) >> 36u128) & 0xF == t.syn_func as u128,
        (pack8d_spec(t, clause_depth) >> 40u128) & 0xF == t.punct as u128,
        (pack8d_spec(t, clause_depth) >> 44u128) & 0xFF == t.style as u128,
        (pack8d_spec(t, clause_depth) >> 52u128) & 0xF == clause_depth as u128,
        pack8d_spec(t, clause_depth) >> 64u128 == t.graph as u128,
{
    let h = lex_hash(t.lex);
    let m = t.morph as u128;
    let b = syn_bin_spec(t.syn_off) as u128;
    let f = t.syn_func as u128;
    let p = t.punct as u128;
    let s = t.style as u128;
    let d = clause_depth as u128;
    let g = t.graph as u128;
    let l = t.lex;
    assert(h < 0x10000) by (bit_vector)
        requires
            h == ((l ^ (l >> 16u32)) as u128) & 0xFFFF,
    ;
    assert(h < 0x10000 && m < 0x10000 && b < 16 && f < 16 && p < 16 && s < 256 && d < 16 && g < 0x1_0000_0000 ==> {
        let w = h | (m << 16u128) | (b << 32u128) | (f << 36u128) | (p << 40u128) | (s << 44u128) | (d << 52u128) | (g << 64u128);
        &&& w & 0xFFFF == h
        &&& (w >> 16u128) & 0xFFFF == m
        &&& (w >> 32u128) & 0xF == b
        &&& (w >> 36u128) & 0xF == f
        &&& (w >> 40u128) & 0xF == p
        &&& (w >> 44u128) & 0xFF == s
        &&& (w >> 52u128) & 0xF == d
        &&& w >> 64u128 == g
    }) by (bit_vector);
}


// ───────────────────────── contexts ─────────────────────────

/// The clause depth recorded for position `j`, 0 where none is recorded.
pub open spec fn depth_at(depths: Seq<u8>, j: int) -> u8 {
    if 0 <= j < depths.len() {
        depths[j]
    } else {
        0
    }
}

/// The context of the `n` tokens just before position `i`: their packed
/// words, oldest first.
pub open spec fn context_key_spec(tokens: Seq<Token7>, depths: Seq<u8>, i: int, n: int) -> Seq<u128> {
    Seq::new(n as nat, |k: int| pack8d_spec(tokens[i - n + k], depth_at(depths, i - n + k)))
}

/// The context of the `n` tokens before position `i` (see
/// `context_key_spec`).
pub fn context_key(tokens: &[Token7], depths: &[u8], i: usize, n: usize) -> (r: Vec<u128>)
    requires
        n <= i <= tokens@.len(),
    ensures
        r@ == context_key_spec(tokens@, depths@, i as int, n as int),
{
    let mut r: Vec<u128> = Vec::new();
    let mut j: usize = i - n;
    while j < i
        invariant
            i - n <= j <= i,
            i <= tokens@.len(),
            r@ == context_key_spec(tokens@, depths@, j as int, (j - (i - n)) as int),
        decreases i - j,
    {
        let d: u8 = if j < depths.len() { depths[j] } else { 0 };
        r.push(pack8d(&tokens[j], d));
        j += 1;
        assert(r@ =~= context_key_spec(tokens@, depths@, j as int, (j - (i - n)) as int));
    }
    r
}

/// The contexts the cube consults at position `i`, for the lengths 1 up to
/// the cube's order (fewer near the start): entry `n` is the context of
/// length `n + 1`.
pub fn contexts_at(tokens: &[Token7], depths: &[u8], i: usize, order: usize) -> (r: Vec<Vec<u128>>)
    requires
        i <= tokens@.len(),
    ensures
        r@.len() == if order < i { order } else { i },
        forall|n: int| 0 <= n < r@.len() ==> (#[trigger] r@[n])@ == context_key_spec(tokens@, depths@, i as int, n + 1),
{
    let max_n: usize = if order < i { order } else { i };
    let mut r: Vec<Vec<u128>> = Vec::new();
    let mut n: usize = 0;
    while n < max_n
        invariant
            max_n <= i <= tokens@.len(),
            n <= max_n,
            r@.len() == n,
            forall|k: int| 0 <= k < n ==> (#[trigger] r@[k])@ == context_key_spec(tokens@, depths@, i as int, k + 1),
        decreases max_n - n,
    {
        r.push(context_key(tokens, depths, i, n + 1));
        n += 1;
    }
    r
}

// ───────────────────────── signatures ─────────────────────────

/// The number of set bits of `x`.
pub open spec fn ones(x: u32) -> nat
    decreases x,
{
    if x == 0 {
        0
    } else {
        (x % 2) as nat + ones(x / 2)
    }
}

/// The number of bits in which two 32-bit semantic signatures differ.
pub fn signature_distance(a: u32, b: u32) -> (d: u32)
    ensures
        d == ones(a ^ b),
        d <= 32,
{
    let mut x: u32 = a ^ b;
    let mut d: u32 = 0;
    let mut k: u32 = 0;
    proof {
        vstd::arithmetic::power2::lemma2_to64();
        assert(pow2_32(0) == 0x1_0000_0000);
    }
    while x != 0
        invariant
            d + ones(x) == ones(a ^ b),
            k <= 32,
            x < pow2_32(k),
            d <= k,
        decreases x,
    {
        proof {
            lemma_shift_halves(x, k);
        }
        d = d + (x % 2);
        x = x / 2;
        k = k + 1;
    }
    d
}

/// `2^(32 - k)`, the bound on the bits left after `k` halvings.
pub open spec fn pow2_32(k: u32) -> int {
    vstd::arithmetic::power2::pow2((32 - k) as nat) as int
}

proof fn lemma_shift_halves(x: u32, k: u32)
    requires
        x != 0,
        k <= 32,
        x < pow2_32(k),
    ensures
        k < 32,
        x / 2 < pow2_32((k + 1) as u32),
{
    vstd::arithmetic::power2::lemma2_to64();
    if k == 32 {
        assert(pow2_32(k) == 1);
    } else {
        vstd::arithmetic::power2::lemma_pow2_unfold((32 - k) as nat);
    }
}

/// Whether two signatures are close enough for probability mass to flow
/// between their words: they differ in fewer than 16 of their 32 bits.
pub fn signatures_similar(a: u32, b: u32) -> (r: bool)
    ensures
        r == (ones(a ^ b) < 16),
{
    signature_distance(a, b) < 16
}

} // verus!
