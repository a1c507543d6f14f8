//! Small text-building helpers shared by the formatting functions.
use vstd::prelude::*;
use vstd::string::*;
use vstd::utf8::*;

verus! {

/// The character of a decimal digit.
pub open spec fn digit_char(d: nat) -> char {
    if d == 0 { '0' }
    else if d == 1 { '1' }
    else if d == 2 { '2' }
    else if d == 3 { '3' }
    else if d == 4 { '4' }
    else if d == 5 { '5' }
    else if d == 6 { '6' }
    else if d == 7 { '7' }
    else if d == 8 { '8' }
    else if d == 9 { '9' }
    else if d == 10 { 'A' }
    else if d == 11 { 'B' }
    else if d == 12 { 'C' }
    else if d == 13 { 'D' }
    else if d == 14 { 'E' }
    else { 'F' }
}

/// The decimal representation of `n`, without sign or leading zeros.
pub open spec fn decimal(n: nat) -> Seq<char>
    decreases n,
{
    if n < 10 {
        seq![digit_char(n)]
    } else {
        decimal(n / 10).push(digit_char(n % 10))
    }
}

/// The upper-case hexadecimal representation of `n`, zero-padded on the left
/// to at least `width` digits.
pub open spec fn hex_padded(n: nat, width: nat) -> Seq<char>
    decreases n, width,
{
    if n < 16 && width <= 1 {
        seq![digit_char(n)]
    } else {
        hex_padded(n / 16, if width == 0 { 0 } else { (width - 1) as nat }).push(digit_char(n % 16))
    }
}

/// Appends one character to a string.
#[verifier::external_body]
pub(crate) fn push_char(s: &mut String, c: char)
    ensures
        final(s)@ == old(s)@.push(c),
{
    s.push(c);
}

/// Appends a string slice to a string.
pub(crate) fn push_str(s: &mut String, t: &str)
    ensures
        final(s)@ == old(s)@ + t@,
{
    s.append(t);
}

pub(crate) fn digit(d: u32) -> (c: char)
    requires
        d < 16,
    ensures
        c == digit_char(d as nat),
{
    match d {
        0 => '0',
        1 => '1',
        2 => '2',
        3 => '3',
        4 => '4',
        5 => '5',
        6 => '6',
        7 => '7',
        8 => '8',
        9 => '9',
        10 => 'A',
        11 => 'B',
        12 => 'C',
        13 => 'D',
        14 => 'E',
        _ => 'F',
    }
}

/// Appends the decimal representation of `n`.
pub(crate) fn push_decimal(s: &mut String, n: u64)
    ensures
        final(s)@ == old(s)@ + decimal(n as nat),
    decreases n,
{
    if n >= 10 {
        push_decimal(s, n / 10);
    }
    push_char(s, digit((n % 10) as u32));
}

/// Appends the upper-case hexadecimal representation of `n`, zero-padded to
/// at least `width` digits.
pub(crate) fn push_hex_padded(s: &mut String, n: u64, width: u32)
    ensures
        final(s)@ == old(s)@ + hex_padded(n as nat, width as nat),
    decreases n, width,
{
    if n < 16 && width <= 1 {
        push_char(s, digit(n as u32));
    } else {
        let w = if width == 0 { 0 } else { width - 1 };
        push_hex_padded(s, n / 16, w);
        push_char(s, digit((n % 16) as u32));
    }
}

/// Whether two byte slices are equal.
pub(crate) fn bytes_eq(x: &[u8], y: &[u8]) -> (r: bool)
    ensures
        r == (x@ == y@),
{
    if x.len() != y.len() {
        return false;
    }
    let n = x.len();
    let mut i: usize = 0;
    while i < n
        invariant
            n == x@.len(),
            n == y@.len(),
            i <= n,
            forall|k: int| 0 <= k < i ==> x@[k] == y@[k],
        decreases n - i,
    {
        if x[i] != y[i] {
            return false;
        }
        i += 1;
    }
    assert(x@ =~= y@);
    true
}

/// Whether two string slices hold the same characters.
pub fn str_eq(a: &str, b: &str) -> (r: bool)
    ensures
        r == (a@ == b@),
{
    proof {
        vstd::utf8::encode_utf8_decode_utf8(a@);
        vstd::utf8::encode_utf8_decode_utf8(b@);
    }
    bytes_eq(a.as_bytes(), b.as_bytes())
}

/// A string holding the given characters.
pub fn string_of(v: &[char]) -> (s: String)
    ensures
        s@ == v@,
{
    let mut s = String::new();
    let mut i: usize = 0;
    while i < v.len()
        invariant
            i <= v@.len(),
            s@ == v@.take(i as int),
        decreases v.len() - i,
    {
        push_char(&mut s, v[i]);
        i += 1;
        assert(s@ =~= v@.take(i as int));
    }
    assert(v@.take(v@.len() as int) =~= v@);
    s
}

/// Whether `s` ends with `t`.
pub open spec fn ends_with(s: Seq<char>, t: Seq<char>) -> bool {
    t.len() <= s.len() && s.skip(s.len() - t.len()) == t
}

/// Whether the characters `s` end with the text `t`.
pub fn chars_end_with(s: &[char], t: &str) -> (b: bool)
    ensures
        b == ends_with(s@, t@),
{
    let tv = chars_of(t);
    let n = s.len();
    let m = tv.len();
    if m > n {
        return false;
    }
    let mut k: usize = 0;
    while k < m
        invariant
            m == tv@.len(),
            n == s@.len(),
            m <= n,
            tv@ == t@,
            k <= m,
            forall|j: int| 0 <= j < k ==> s@[n - m + j] == tv@[j],
        decreases m - k,
    {
        if s[n - m + k] != tv[k] {
            assert(s@.skip(n - m)[k as int] != t@[k as int]);
            return false;
        }
        k += 1;
    }
    assert(s@.skip(n - m) =~= t@);
    true
}

/// Whether `s` starts with `t`.
pub open spec fn starts_with(s: Seq<char>, t: Seq<char>) -> bool {
    t.len() <= s.len() && s.take(t.len() as int) == t
}

/// Whether the text `s` starts with the text `t`.
pub fn str_starts_with(s: &str, t: &str) -> (b: bool)
    ensures
        b == starts_with(s@, t@),
{
    let sv = chars_of(s);
    let tv = chars_of(t);
    let m = tv.len();
    if m > sv.len() {
        return false;
    }
    let mut k: usize = 0;
    while k < m
        invariant
            m == tv@.len(),
            m <= sv@.len(),
            sv@ == s@,
            tv@ == t@,
            k <= m,
            forall|j: int| 0 <= j < k ==> sv@[j] == tv@[j],
        decreases m - k,
    {
        if sv[k] != tv[k] {
            assert(s@.take(m as int)[k as int] != t@[k as int]);
            return false;
        }
        k += 1;
    }
    assert(s@.take(m as int) =~= t@);
    true
}

/// The characters of a string slice.
pub fn chars_of(s: &str) -> (v: Vec<char>)
    ensures
        v@ == s@,
{
    let mut v: Vec<char> = Vec::new();
    for c in it: s.chars()
        invariant
            it.seq() == s@,
            v@ == s@.take(it.index() as int),
    {
        assert(s@.take(it.index() + 1) =~= s@.take(it.index() as int).push(c));
        v.push(c);
    }
    assert(s@.take(s@.len() as int) =~= s@);
    v
}

} // verus!
