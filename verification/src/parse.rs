//! Line-oriented text parsing: lines, trimming, comma fields and unsigned
//! numbers, with the meaning the standard library gives them.
use vstd::prelude::*;
use crate::unicode::{is_whitespace, white_space};

verus! {

/// The lines of a text as `str::lines` gives them: split after each `'\n'`,
/// the `'\n'` and a `'\r'` just before it removed, and no empty line after a
/// final `'\n'`.
pub open spec fn lines_spec(s: Seq<char>) -> Seq<Seq<char>> {
    let (done, cur) = lines_state(s);
    if cur.len() > 0 {
        done.push(cur)
    } else {
        done
    }
}

/// The finished lines and the line in progress after reading `s`.
pub open spec fn lines_state(s: Seq<char>) -> (Seq<Seq<char>>, Seq<char>)
    decreases s.len(),
{
    if s.len() == 0 {
        (Seq::empty(), Seq::empty())
    } else {
        let (done, cur) = lines_state(s.drop_last());
        if s.last() == '\n' {
            (done.push(strip_cr(cur)), Seq::empty())
        } else {
            (done, cur.push(s.last()))
        }
    }
}

pub open spec fn strip_cr(s: Seq<char>) -> Seq<char> {
    if s.len() > 0 && s.last() == '\r' {
        s.drop_last()
    } else {
        s
    }
}

/// `str::trim`: the text without leading and trailing white space.
pub open spec fn trim_spec(s: Seq<char>) -> Seq<char>
    decreases s.len(),
{
    if s.len() > 0 && white_space(s[0]) {
        trim_spec(s.drop_first())
    } else if s.len() > 0 && white_space(s.last()) {
        trim_spec(s.drop_last())
    } else {
        s
    }
}

/// The position of the first `c` in `s`.
pub open spec fn first_index(s: Seq<char>, c: char) -> Option<int>
    decreases s.len(),
{
    if s.len() == 0 {
        None
    } else if s[0] == c {
        Some(0)
    } else {
        match first_index(s.drop_first(), c) {
            Some(k) => Some(k + 1),
            None => None,
        }
    }
}

/// The text before the first `c` and the text after it.
pub open spec fn split_first(s: Seq<char>, c: char) -> Option<(Seq<char>, Seq<char>)> {
    match first_index(s, c) {
        Some(k) => Some((s.take(k), s.skip(k + 1))),
        None => None,
    }
}

/// The four parts of `str::splitn(4, ',')` when there are four: the text
/// before each of the first three commas, and the rest.
pub open spec fn fields4(s: Seq<char>) -> Option<(Seq<char>, Seq<char>, Seq<char>, Seq<char>)> {
    match split_first(s, ',') {
        Some((a, r1)) => match split_first(r1, ',') {
            Some((b, r2)) => match split_first(r2, ',') {
                Some((c, d)) => Some((a, b, c, d)),
                None => None,
            },
            None => None,
        },
        None => None,
    }
}

/// The value of a digit in base 10 or 16 (either case), if it is one.
pub open spec fn digit_value(c: char, radix: nat) -> Option<nat> {
    if '0' <= c && c <= '9' && (c as nat) - ('0' as nat) < radix {
        Some(((c as nat) - ('0' as nat)) as nat)
    } else if radix == 16 && 'a' <= c && c <= 'f' {
        Some(((c as nat) - ('a' as nat) + 10) as nat)
    } else if radix == 16 && 'A' <= c && c <= 'F' {
        Some(((c as nat) - ('A' as nat) + 10) as nat)
    } else {
        None
    }
}

/// The value of a string of digits, if every character is a digit.
pub open spec fn digits_value(s: Seq<char>, radix: nat) -> Option<nat>
    decreases s.len(),
{
    if s.len() == 0 {
        Some(0)
    } else {
        match (digits_value(s.drop_last(), radix), digit_value(s.last(), radix)) {
            (Some(v), Some(d)) => Some(v * radix + d),
            _ => None,
        }
    }
}

/// `from_str_radix` for an unsigned type, before its range is checked: an
/// optional `'+'` followed by at least one digit.
pub open spec fn unsigned_value(s: Seq<char>, radix: nat) -> Option<nat> {
    let body = if s.len() > 1 && s[0] == '+' { s.drop_first() } else { s };
    if body.len() == 0 {
        None
    } else {
        digits_value(body, radix)
    }
}

/// `from_str_radix` for an unsigned type whose largest value is `max`.
pub open spec fn parse_unsigned_spec(s: Seq<char>, radix: nat, max: nat) -> Option<nat> {
    match unsigned_value(s, radix) {
        Some(v) => if v <= max { Some(v) } else { None },
        None => None,
    }
}

/// A digit string's prefix has a value no larger than the whole string's.
proof fn lemma_digits_prefix(s: Seq<char>, k: int, radix: nat)
    requires
        0 <= k <= s.len(),
        radix > 0,
        digits_value(s, radix) is Some,
    ensures
        digits_value(s.take(k), radix) is Some,
        digits_value(s.take(k), radix)->0 <= digits_value(s, radix)->0,
    decreases s.len(),
{
    if k < s.len() {
        assert(s.drop_last().take(k) =~= s.take(k));
        lemma_digits_prefix(s.drop_last(), k, radix);
        let v = digits_value(s.drop_last(), radix)->0;
        assert(v <= v * radix) by (nonlinear_arith)
            requires
                radix > 0,
        ;
    } else {
        assert(s.take(k) =~= s);
    }
}

/// The lines of a text.
pub fn lines_of(s: &Vec<char>) -> (r: Vec<Vec<char>>)
    ensures
        r@.len() == lines_spec(s@).len(),
        forall|i: int| 0 <= i < r@.len() ==> #[trigger] r@[i]@ == lines_spec(s@)[i],
{
    let mut done: Vec<Vec<char>> = Vec::new();
    let mut cur: Vec<char> = Vec::new();
    let n = s.len();
    let mut i: usize = 0;
    while i < n
        invariant
            n == s@.len(),
            i <= n,
            done@.len() == lines_state(s@.take(i as int)).0.len(),
            forall|k: int| 0 <= k < done@.len() ==> #[trigger] done@[k]@ == lines_state(s@.take(i as int)).0[k],
            cur@ == lines_state(s@.take(i as int)).1,
        decreases n - i,
    {
        assert(s@.take(i + 1).drop_last() =~= s@.take(i as int));
        let c = s[i];
        if c == '\n' {
            let ghost before = cur@;
            if cur.len() > 0 && cur[cur.len() - 1] == '\r' {
                cur.pop();
            }
            assert(cur@ == strip_cr(before));
            done.push(cur);
            cur = Vec::new();
        } else {
            cur.push(c);
        }
        i += 1;
    }
    assert(s@.take(n as int) =~= s@);
    if cur.len() > 0 {
        done.push(cur);
    }
    done
}

/// The text without leading and trailing white space.
pub fn trim(s: &[char]) -> (r: Vec<char>)
    ensures
        r@ == trim_spec(s@),
{
    let mut lo: usize = 0;
    let mut hi: usize = s.len();
    assert(s@.subrange(0, s@.len() as int) =~= s@);
    while lo < hi && (is_whitespace(s[lo]) || is_whitespace(s[hi - 1]))
        invariant
            lo <= hi <= s@.len(),
            trim_spec(s@) == trim_spec(s@.subrange(lo as int, hi as int)),
        decreases hi - lo,
    {
        let ghost t = s@.subrange(lo as int, hi as int);
        if is_whitespace(s[lo]) {
            assert(t.drop_first() =~= s@.subrange(lo + 1, hi as int));
            lo += 1;
        } else {
            assert(t.drop_last() =~= s@.subrange(lo as int, hi - 1));
            hi -= 1;
        }
    }
    let ghost t = s@.subrange(lo as int, hi as int);
    assert(!(t.len() > 0 && white_space(t[0])));
    let mut r: Vec<char> = Vec::new();
    let mut k: usize = lo;
    while k < hi
        invariant
            lo <= k <= hi <= s@.len(),
            r@ == s@.subrange(lo as int, k as int),
        decreases hi - k,
    {
        r.push(s[k]);
        k += 1;
        assert(r@ =~= s@.subrange(lo as int, k as int));
    }
    r
}

/// The position of the first `c` in `s`.
fn find_char(s: &[char], c: char) -> (r: Option<usize>)
    ensures
        r matches Some(k) ==> k < s@.len(),
        match first_index(s@, c) {
            Some(k) => r == Some(k as usize) && 0 <= k < s@.len(),
            None => r is None,
        },
{
    let n = s.len();
    let mut i: usize = 0;
    assert(s@.skip(0) =~= s@);
    while i < n
        invariant
            n == s@.len(),
            i <= n,
            first_index(s@, c) == match first_index(s@.skip(i as int), c) {
                Some(k) => Some(k + i),
                None => None,
            },
            forall|k: int| 0 <= k < i ==> s@[k] != c,
        decreases n - i,
    {
        assert(s@.skip(i as int).drop_first() =~= s@.skip(i + 1));
        if s[i] == c {
            return Some(i);
        }
        i += 1;
    }
    None
}

fn copy_range(s: &[char], lo: usize, hi: usize) -> (r: Vec<char>)
    requires
        lo <= hi <= s@.len(),
    ensures
        r@ == s@.subrange(lo as int, hi as int),
{
    let mut r: Vec<char> = Vec::new();
    let mut k: usize = lo;
    while k < hi
        invariant
            lo <= k <= hi <= s@.len(),
            r@ == s@.subrange(lo as int, k as int),
        decreases hi - k,
    {
        r.push(s[k]);
        k += 1;
        assert(r@ =~= s@.subrange(lo as int, k as int));
    }
    r
}

fn split_at_first(s: &[char], c: char) -> (r: Option<(Vec<char>, Vec<char>)>)
    ensures
        match split_first(s@, c) {
            Some((a, b)) => r matches Some((x, y)) && x@ == a && y@ == b,
            None => r is None,
        },
{
    let n = s.len();
    match find_char(s, c) {
        Some(k) => {
            let a = copy_range(s, 0, k);
            let b = copy_range(s, k + 1, n);
            assert(a@ =~= s@.take(k as int));
            assert(b@ =~= s@.skip(k + 1));
            Some((a, b))
        },
        None => None,
    }
}

/// The four comma-separated parts of a line, when it has at least three
/// commas (the last part keeps any further commas).
pub fn split_fields4(s: &[char]) -> (r: Option<(Vec<char>, Vec<char>, Vec<char>, Vec<char>)>)
    ensures
        match fields4(s@) {
            Some((a, b, c, d)) => r matches Some((w, x, y, z)) && w@ == a && x@ == b && y@ == c
                && z@ == d,
            None => r is None,
        },
{
    let (a, r1) = match split_at_first(s, ',') {
        Some(p) => p,
        None => return None,
    };
    let (b, r2) = match split_at_first(r1.as_slice(), ',') {
        Some(p) => p,
        None => return None,
    };
    let (c, d) = match split_at_first(r2.as_slice(), ',') {
        Some(p) => p,
        None => return None,
    };
    Some((a, b, c, d))
}

fn digit_of(c: char, radix: u32) -> (r: Option<u32>)
    requires
        radix == 10 || radix == 16,
    ensures
        match digit_value(c, radix as nat) {
            Some(d) => r == Some(d as u32) && d < radix,
            None => r is None,
        },
{
    if '0' <= c && c <= '9' {
        let d = (c as u32) - ('0' as u32);
        if d < radix {
            return Some(d);
        }
        return None;
    }
    if radix == 16 && 'a' <= c && c <= 'f' {
        return Some((c as u32) - ('a' as u32) + 10);
    }
    if radix == 16 && 'A' <= c && c <= 'F' {
        return Some((c as u32) - ('A' as u32) + 10);
    }
    None
}

/// An unsigned number in base 10 or 16 as `from_str_radix` reads it, for a
/// type whose largest value is `max`; `None` where that gives an error.
pub fn parse_unsigned(s: &[char], radix: u32, max: u128) -> (r: Option<u128>)
    requires
        radix == 10 || radix == 16,
    ensures
        match parse_unsigned_spec(s@, radix as nat, max as nat) {
            Some(v) => r == Some(v as u128),
            None => r is None,
        },
{
    let start: usize = if s.len() > 1 && s[0] == '+' { 1 } else { 0 };
    let ghost body = if s@.len() > 1 && s@[0] == '+' { s@.drop_first() } else { s@ };
    assert(body =~= s@.skip(start as int));
    if start == s.len() {
        return None;
    }
    let n = s.len();
    let mut v: u128 = 0;
    let mut over = false;
    let mut k: usize = start;
    assert(body.take(0) =~= Seq::<char>::empty());
    while k < n
        invariant
            radix == 10 || radix == 16,
            n == s@.len(),
            start <= k <= n,
            body == s@.skip(start as int),
            body == (if s@.len() > 1 && s@[0] == '+' { s@.drop_first() } else { s@ }),
            digits_value(body.take(k - start), radix as nat) is Some,
            !over ==> v as nat == digits_value(body.take(k - start), radix as nat)->0 && v <= max,
            over ==> digits_value(body.take(k - start), radix as nat)->0 > max,
        decreases n - k,
    {
        let ghost pre = body.take(k - start);
        assert(body.take(k + 1 - start).drop_last() =~= pre);
        assert(body.take(k + 1 - start).last() == s@[k as int]);
        let d = match digit_of(s[k], radix) {
            Some(d) => d,
            None => {
                proof {
                    if digits_value(body, radix as nat) is Some {
                        lemma_digits_prefix(body, k + 1 - start, radix as nat);
                    }
                }
                return None;
            },
        };
        let ghost pv = digits_value(pre, radix as nat)->0;
        if !over {
            if (d as u128) > max || v > (max - d as u128) / (radix as u128) {
                over = true;
                assert(pv * radix + d > max) by (nonlinear_arith)
                    requires
                        pv == v,
                        d > max || v > (max - d) / (radix as int),
                        radix > 0,
                        d >= 0,
                ;
            } else {
                assert(v * radix + d <= max) by (nonlinear_arith)
                    requires
                        v <= (max - d) / (radix as int),
                        d <= max,
                        radix > 0,
                        d >= 0,
                ;
                v = v * (radix as u128) + d as u128;
            }
        } else {
            assert(pv * radix + d > max) by (nonlinear_arith)
                requires
                    pv > max,
                    radix > 0,
                    d >= 0,
            ;
        }
        k += 1;
    }
    assert(body.take(n - start) =~= body);
    if over {
        None
    } else {
        Some(v)
    }
}

} // verus!
