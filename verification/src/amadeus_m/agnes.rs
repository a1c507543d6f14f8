//! Reading a field out of the mentor model's JSON-like replies, and the
//! mentor's API key out of its key file.
use vstd::prelude::*;
use crate::parse::{first_index, lines_of, lines_spec, trim, trim_spec};
use crate::text::{chars_of, string_of};
use crate::unicode::{is_whitespace, white_space};

verus! {

/// The first position at or after `p` where `t` occurs in `s`.
pub open spec fn find_from(s: Seq<char>, t: Seq<char>, p: int) -> Option<int>
    decreases s.len() + 1 - p,
{
    if p < 0 || p + t.len() > s.len() {
        None
    } else if s.subrange(p, p + t.len()) == t {
        Some(p)
    } else {
        find_from(s, t, p + 1)
    }
}

/// The text without its leading white space.
pub open spec fn trim_start_spec(s: Seq<char>) -> Seq<char>
    decreases s.len(),
{
    if s.len() > 0 && white_space(s[0]) {
        trim_start_spec(s.drop_first())
    } else {
        s
    }
}

/// Whether a character can continue a number: a decimal digit, `.` or `-`.
pub open spec fn number_char(c: char) -> bool {
    ('0' <= c && c <= '9') || c == '.' || c == '-'
}

/// The position of the first character that cannot continue a number.
pub open spec fn number_end(s: Seq<char>) -> Option<int>
    decreases s.len(),
{
    if s.len() == 0 {
        None
    } else if !number_char(s[0]) {
        Some(0)
    } else {
        match number_end(s.drop_first()) {
            Some(i) => Some(i + 1),
            None => None,
        }
    }
}

/// The value of `"key"` in a reply: after the quoted key and the next
/// colon, skipping white space, either the text up to the next quote of a
/// quoted value, or the run of digits, dots and minus signs, which must be
/// followed by some other character.
pub open spec fn json_str_spec(text: Seq<char>, key: Seq<char>) -> Option<Seq<char>> {
    let search = seq!['"'] + key + seq!['"'];
    match find_from(text, search, 0) {
        None => None,
        Some(idx) => {
            let after = text.skip(idx + search.len());
            match first_index(after, ':') {
                None => None,
                Some(colon) => {
                    let v = trim_start_spec(after.skip(colon + 1));
                    if v.len() > 0 && v[0] == '"' {
                        match first_index(v.skip(1), '"') {
                            None => None,
                            Some(close) => Some(v.subrange(1, 1 + close)),
                        }
                    } else {
                        match number_end(v) {
                            None => None,
                            Some(end) => Some(v.take(end)),
                        }
                    }
                },
            }
        },
    }
}

fn copy_from(s: &Vec<char>, lo: usize) -> (r: Vec<char>)
    requires
        lo <= s@.len(),
    ensures
        r@ == s@.skip(lo as int),
{
    let mut r: Vec<char> = Vec::new();
    let mut k = lo;
    while k < s.len()
        invariant
            lo <= k <= s@.len(),
            r@ == s@.subrange(lo as int, k as int),
        decreases s.len() - k,
    {
        r.push(s[k]);
        k += 1;
        assert(r@ =~= s@.subrange(lo as int, k as int));
    }
    r
}

fn copy_range(s: &Vec<char>, lo: usize, hi: usize) -> (r: Vec<char>)
    requires
        lo <= hi <= s@.len(),
    ensures
        r@ == s@.subrange(lo as int, hi as int),
{
    let mut r: Vec<char> = Vec::new();
    let mut k = lo;
    while k < hi
        invariant
            lo <= k <= hi <= s@.len(),
            r@ == s@.subrange(lo as int, k as int),
        decreases hi - k,
    {
        r.push(s[k]);
        k += 1;
        assert(r@ =~= s@.subrange(lo as int, k as int));
    }
    r
}

fn find_text(s: &Vec<char>, t: &Vec<char>) -> (r: Option<usize>)
    ensures
        r matches Some(k) ==> find_from(s@, t@, 0) == Some(k as int) && k + t@.len() <= s@.len(),
        r is None ==> find_from(s@, t@, 0) is None,
{
    let n = s.len();
    let m = t.len();
    let mut i: usize = 0;
    while i <= n && m <= n - i
        invariant
            n == s@.len(),
            m == t@.len(),
            find_from(s@, t@, 0) == find_from(s@, t@, i as int),
        decreases n - i,
    {
        let mut k: usize = 0;
        let mut same = true;
        while k < m
            invariant
                n == s@.len(),
                m == t@.len(),
                i + m <= n,
                k <= m,
                same == (forall|q: int| 0 <= q < k ==> s@[i + q] == t@[q]),
            decreases m - k,
        {
            if s[i + k] != t[k] {
                same = false;
            }
            k += 1;
        }
        if same {
            assert(s@.subrange(i as int, i + m) =~= t@);
            return Some(i);
        }
        assert(s@.subrange(i as int, i + m) != t@) by {
            let q = choose|q: int| 0 <= q < m && s@[i + q] != t@[q];
            assert(s@.subrange(i as int, i + m)[q] != t@[q]);
        }
        i += 1;
    }
    None
}

fn find_char(s: &Vec<char>, c: char) -> (r: Option<usize>)
    ensures
        r matches Some(k) ==> first_index(s@, c) == Some(k as int) && k < s@.len(),
        r is None ==> first_index(s@, c) is None,
{
    let n = s.len();
    let mut i: usize = 0;
    assert(s@.skip(0) =~= s@);
    while i < n
        invariant
            n == s@.len(),
            i <= n,
            first_index(s@, c) == match first_index(s@.skip(i as int), c) {
                Some(k) => Some(k + i),
                None => None,
            },
        decreases n - i,
    {
        assert(s@.skip(i as int).drop_first() =~= s@.skip(i + 1));
        if s[i] == c {
            return Some(i);
        }
        i += 1;
    }
    None
}

/// The value of `"key"` in a reply (see `json_str_spec`).
pub fn extract_json_str(text: &str, key: &str) -> (r: Option<String>)
    ensures
        match json_str_spec(text@, key@) {
            Some(v) => r matches Some(s) && s@ == v,
            None => r is None,
        },
{
    let ts = chars_of(text);
    let mut search: Vec<char> = Vec::new();
    search.push('"');
    let ks = chars_of(key);
    let mut q: usize = 0;
    while q < ks.len()
        invariant
            q <= ks@.len(),
            search@ == seq!['"'] + ks@.take(q as int),
        decreases ks.len() - q,
    {
        search.push(ks[q]);
        q += 1;
        assert(search@ =~= seq!['"'] + ks@.take(q as int));
    }
    search.push('"');
    assert(ks@.take(q as int) =~= key@);
    assert(search@ =~= seq!['"'] + key@ + seq!['"']);
    let idx = match find_text(&ts, &search) {
        Some(i) => i,
        None => return None,
    };
    let tn = ts.len();
    let sl = search.len();
    assert(idx + sl <= tn);
    let after = copy_from(&ts, idx + sl);
    let colon = match find_char(&after, ':') {
        Some(c) => c,
        None => return None,
    };
    let rest = copy_from(&after, colon + 1);
    let mut lo: usize = 0;
    assert(rest@.skip(0) =~= rest@);
    while lo < rest.len() && is_whitespace(rest[lo])
        invariant
            lo <= rest@.len(),
            trim_start_spec(rest@) == trim_start_spec(rest@.skip(lo as int)),
        decreases rest.len() - lo,
    {
        assert(rest@.skip(lo as int).drop_first() =~= rest@.skip(lo + 1));
        lo += 1;
    }
    let v = copy_from(&rest, lo);
    assert(trim_start_spec(rest@.skip(lo as int)) == rest@.skip(lo as int));
    if v.len() > 0 && v[0] == '"' {
        let inner = copy_from(&v, 1);
        let close = match find_char(&inner, '"') {
            Some(c) => c,
            None => return None,
        };
        let out = copy_range(&v, 1, 1 + close);
        Some(string_of(out.as_slice()))
    } else {
        let mut e: usize = 0;
        assert(v@.skip(0) =~= v@);
        while e < v.len() && (('0' <= v[e] && v[e] <= '9') || v[e] == '.' || v[e] == '-')
            invariant
                e <= v@.len(),
                number_end(v@) == match number_end(v@.skip(e as int)) {
                    Some(k) => Some(k + e),
                    None => None,
                },
            decreases v.len() - e,
        {
            assert(v@.skip(e as int).drop_first() =~= v@.skip(e + 1));
            e += 1;
        }
        if e == v.len() {
            assert(v@.skip(e as int) =~= Seq::<char>::empty());
            return None;
        }
        let out = copy_range(&v, 0, e);
        assert(out@ =~= v@.take(e as int));
        Some(string_of(out.as_slice()))
    }
}


/// `key: ` as characters.
pub open spec fn key_prefix() -> Seq<char> {
    seq!['k', 'e', 'y', ':', ' ']
}

/// The key a line gives: what follows `key: `, trimmed, when that is not
/// empty.
pub open spec fn line_key(l: Seq<char>) -> Option<Seq<char>> {
    if l.len() >= 5 && l.take(5) == key_prefix() && trim_spec(l.skip(5)).len() > 0 {
        Some(trim_spec(l.skip(5)))
    } else {
        None
    }
}

/// The key of the first line that gives one.
pub open spec fn first_key(ls: Seq<Seq<char>>) -> Option<Seq<char>>
    decreases ls.len(),
{
    if ls.len() == 0 {
        None
    } else {
        match line_key(ls[0]) {
            Some(k) => Some(k),
            None => first_key(ls.drop_first()),
        }
    }
}

/// The API key of a key file's text (see `first_key`), or `None` when no
/// line gives one.
pub fn api_key(content: &str) -> (r: Option<String>)
    ensures
        match first_key(lines_spec(content@)) {
            Some(k) => r matches Some(s) && s@ == k,
            None => r is None,
        },
{
    let chars = chars_of(content);
    let ls = lines_of(&chars);
    let ghost all = lines_spec(content@);
    let mut i: usize = 0;
    assert(all.skip(0) =~= all);
    while i < ls.len()
        invariant
            i <= ls@.len() == all.len(),
            all == lines_spec(content@),
            forall|j: int| 0 <= j < ls@.len() ==> #[trigger] ls@[j]@ == all[j],
            first_key(all) == first_key(all.skip(i as int)),
        decreases ls.len() - i,
    {
        let l = &ls[i];
        assert(all.skip(i as int)[0] == l@);
        assert(all.skip(i as int).drop_first() =~= all.skip(i + 1));
        if l.len() >= 5 && l[0] == 'k' && l[1] == 'e' && l[2] == 'y' && l[3] == ':' && l[4] == ' ' {
            assert(l@.take(5) =~= key_prefix());
            let rest = vstd::slice::slice_subrange(l.as_slice(), 5, l.len());
            assert(rest@ =~= l@.skip(5));
            let t = trim(rest);
            if t.len() > 0 {
                return Some(string_of(t.as_slice()));
            }
        } else {
            assert(!(l@.len() >= 5 && l@.take(5) == key_prefix())) by {
                if l@.len() >= 5 && l@.take(5) == key_prefix() {
                    assert(l@.take(5)[0] == 'k' && l@.take(5)[1] == 'e' && l@.take(5)[2] == 'y');
                    assert(l@.take(5)[3] == ':' && l@.take(5)[4] == ' ');
                }
            }
        }
        i += 1;
    }
    None
}

} // verus!
