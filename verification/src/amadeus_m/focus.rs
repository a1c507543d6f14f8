//! Selective attention: the theme an input suggests (its longest word) and
//! the record of the themes attention has moved away from.
use vstd::prelude::*;
use crate::text::bytes_eq;

verus! {

/// An ASCII letter.
pub open spec fn ascii_letter(b: u8) -> bool {
    (65 <= b <= 90) || (97 <= b <= 122)
}

/// The runs of letters found so far that are at least three long, and the
/// run in progress.
pub open spec fn letter_runs(s: Seq<u8>) -> (Seq<Seq<u8>>, Seq<u8>)
    decreases s.len(),
{
    if s.len() == 0 {
        (Seq::empty(), Seq::empty())
    } else {
        let (ws, cur) = letter_runs(s.drop_last());
        let b = s.last();
        if ascii_letter(b) {
            (ws, cur.push(b))
        } else {
            (if cur.len() >= 3 { ws.push(cur) } else { ws }, Seq::empty())
        }
    }
}

/// The words of an input that can be themes: maximal runs of ASCII letters
/// at least three long, in order.
pub open spec fn theme_words(s: Seq<u8>) -> Seq<Seq<u8>> {
    let (ws, cur) = letter_runs(s);
    if cur.len() >= 3 { ws.push(cur) } else { ws }
}

/// The first of the longest words.
pub open spec fn first_longest(ws: Seq<Seq<u8>>) -> Option<Seq<u8>>
    decreases ws.len(),
{
    if ws.len() == 0 {
        None
    } else {
        match first_longest(ws.drop_last()) {
            Some(b) => if ws.last().len() > b.len() { Some(ws.last()) } else { Some(b) },
            None => Some(ws.last()),
        }
    }
}

/// The theme an input suggests: its first longest word of three letters
/// or more, if any.
pub fn theme_word(input: &[u8]) -> (r: Option<Vec<u8>>)
    ensures
        match first_longest(theme_words(input@)) {
            Some(w) => r matches Some(v) && v@ == w,
            None => r is None,
        },
{
    let n = input.len();
    let mut best: Option<Vec<u8>> = None;
    let mut cur: Vec<u8> = Vec::new();
    let ghost mut done: Seq<Seq<u8>> = Seq::empty();
    let mut i: usize = 0;
    while i < n
        invariant
            n == input@.len(),
            i <= n,
            letter_runs(input@.take(i as int)) == (done, cur@),
            match first_longest(done) {
                Some(w) => best matches Some(v) && v@ == w,
                None => best is None,
            },
        decreases n - i,
    {
        assert(input@.take(i + 1).drop_last() =~= input@.take(i as int));
        let b = input[i];
        if (65 <= b && b <= 90) || (97 <= b && b <= 122) {
            cur.push(b);
        } else {
            if cur.len() >= 3 {
                proof {
                    assert(done.push(cur@).drop_last() =~= done);
                    done = done.push(cur@);
                }
                let longer = match &best {
                    Some(v) => cur.len() > v.len(),
                    None => true,
                };
                if longer {
                    best = Some(cur);
                }
            }
            cur = Vec::new();
        }
        i += 1;
    }
    assert(input@.take(n as int) =~= input@);
    if cur.len() >= 3 {
        proof {
            assert(done.push(cur@).drop_last() =~= done);
        }
        let longer = match &best {
            Some(v) => cur.len() > v.len(),
            None => true,
        };
        if longer {
            best = Some(cur);
        }
    }
    best
}

/// The current theme and, oldest first, up to five themes it replaced.
pub struct Themes {
    pub theme: Vec<u8>,
    pub secondary_themes: Vec<Vec<u8>>,
}

pub open spec fn byte_views(v: Seq<Vec<u8>>) -> Seq<Seq<u8>> {
    v.map_values(|x: Vec<u8>| x@)
}

/// The earlier themes after `old` gives way to `new`: a different theme
/// joins the record, which keeps its last five.
pub open spec fn after_theme(secondary: Seq<Seq<u8>>, old: Seq<u8>, new: Seq<u8>) -> Seq<Seq<u8>> {
    if new == old {
        secondary
    } else {
        let s = secondary.push(old);
        if s.len() > 5 { s.drop_first() } else { s }
    }
}

impl Themes {
    pub fn new() -> (t: Self)
        ensures
            t.theme@ == Seq::<u8>::empty(),
            t.secondary_themes@ == Seq::<Vec<u8>>::empty(),
    {
        Themes { theme: Vec::new(), secondary_themes: Vec::new() }
    }

    /// Makes `theme` the current theme (see `after_theme`).
    pub fn set_theme(&mut self, theme: &[u8])
        ensures
            final(self).theme@ == theme@,
            byte_views(final(self).secondary_themes@) == after_theme(
                byte_views(old(self).secondary_themes@),
                old(self).theme@,
                theme@,
            ),
    {
        let ghost before = byte_views(self.secondary_themes@);
        let same = bytes_eq(theme, self.theme.as_slice());
        if !same {
            let prev = vstd::slice::slice_to_vec(self.theme.as_slice());
            self.secondary_themes.push(prev);
            assert(byte_views(self.secondary_themes@) =~= before.push(old(self).theme@));
            if self.secondary_themes.len() > 5 {
                let ghost pushed = byte_views(self.secondary_themes@);
                self.secondary_themes.remove(0);
                assert(byte_views(self.secondary_themes@) =~= pushed.drop_first());
            }
        }
        self.theme = vstd::slice::slice_to_vec(theme);
    }
}

} // verus!
