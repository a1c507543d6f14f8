//! The underworld: a tree of Markdown notes joined by `[[wiki links]]`,
//! explored one note at a time.
use vstd::prelude::*;
use crate::amadeus_m::compiler::views;
use crate::parse::{trim, trim_spec};
use crate::random::random_usize_below;
use crate::text::{chars_of, string_of};
use crate::tokenizer::str_bytes;
use crate::unicode::{lower_case, to_lower};

verus! {

/// An explorer rooted at a directory, with the stems of the notes it has
/// read, in order.
pub struct Underworld {
    pub root: String,
    pub visit_log: Vec<String>,
}

/// The first position at or after `p` where `a` is followed by `b`.
pub open spec fn find2(s: Seq<char>, p: int, a: char, b: char) -> Option<int>
    decreases s.len() - p,
{
    if p < 0 || p + 1 >= s.len() {
        None
    } else if s[p] == a && s[p + 1] == b {
        Some(p)
    } else {
        find2(s, p + 1, a, b)
    }
}

/// A found pair lies at or after the starting position, inside the text.
pub proof fn lemma_find2(s: Seq<char>, p: int, a: char, b: char)
    ensures
        find2(s, p, a, b) matches Some(k) ==> p <= k && k + 1 < s.len(),
    decreases s.len() - p,
{
    if !(p < 0 || p + 1 >= s.len()) && !(s[p] == a && s[p + 1] == b) {
        lemma_find2(s, p + 1, a, b);
    }
}

/// The links of `s` from position `p` on: the trimmed text between each
/// `[[` and the next `]]`, unless empty or starting with `_`.
pub open spec fn links_from(s: Seq<char>, p: int) -> Seq<Seq<char>>
    decreases s.len() - p,
    via links_from_decreases
{
    match find2(s, p, '\x5B', '\x5B') {
        None => Seq::empty(),
        Some(a) => {
            match find2(s, a + 2, '\x5D', '\x5D') {
                None => Seq::empty(),
                Some(e) => {
                    let l = trim_spec(s.subrange(a + 2, e));
                    let rest = links_from(s, e + 2);
                    if l.len() > 0 && l[0] != '_' {
                        seq![l] + rest
                    } else {
                        rest
                    }
                },
            }
        },
    }
}

#[via_fn]
proof fn links_from_decreases(s: Seq<char>, p: int) {
    lemma_find2(s, p, '\x5B', '\x5B');
    if let Some(a) = find2(s, p, '\x5B', '\x5B') {
        lemma_find2(s, a + 2, '\x5D', '\x5D');
    }
}

fn find2_exec(s: &Vec<char>, p: usize, a: char, b: char) -> (r: Option<usize>)
    ensures
        r matches Some(k) ==> find2(s@, p as int, a, b) == Some(k as int) && p <= k && k + 1 < s@.len(),
        r is None ==> find2(s@, p as int, a, b) is None,
{
    proof {
        lemma_find2(s@, p as int, a, b);
    }
    let n = s.len();
    let mut i = p;
    while i < n && n - i >= 2
        invariant
            n == s@.len(),
            p <= i,
            find2(s@, p as int, a, b) == find2(s@, i as int, a, b),
        decreases n - i,
    {
        if s[i] == a && s[i + 1] == b {
            return Some(i);
        }
        i += 1;
    }
    None
}

/// Whether `t` occurs in `s`.
pub open spec fn contains_text(s: Seq<char>, t: Seq<char>) -> bool {
    exists|i: int| 0 <= i && i + t.len() <= s.len() && #[trigger] s.subrange(i, i + t.len()) == t
}

fn contains_exec(s: &Vec<char>, t: &Vec<char>) -> (b: bool)
    ensures
        b == contains_text(s@, t@),
{
    let n = s.len();
    let m = t.len();
    if m > n {
        return false;
    }
    let mut i: usize = 0;
    while i <= n - m
        invariant
            n == s@.len(),
            m == t@.len(),
            m <= n,
            i <= n - m + 1,
            forall|j: int| 0 <= j < i ==> #[trigger] s@.subrange(j, j + m) != t@,
        decreases n - m + 1 - i,
    {
        let mut k: usize = 0;
        let mut same = true;
        while k < m
            invariant
                n == s@.len(),
                m == t@.len(),
                i + m <= n,
                k <= m,
                same == (forall|q: int| 0 <= q < k ==> s@[i + q] == t@[q]),
            decreases m - k,
        {
            if s[i + k] != t[k] {
                same = false;
            }
            k += 1;
        }
        if same {
            assert(s@.subrange(i as int, i + m) =~= t@);
            return true;
        }
        assert(s@.subrange(i as int, i + m) != t@) by {
            let q = choose|q: int| 0 <= q < m && s@[i + q] != t@[q];
            assert(s@.subrange(i as int, i + m)[q] != t@[q]);
        }
        i += 1;
    }
    proof {
        assert forall|j: int| 0 <= j && j + t@.len() <= s@.len() implies #[trigger] s@.subrange(j, j + t@.len())
            != t@ by {
            assert(j < i);
        }
    }
    false
}

/// Whether a keyword counts for a note (given in lower case): trimmed and
/// in lower case it has at least three bytes and occurs in the note.
pub open spec fn keyword_hits(lower: Seq<char>, k: Seq<char>) -> bool {
    let kk = lower_case(trim_spec(k));
    str_bytes(kk).len() >= 3 && contains_text(lower, kk)
}

/// How many of the keywords count for a note.
pub open spec fn hit_count(lower: Seq<char>, ks: Seq<Seq<char>>) -> nat
    decreases ks.len(),
{
    if ks.len() == 0 {
        0
    } else {
        hit_count(lower, ks.drop_last()) + if keyword_hits(lower, ks.last()) { 1nat } else { 0nat }
    }
}

/// The position at which a stable sort by descending count places an item
/// of count `c` after the sorted items: after every item of count `>= c`.
pub open spec fn place(sorted: Seq<(Seq<char>, nat)>, c: nat) -> int
    decreases sorted.len(),
{
    if sorted.len() == 0 {
        0
    } else if sorted[0].1 < c {
        0
    } else {
        1 + place(sorted.drop_first(), c)
    }
}

/// The stable sort by descending count.
pub open spec fn sort_desc(items: Seq<(Seq<char>, nat)>) -> Seq<(Seq<char>, nat)>
    decreases items.len(),
{
    if items.len() == 0 {
        Seq::empty()
    } else {
        let s = sort_desc(items.drop_last());
        s.insert(place(s, items.last().1), items.last())
    }
}

/// The notes with at least one hit, with their counts, in the given order.
pub open spec fn hits(files: Seq<(Seq<char>, Seq<char>)>, ks: Seq<Seq<char>>) -> Seq<(Seq<char>, nat)>
    decreases files.len(),
{
    if files.len() == 0 {
        Seq::empty()
    } else {
        let rest = hits(files.drop_last(), ks);
        let c = hit_count(lower_case(files.last().1), ks);
        if c >= 1 {
            rest.push((files.last().0, c))
        } else {
            rest
        }
    }
}

/// The search result: the paths of the notes with hits, most hits first,
/// ties in the given order.
pub open spec fn search_spec(files: Seq<(Seq<char>, Seq<char>)>, ks: Seq<Seq<char>>) -> Seq<Seq<char>> {
    sort_desc(hits(files, ks)).map_values(|x: (Seq<char>, nat)| x.0)
}

proof fn lemma_place_bound(sorted: Seq<(Seq<char>, nat)>, c: nat)
    ensures
        0 <= place(sorted, c) <= sorted.len(),
    decreases sorted.len(),
{
    if sorted.len() > 0 && sorted[0].1 >= c {
        lemma_place_bound(sorted.drop_first(), c);
    }
}

proof fn lemma_sort_len(items: Seq<(Seq<char>, nat)>)
    ensures
        sort_desc(items).len() == items.len(),
    decreases items.len(),
{
    if items.len() > 0 {
        lemma_sort_len(items.drop_last());
        lemma_place_bound(sort_desc(items.drop_last()), items.last().1);
    }
}

/// The path after appending the parts of a link: each non-empty trimmed
/// part between slashes, joined with a slash unless the path is empty or
/// already ends with one.
pub open spec fn join_parts(path: Seq<char>, parts: Seq<Seq<char>>) -> Seq<char>
    decreases parts.len(),
{
    if parts.len() == 0 {
        path
    } else {
        let p = join_parts(path, parts.drop_last());
        let part = trim_spec(parts.last());
        if part.len() == 0 {
            p
        } else if p.len() == 0 || p.last() == '/' {
            p + part
        } else {
            p.push('/') + part
        }
    }
}

/// The pieces of a text between slashes.
pub open spec fn split_slash(s: Seq<char>) -> Seq<Seq<char>>
    decreases s.len(),
{
    if s.len() == 0 {
        seq![Seq::empty()]
    } else {
        let p = split_slash(s.drop_last());
        if s.last() == '/' {
            p.push(Seq::empty())
        } else {
            p.update(p.len() - 1, p.last().push(s.last()))
        }
    }
}

proof fn lemma_split_slash_len(s: Seq<char>)
    ensures
        split_slash(s).len() >= 1,
    decreases s.len(),
{
    if s.len() > 0 {
        lemma_split_slash_len(s.drop_last());
    }
}

impl Underworld {
    pub fn new(root: &str) -> (u: Self)
        ensures
            u.root@ == root@,
            u.visit_log@.len() == 0,
    {
        Underworld { root: String::from_str(root), visit_log: Vec::new() }
    }

    /// The stems of the notes read so far, in order.
    pub fn visit_log(&self) -> (log: &[String])
        ensures
            log@ == self.visit_log@,
    {
        self.visit_log.as_slice()
    }

    /// The `[[links]]` of a note (see `links_from`).
    pub fn extract_links(content: &str) -> (links: Vec<String>)
        ensures
            views(links@) == links_from(content@, 0),
    {
        let cs = chars_of(content);
        let mut links: Vec<String> = Vec::new();
        let mut start: usize = 0;
        loop
            invariant
                cs@ == content@,
                start <= cs@.len() + 1,
                views(links@) + links_from(content@, start as int) == links_from(content@, 0),
            ensures
                views(links@) == links_from(content@, 0),
            decreases cs@.len() + 1 - start,
        {
            let a = match find2_exec(&cs, start, '\x5B', '\x5B') {
                Some(a) => a,
                None => {
                    proof {
                        lemma_links_unfold(content@, start as int);
                    }
                    assert(views(links@) + Seq::<Seq<char>>::empty() =~= views(links@));
                    break;
                },
            };
            let abs = a + 2;
            proof {
                lemma_links_unfold(content@, start as int);
            }
            let e = match find2_exec(&cs, abs, '\x5D', '\x5D') {
                Some(e) => e,
                None => {
                    assert(links_from(content@, start as int) =~= Seq::<Seq<char>>::empty());
                    assert(views(links@) + Seq::<Seq<char>>::empty() =~= views(links@));
                    break;
                },
            };
            let mut piece: Vec<char> = Vec::new();
            let mut k = abs;
            while k < e
                invariant
                    abs <= k <= e,
                    e < cs@.len(),
                    piece@ == cs@.subrange(abs as int, k as int),
                decreases e - k,
            {
                piece.push(cs[k]);
                k += 1;
                assert(piece@ =~= cs@.subrange(abs as int, k as int));
            }
            let l = trim(piece.as_slice());
            let ghost before = views(links@);
            if l.len() > 0 && l[0] != '_' {
                links.push(string_of(l.as_slice()));
                assert(views(links@) =~= before.push(l@));
                assert(before.push(l@) + links_from(content@, e + 2) =~= before + (seq![l@] + links_from(
                    content@,
                    e + 2,
                )));
            }
            start = e + 2;
        }
        links
    }

    /// The path a link names under the root (see `join_parts`); the caller
    /// tries it with the `md` extension and as it is.
    pub fn resolve_link(&self, link: &str) -> (path: String)
        ensures
            path@ == join_parts(self.root@, split_slash(link@)),
    {
        let cs = chars_of(link);
        let mut path: Vec<char> = chars_of(self.root.as_str());
        let mut part: Vec<char> = Vec::new();
        let ghost mut done: Seq<Seq<char>> = Seq::empty();
        let n = cs.len();
        let mut i: usize = 0;
        assert(cs@.take(0) =~= Seq::<char>::empty());
        while i < n
            invariant
                n == cs@.len(),
                cs@ == link@,
                i <= n,
                split_slash(link@.take(i as int)) == done.push(part@),
                path@ == join_parts(self.root@, done),
            decreases n - i,
        {
            assert(link@.take(i + 1).drop_last() =~= link@.take(i as int));
            let c = cs[i];
            if c == '/' {
                let t = trim(part.as_slice());
                let ghost old_done = done;
                proof {
                    done = done.push(part@);
                    assert(done.drop_last() =~= old_done);
                }
                if t.len() > 0 {
                    if path.len() > 0 && path[path.len() - 1] != '/' {
                        path.push('/');
                    }
                    let mut k: usize = 0;
                    let ghost p0 = path@;
                    while k < t.len()
                        invariant
                            k <= t@.len(),
                            path@ == p0 + t@.take(k as int),
                        decreases t.len() - k,
                    {
                        path.push(t[k]);
                        k += 1;
                        assert(path@ =~= p0 + t@.take(k as int));
                    }
                    assert(t@.take(k as int) =~= t@);
                }
                part = Vec::new();
                proof {
                    lemma_split_slash_len(link@.take(i as int));
                }
                assert(split_slash(link@.take(i + 1)) =~= done.push(part@));
            } else {
                let ghost p_before = part@;
                part.push(c);
                proof {
                    lemma_split_slash_len(link@.take(i as int));
                }
                assert(split_slash(link@.take(i + 1)) =~= done.push(part@));
            }
            i += 1;
        }
        assert(link@.take(n as int) =~= link@);
        let t = trim(part.as_slice());
        let ghost final_parts = done.push(part@);
        assert(final_parts.drop_last() =~= done);
        if t.len() > 0 {
            if path.len() > 0 && path[path.len() - 1] != '/' {
                path.push('/');
            }
            let mut k: usize = 0;
            let ghost p0 = path@;
            while k < t.len()
                invariant
                    k <= t@.len(),
                    path@ == p0 + t@.take(k as int),
                decreases t.len() - k,
            {
                path.push(t[k]);
                k += 1;
                assert(path@ =~= p0 + t@.take(k as int));
            }
            assert(t@.take(k as int) =~= t@);
        }
        string_of(path.as_slice())
    }

    /// Ranks notes by how many keywords they hold (see `search_spec`);
    /// `files` pairs each readable note's path with its text.
    pub fn search(&self, files: &[(String, String)], keywords: &[&str]) -> (paths: Vec<String>)
        ensures
            views(paths@) == search_spec(
                files@.map_values(|f: (String, String)| (f.0@, f.1@)),
                keywords@.map_values(|k: &str| k@),
            ),
    {
        let ghost fs = files@.map_values(|f: (String, String)| (f.0@, f.1@));
        let ghost ks = keywords@.map_values(|k: &str| k@);
        let mut keys: Vec<Vec<char>> = Vec::new();
        let mut q: usize = 0;
        while q < keywords.len()
            invariant
                q <= keywords@.len(),
                ks == keywords@.map_values(|k: &str| k@),
                keys@.len() == q,
                forall|j: int| 0 <= j < q ==> #[trigger] keys@[j]@ == lower_case(trim_spec(ks[j])),
            decreases keywords.len() - q,
        {
            let kc = chars_of(keywords[q]);
            let kt = string_of(trim(kc.as_slice()).as_slice());
            let kl = to_lower(kt.as_str());
            keys.push(chars_of(kl.as_str()));
            q += 1;
        }
        let mut sorted: Vec<(usize, usize)> = Vec::new();
        let ghost mut items: Seq<(Seq<char>, nat)> = Seq::empty();
        let mut i: usize = 0;
        assert(fs.take(0) =~= Seq::<(Seq<char>, Seq<char>)>::empty());
        while i < files.len()
            invariant
                i <= files@.len(),
                fs == files@.map_values(|f: (String, String)| (f.0@, f.1@)),
                ks == keywords@.map_values(|k: &str| k@),
                keys@.len() == ks.len(),
                forall|j: int| 0 <= j < ks.len() ==> #[trigger] keys@[j]@ == lower_case(trim_spec(ks[j])),
                items == sort_desc(hits(fs.take(i as int), ks)),
                sorted@.len() == items.len(),
                forall|j: int| 0 <= j < sorted@.len() ==> (#[trigger] sorted@[j]).0 < i && fs[sorted@[j].0 as int].0 == items[j].0 && sorted@[j].1 == items[j].1,
            decreases files.len() - i,
        {
            assert(fs.take(i + 1).drop_last() =~= fs.take(i as int));
            let lower = chars_of(to_lower(files[i].1.as_str()).as_str());
            let mut count: usize = 0;
            let mut j: usize = 0;
            assert(ks.take(0) =~= Seq::<Seq<char>>::empty());
            while j < keys.len()
                invariant
                    j <= keys@.len(),
                    keys@.len() == ks.len(),
                    forall|x: int| 0 <= x < ks.len() ==> #[trigger] keys@[x]@ == lower_case(trim_spec(ks[x])),
                    count == hit_count(lower@, ks.take(j as int)),
                    count <= j,
                decreases keys.len() - j,
            {
                assert(ks.take(j + 1).drop_last() =~= ks.take(j as int));
                let kstr = string_of(keys[j].as_slice());
                let nb = kstr.as_str().as_bytes().len();
                if nb >= 3 && contains_exec(&lower, &keys[j]) {
                    count += 1;
                }
                j += 1;
            }
            assert(ks.take(j as int) =~= ks);
            proof {
                assert(fs[i as int].1 == files@[i as int].1@);
                assert(count == hit_count(lower_case(fs[i as int].1), ks));
                assert(fs.take(i + 1).last() == fs[i as int]);
            }
            if count >= 1 {
                let ghost item = (fs[i as int].0, count as nat);
                let mut pos: usize = 0;
                assert(items.skip(0) =~= items);
                while pos < sorted.len() && sorted[pos].1 >= count
                    invariant
                        pos <= sorted@.len(),
                        sorted@.len() == items.len(),
                        forall|x: int| 0 <= x < sorted@.len() ==> (#[trigger] sorted@[x]).1 == items[x].1,
                        place(items, count as nat) == pos + place(items.skip(pos as int), count as nat),
                    decreases sorted.len() - pos,
                {
                    assert(items.skip(pos as int).drop_first() =~= items.skip(pos + 1));
                    pos += 1;
                }
                proof {
                    if pos < sorted@.len() {
                        assert(items.skip(pos as int)[0] == items[pos as int]);
                    }
                    assert(place(items, count as nat) == pos);
                    let old_items = items;
                    assert(hits(fs.take(i + 1), ks) == hits(fs.take(i as int), ks).push(item));
                    assert(hits(fs.take(i + 1), ks).drop_last() =~= hits(fs.take(i as int), ks));
                    items = items.insert(pos as int, item);
                    assert(items == sort_desc(hits(fs.take(i + 1), ks)));
                }
                let ghost old_sorted = sorted@;
                sorted.insert(pos, (i, count));
                proof {
                    assert forall|j: int| 0 <= j < sorted@.len() implies (#[trigger] sorted@[j]).0 < i + 1
                        && fs[sorted@[j].0 as int].0 == items[j].0 && sorted@[j].1 == items[j].1 by {
                        if j < pos {
                            assert(sorted@[j] == old_sorted[j]);
                        } else if j > pos {
                            assert(sorted@[j] == old_sorted[j - 1]);
                        }
                    }
                }
            } else {
                assert(hits(fs.take(i + 1), ks) == hits(fs.take(i as int), ks));
            }
            i += 1;
        }
        assert(fs.take(i as int) =~= fs);
        let mut out: Vec<String> = Vec::new();
        let mut k: usize = 0;
        while k < sorted.len()
            invariant
                k <= sorted@.len(),
                sorted@.len() == items.len(),
                forall|j: int| 0 <= j < sorted@.len() ==> (#[trigger] sorted@[j]).0 < files@.len() && fs[sorted@[j].0 as int].0 == items[j].0,
                fs == files@.map_values(|f: (String, String)| (f.0@, f.1@)),
                views(out@) == items.take(k as int).map_values(|x: (Seq<char>, nat)| x.0),
            decreases sorted.len() - k,
        {
            let idx = sorted[k].0;
            let path = files[idx].0.clone();
            assert(path@ == fs[idx as int].0);
            let ghost ov = views(out@);
            out.push(path);
            assert(views(out@) =~= ov.push(items[k as int].0));
            assert(items.take(k + 1).map_values(|x: (Seq<char>, nat)| x.0) =~= items.take(k as int).map_values(
                |x: (Seq<char>, nat)| x.0,
            ).push(items[k as int].0));
            k += 1;
            assert(views(out@) =~= items.take(k as int).map_values(|x: (Seq<char>, nat)| x.0));
        }
        assert(items.take(k as int) =~= items);
        out
    }

    /// One of the given paths, drawn at random (the starting note among all
    /// notes, or the next note among the reachable links); none when there
    /// is no path.
    pub fn pick_random(paths: &[String]) -> (r: Option<String>)
        ensures
            (paths@.len() == 0) == (r is None),
            r matches Some(p) ==> exists|i: int| 0 <= i < paths@.len() && (#[trigger] paths@[i])@ == p@,
    {
        if paths.len() == 0 {
            return None;
        }
        let k = random_usize_below(paths.len());
        let p = paths[k].clone();
        assert(paths@[k as int]@ == p@);
        Some(p)
    }

    /// Records a step of exploration: when the note could be read, its stem
    /// (or `desconhecido`) joins the visit log, and the note's text, its
    /// links (the candidates for the next step) and the stem are returned;
    /// an unreadable note changes nothing.
    pub fn step(&mut self, stem: Option<&str>, content: Option<String>) -> (r: Option<(String, Vec<String>, String)>)
        ensures
            match content {
                None => r is None && final(self).visit_log@ == old(self).visit_log@,
                Some(c) => r matches Some((t, links, name)) && t@ == c@
                    && views(links@) == links_from(c@, 0)
                    && name@ == (match stem { Some(s) => s@, None => "desconhecido"@ })
                    && final(self).visit_log@ == old(self).visit_log@.push(name),
            },
            final(self).root == old(self).root,
    {
        let content = match content {
            Some(c) => c,
            None => return None,
        };
        let name = match stem {
            Some(s) => String::from_str(s),
            None => String::from_str("desconhecido"),
        };
        self.visit_log.push(name.clone());
        let links = Self::extract_links(content.as_str());
        Some((content, links, name))
    }
}

} // verus!
verus! {

proof fn lemma_links_unfold(s: Seq<char>, p: int)
    ensures
        links_from(s, p) == match find2(s, p, '\x5B', '\x5B') {
            None => Seq::<Seq<char>>::empty(),
            Some(a) => match find2(s, a + 2, '\x5D', '\x5D') {
                None => Seq::<Seq<char>>::empty(),
                Some(e) => {
                    let l = trim_spec(s.subrange(a + 2, e));
                    let rest = links_from(s, e + 2);
                    if l.len() > 0 && l[0] != '_' {
                        seq![l] + rest
                    } else {
                        rest
                    }
                },
            },
        },
{
}

} // verus!
