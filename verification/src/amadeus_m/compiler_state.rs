//! The compiler's saved state: next id, roots, lexicon and graph as one
//! little-endian byte record, and reading it back.
use std::collections::HashMap;
use vstd::prelude::*;
use vstd::bytes::{
    spec_u16_from_le_bytes, spec_u16_to_le_bytes, spec_u32_from_le_bytes, spec_u32_to_le_bytes,
    u16_from_le_bytes, u16_to_le_bytes, u32_from_le_bytes, u32_to_le_bytes,
};
use vstd::utf8::{decode_utf8, encode_utf8, valid_utf8};
use vstd::std_specs::iter::IteratorSpec;
use crate::amadeus_m::compiler::{Compiler, views};
use crate::amadeus_m::lexicon::{Lexicon, LexSeq, LexValue, distinct_forms, insert_spec, index_of_form};
use crate::quant::gguf::utf8_string;

verus! {

broadcast use vstd::std_specs::hash::group_hash_axioms;

// ───────────────────────── the record ─────────────────────────

/// A string as stored: its UTF-8 length (as `u32`) and its UTF-8 bytes.
pub open spec fn str_record(s: Seq<char>) -> Seq<u8> {
    spec_u32_to_le_bytes(encode_utf8(s).len() as u32) + encode_utf8(s)
}

pub open spec fn roots_record(r: Seq<Seq<char>>) -> Seq<u8>
    decreases r.len(),
{
    if r.len() == 0 {
        Seq::empty()
    } else {
        roots_record(r.drop_last()) + str_record(r.last())
    }
}

/// A lexicon entry as stored: form, id, morphology, class and style.
pub open spec fn entry_record(e: (Seq<char>, LexValue)) -> Seq<u8> {
    str_record(e.0) + spec_u32_to_le_bytes(e.1.0) + spec_u16_to_le_bytes(e.1.1) + seq![e.1.2]
        + spec_u16_to_le_bytes(e.1.3)
}

pub open spec fn entries_record(l: LexSeq) -> Seq<u8>
    decreases l.len(),
{
    if l.len() == 0 {
        Seq::empty()
    } else {
        entries_record(l.drop_last()) + entry_record(l.last())
    }
}

pub open spec fn pairs_record(p: Seq<(u32, u32)>) -> Seq<u8>
    decreases p.len(),
{
    if p.len() == 0 {
        Seq::empty()
    } else {
        pairs_record(p.drop_last()) + spec_u32_to_le_bytes(p.last().0) + spec_u32_to_le_bytes(p.last().1)
    }
}

/// The whole record, with the graph's entries listed in the order `pairs`.
/// Counts and lengths are stored as `u32`.
pub open spec fn state_record(next_id: u32, roots: Seq<Seq<char>>, lex: LexSeq, pairs: Seq<(u32, u32)>) -> Seq<u8> {
    spec_u32_to_le_bytes(next_id) + spec_u32_to_le_bytes(roots.len() as u32) + roots_record(roots)
        + spec_u32_to_le_bytes(lex.len() as u32) + entries_record(lex) + spec_u32_to_le_bytes(
        pairs.len() as u32,
    ) + pairs_record(pairs)
}

/// `pairs` lists the graph: each entry once, keys distinct.
pub open spec fn graph_listing<V>(g: Map<u32, V>, pairs: Seq<(u32, V)>) -> bool {
    &&& forall|i: int| 0 <= i < pairs.len() ==> g.contains_key(#[trigger] pairs[i].0) && g[pairs[i].0] == pairs[i].1
    &&& forall|k: u32| g.contains_key(k) ==> exists|i: int| 0 <= i < pairs.len() && #[trigger] pairs[i].0 == k
    &&& forall|i: int, j: int| 0 <= i < j < pairs.len() ==> #[trigger] pairs[i].0 != #[trigger] pairs[j].0
}

// ───────────────────────── reading ─────────────────────────

pub open spec fn rd_u32(d: Seq<u8>, p: int) -> Option<(u32, int)> {
    if 0 <= p && p + 4 <= d.len() {
        Some((spec_u32_from_le_bytes(d.subrange(p, p + 4)), p + 4))
    } else {
        None
    }
}

/// A stored string; bytes that are not UTF-8 read as the empty string.
pub open spec fn rd_str(d: Seq<u8>, p: int) -> Option<(Seq<char>, int)> {
    match rd_u32(d, p) {
        Some((n, q)) => if q + n <= d.len() {
            let b = d.subrange(q, q + n);
            Some((if valid_utf8(b) { decode_utf8(b) } else { Seq::empty() }, q + n))
        } else {
            None
        },
        None => None,
    }
}

pub open spec fn rd_roots(d: Seq<u8>, p: int, n: nat) -> Option<(Seq<Seq<char>>, int)>
    decreases n,
{
    if n == 0 {
        Some((Seq::empty(), p))
    } else {
        match rd_roots(d, p, (n - 1) as nat) {
            Some((rs, q)) => match rd_str(d, q) {
                Some((s, q2)) => Some((rs.push(s), q2)),
                None => None,
            },
            None => None,
        }
    }
}

/// A stored lexicon entry; a style cut off by the end of the data reads as 0.
pub open spec fn rd_entry(d: Seq<u8>, p: int) -> Option<((Seq<char>, LexValue), int)> {
    match rd_str(d, p) {
        Some((f, q)) => if q + 7 <= d.len() {
            let id = spec_u32_from_le_bytes(d.subrange(q, q + 4));
            let morph = spec_u16_from_le_bytes(d.subrange(q + 4, q + 6));
            let class = d[q + 6];
            let style: u16 = if q + 9 <= d.len() {
                spec_u16_from_le_bytes(d.subrange(q + 7, q + 9))
            } else {
                0
            };
            Some(((f, (id, morph, class, style)), q + 9))
        } else {
            None
        },
        None => None,
    }
}

pub open spec fn rd_entries(d: Seq<u8>, p: int, n: nat) -> Option<(LexSeq, int)>
    decreases n,
{
    if n == 0 {
        Some((Seq::empty(), p))
    } else {
        match rd_entries(d, p, (n - 1) as nat) {
            Some((es, q)) => match rd_entry(d, q) {
                Some((e, q2)) => Some((es.push(e), q2)),
                None => None,
            },
            None => None,
        }
    }
}

/// The graph entries: as many of the announced count as the data holds
/// whole; none when the count itself is missing.
pub open spec fn rd_graph(d: Seq<u8>, p: int) -> Seq<(u32, u32)> {
    if 0 <= p && p + 4 <= d.len() {
        let n = spec_u32_from_le_bytes(d.subrange(p, p + 4)) as int;
        let fit = (d.len() - (p + 4)) / 8;
        let cnt = if n < fit { n } else { fit };
        Seq::new(
            cnt as nat,
            |i: int|
                (
                    spec_u32_from_le_bytes(d.subrange(p + 4 + 8 * i, p + 8 + 8 * i)),
                    spec_u32_from_le_bytes(d.subrange(p + 8 + 8 * i, p + 12 + 8 * i)),
                ),
        )
    } else {
        Seq::empty()
    }
}

/// The next id, roots, lexicon entries and graph entries of a record; none
/// when a part other than the graph is cut off.
pub open spec fn read_state(d: Seq<u8>) -> Option<(u32, Seq<Seq<char>>, LexSeq, Seq<(u32, u32)>)> {
    match rd_u32(d, 0) {
        Some((next_id, p1)) => match rd_u32(d, p1) {
            Some((nr, p2)) => match rd_roots(d, p2, nr as nat) {
                Some((roots, p3)) => match rd_u32(d, p3) {
                    Some((nl, p4)) => match rd_entries(d, p4, nl as nat) {
                        Some((lex, p5)) => Some((next_id, roots, lex, rd_graph(d, p5))),
                        None => None,
                    },
                    None => None,
                },
                None => None,
            },
            None => None,
        },
        None => None,
    }
}

/// The lexicon after inserting the entries in order.
pub open spec fn insert_entries(s: LexSeq, es: LexSeq) -> LexSeq
    decreases es.len(),
{
    if es.len() == 0 {
        s
    } else {
        insert_spec(insert_entries(s, es.drop_last()), es.last().0, es.last().1)
    }
}

/// The map after inserting the pairs in order.
pub open spec fn insert_pairs<V>(m: Map<u32, V>, p: Seq<(u32, V)>) -> Map<u32, V>
    decreases p.len(),
{
    if p.len() == 0 {
        m
    } else {
        insert_pairs(m, p.drop_last()).insert(p.last().0, p.last().1)
    }
}

/// What loading a record gives: next id, roots, lexicon and graph.
pub open spec fn loaded_state(d: Seq<u8>) -> Option<(u32, Seq<Seq<char>>, LexSeq, Map<u32, u32>)> {
    match read_state(d) {
        Some((n, r, l, p)) => Some((n, r, insert_entries(Seq::empty(), l), insert_pairs(Map::<u32, u32>::empty(), p))),
        None => None,
    }
}

// ───────────────────────── exec ─────────────────────────

pub(crate) fn push_bytes(data: &mut Vec<u8>, b: &[u8])
    ensures
        final(data)@ == old(data)@ + b@,
{
    let mut i: usize = 0;
    while i < b.len()
        invariant
            i <= b@.len(),
            data@ == old(data)@ + b@.take(i as int),
        decreases b.len() - i,
    {
        data.push(b[i]);
        i += 1;
        assert(data@ =~= old(data)@ + b@.take(i as int));
    }
    assert(b@.take(b@.len() as int) =~= b@);
}

pub(crate) fn push_u32(data: &mut Vec<u8>, x: u32)
    ensures
        final(data)@ == old(data)@ + spec_u32_to_le_bytes(x),
{
    let b = u32_to_le_bytes(x);
    push_bytes(data, b.as_slice());
}

pub(crate) fn push_u16(data: &mut Vec<u8>, x: u16)
    ensures
        final(data)@ == old(data)@ + spec_u16_to_le_bytes(x),
{
    let b = u16_to_le_bytes(x);
    push_bytes(data, b.as_slice());
}

fn push_str_record(data: &mut Vec<u8>, s: &str)
    ensures
        final(data)@ == old(data)@ + str_record(s@),
{
    let b = s.as_bytes();
    push_u32(data, b.len() as u32);
    push_bytes(data, b);
    assert(data@ =~= old(data)@ + str_record(s@));
}

pub(crate) fn get_u32(d: &[u8], p: usize) -> (r: Option<(u32, usize)>)
    ensures
        match rd_u32(d@, p as int) {
            Some((x, q)) => r == Some((x, q as usize)),
            None => r is None,
        },
{
    let n = d.len();
    if p <= n && 4 <= n - p {
        let x = u32_from_le_bytes(vstd::slice::slice_subrange(d, p, p + 4));
        Some((x, p + 4))
    } else {
        None
    }
}

fn get_str(d: &[u8], p: usize) -> (r: Option<(String, usize)>)
    ensures
        match rd_str(d@, p as int) {
            Some((s, q)) => r matches Some((t, q2)) && t@ == s && q2 == q,
            None => r is None,
        },
{
    let n = d.len();
    match get_u32(d, p) {
        Some((len, q)) => {
            let len = len as usize;
            if len <= n - q {
                let b = vstd::slice::slice_to_vec(vstd::slice::slice_subrange(d, q, q + len));
                let s = match utf8_string(b) {
                    Some(s) => s,
                    None => String::new(),
                };
                Some((s, q + len))
            } else {
                None
            }
        },
        None => None,
    }
}

fn get_entry(d: &[u8], p: usize) -> (r: Option<((String, LexValue), usize)>)
    requires
        d@.len() + 9 <= usize::MAX,
    ensures
        match rd_entry(d@, p as int) {
            Some((e, q)) => r matches Some((t, q2)) && t.0@ == e.0 && t.1 == e.1 && q2 == q,
            None => r is None,
        },
{
    let n = d.len();
    match get_str(d, p) {
        Some((f, q)) => {
            if q <= n && 7 <= n - q {
                let id = u32_from_le_bytes(vstd::slice::slice_subrange(d, q, q + 4));
                let morph = u16_from_le_bytes(vstd::slice::slice_subrange(d, q + 4, q + 6));
                let class = d[q + 6];
                let style: u16 = if 9 <= n - q {
                    u16_from_le_bytes(vstd::slice::slice_subrange(d, q + 7, q + 9))
                } else {
                    0
                };
                Some(((f, (id, morph, class, style)), q + 9))
            } else {
                None
            }
        },
        None => None,
    }
}

/// Reads a saved record (see `read_state`); `None` where it is cut off
/// before the graph.
pub fn read_state_record(d: &[u8]) -> (r: Option<(u32, Vec<String>, Vec<(String, LexValue)>, Vec<(u32, u32)>)>)
    requires
        d@.len() + 9 <= usize::MAX,
    ensures
        match read_state(d@) {
            Some((next_id, roots, lex, pairs)) => r matches Some((n, rs, ls, ps)) && n == next_id
                && views(rs@) == roots && ls@.map_values(|e: (String, LexValue)| (e.0@, e.1)) == lex
                && ps@ == pairs,
            None => r is None,
        },
{
    let n = d.len();
    let (next_id, p1) = match get_u32(d, 0) {
        Some(x) => x,
        None => return None,
    };
    let (nr, p2) = match get_u32(d, p1) {
        Some(x) => x,
        None => return None,
    };
    let mut roots: Vec<String> = Vec::new();
    let mut p = p2;
    let mut i: u32 = 0;
    while i < nr
        invariant
            i <= nr,
            rd_u32(d@, 0) == Some((next_id, p1 as int)),
            rd_u32(d@, p1 as int) == Some((nr, p2 as int)),
            rd_roots(d@, p2 as int, i as nat) == Some((views(roots@), p as int)),
        decreases nr - i,
    {
        match get_str(d, p) {
            Some((s, q)) => {
                roots.push(s);
                p = q;
            },
            None => {
                proof {
                    lemma_rd_roots_stops(d@, p2 as int, (i + 1) as nat, nr as nat);
                }
                return None;
            },
        }
        i += 1;
        assert(views(roots@) =~= views(roots@).drop_last().push(roots@.last()@));
    }
    let p3 = p;
    let (nl, p4) = match get_u32(d, p3) {
        Some(x) => x,
        None => return None,
    };
    let mut lex: Vec<(String, LexValue)> = Vec::new();
    let mut p = p4;
    let mut i: u32 = 0;
    while i < nl
        invariant
            i <= nl,
            d@.len() + 9 <= usize::MAX,
            rd_u32(d@, 0) == Some((next_id, p1 as int)),
            rd_u32(d@, p1 as int) == Some((nr, p2 as int)),
            rd_roots(d@, p2 as int, nr as nat) == Some((views(roots@), p3 as int)),
            rd_u32(d@, p3 as int) == Some((nl, p4 as int)),
            rd_entries(d@, p4 as int, i as nat) == Some((lex@.map_values(|e: (String, LexValue)| (e.0@, e.1)), p as int)),
        decreases nl - i,
    {
        match get_entry(d, p) {
            Some((e, q)) => {
                lex.push(e);
                p = q;
            },
            None => {
                proof {
                    lemma_rd_entries_stops(d@, p4 as int, (i + 1) as nat, nl as nat);
                }
                return None;
            },
        }
        i += 1;
        assert(lex@.map_values(|e: (String, LexValue)| (e.0@, e.1)) =~= lex@.drop_last().map_values(
            |e: (String, LexValue)| (e.0@, e.1),
        ).push((lex@.last().0@, lex@.last().1)));
    }
    let p5 = p;
    let mut pairs: Vec<(u32, u32)> = Vec::new();
    match get_u32(d, p5) {
        Some((ng, q)) => {
            let mut off = q;
            let mut j: u32 = 0;
            let ghost fit = (n - (p5 + 4)) / 8;
            let ghost cnt = if (ng as int) < fit { ng as int } else { fit };
            while j < ng && off <= n && n - off >= 8
                invariant
                    n == d@.len(),
                    p5 + 4 <= n,
                    q == p5 + 4,
                    rd_u32(d@, p5 as int) == Some((ng, q as int)),
                    fit == (n - (p5 + 4)) / 8,
                    j <= ng,
                    off == p5 + 4 + 8 * j,
                    j <= fit,
                    pairs@ == rd_graph(d@, p5 as int).take(j as int),
                decreases ng - j,
            {
                let k = u32_from_le_bytes(vstd::slice::slice_subrange(d, off, off + 4));
                let v = u32_from_le_bytes(vstd::slice::slice_subrange(d, off + 4, off + 8));
                assert(j < fit);
                pairs.push((k, v));
                assert(pairs@ =~= rd_graph(d@, p5 as int).take(j + 1));
                off += 8;
                j += 1;
            }
            proof {
                if j < ng {
                    assert(j == fit);
                }
                assert(rd_graph(d@, p5 as int).len() == j);
                assert(pairs@ =~= rd_graph(d@, p5 as int));
            }
        },
        None => {
            assert(rd_graph(d@, p5 as int) =~= Seq::<(u32, u32)>::empty());
            assert(pairs@ =~= rd_graph(d@, p5 as int));
        },
    }
    Some((next_id, roots, lex, pairs))
}

proof fn lemma_rd_roots_stops(d: Seq<u8>, p: int, i: nat, n: nat)
    requires
        i <= n,
        rd_roots(d, p, i) is None,
    ensures
        rd_roots(d, p, n) is None,
    decreases n - i,
{
    if i < n {
        lemma_rd_roots_stops(d, p, i + 1, n);
    }
}

proof fn lemma_rd_entries_stops(d: Seq<u8>, p: int, i: nat, n: nat)
    requires
        i <= n,
        rd_entries(d, p, i) is None,
    ensures
        rd_entries(d, p, n) is None,
    decreases n - i,
{
    if i < n {
        lemma_rd_entries_stops(d, p, i + 1, n);
    }
}

} // verus!

verus! {

impl Compiler {
    /// The saved form of the compiler's state (see `state_record`), with the
    /// graph's entries in the order the map yields them.
    pub fn state_bytes(&self) -> (data: Vec<u8>)
        ensures
            exists|pairs: Seq<(u32, u32)>|
                graph_listing(self.graph@, pairs) && data@ == state_record(
                    self.next_id,
                    views(self.roots@),
                    self.lexicon@,
                    pairs,
                ),
    {
        let mut data: Vec<u8> = Vec::new();
        push_u32(&mut data, self.next_id);
        push_u32(&mut data, self.roots.len() as u32);
        let ghost head = data@;
        let mut i: usize = 0;
        while i < self.roots.len()
            invariant
                i <= self.roots@.len(),
                data@ == head + roots_record(views(self.roots@).take(i as int)),
            decreases self.roots.len() - i,
        {
            assert(views(self.roots@).take(i + 1).drop_last() =~= views(self.roots@).take(i as int));
            push_str_record(&mut data, self.roots[i].as_str());
            i += 1;
            assert(data@ =~= head + roots_record(views(self.roots@).take(i as int)));
        }
        assert(views(self.roots@).take(i as int) =~= views(self.roots@));
        push_u32(&mut data, self.lexicon.len() as u32);
        let ghost head2 = data@;
        let mut i: usize = 0;
        while i < self.lexicon.len()
            invariant
                i <= self.lexicon@.len(),
                data@ == head2 + entries_record(self.lexicon@.take(i as int)),
            decreases self.lexicon@.len() - i,
        {
            assert(self.lexicon@.take(i + 1).drop_last() =~= self.lexicon@.take(i as int));
            let (form, v) = self.lexicon.entry(i);
            push_str_record(&mut data, form.as_str());
            push_u32(&mut data, v.0);
            push_u16(&mut data, v.1);
            data.push(v.2);
            push_u16(&mut data, v.3);
            i += 1;
            assert(data@ =~= head2 + entries_record(self.lexicon@.take(i as int)));
        }
        assert(self.lexicon@.take(i as int) =~= self.lexicon@);
        push_u32(&mut data, self.graph.len() as u32);
        let ghost head3 = data@;
        let ghost mut pairs: Seq<(u32, u32)> = Seq::empty();
        let ghost rem = vstd::std_specs::hash::spec_hash_map_iter(&self.graph).remaining();
        for kv in it: self.graph.iter()
            invariant
                it.seq() == rem,
                data@ == head3 + pairs_record(pairs),
                pairs.len() == it.index(),
                forall|j: int| 0 <= j < pairs.len() ==> pairs[j] == (*it.seq()[j].0, *it.seq()[j].1),
        {
            let (k, v) = kv;
            push_u32(&mut data, *k);
            push_u32(&mut data, *v);
            proof {
                let old_pairs = pairs;
                pairs = pairs.push((*k, *v));
                assert(pairs.drop_last() =~= old_pairs);
            }
            assert(data@ =~= head3 + pairs_record(pairs));
        }
        proof {
            let g = self.graph@;
            assert(pairs.len() == rem.len());
            assert forall|j: int| 0 <= j < pairs.len() implies g.contains_key(#[trigger] pairs[j].0)
                && g[pairs[j].0] == pairs[j].1 by {
                assert(g.contains_key(*rem[j].0));
            }
            assert forall|k: u32| g.contains_key(k) implies exists|j: int| 0 <= j < pairs.len() && #[trigger] pairs[j].0 == k by {
                assert(rem.contains((&k, &g[k])));
                let j = choose|j: int| 0 <= j < rem.len() && rem[j] == (&k, &g[k]);
                assert(pairs[j].0 == k);
            }
            assert(rem.no_duplicates());
            assert forall|a: int, b: int| 0 <= a < b < pairs.len() implies #[trigger] pairs[a].0 != #[trigger] pairs[b].0 by {
                if pairs[a].0 == pairs[b].0 {
                    assert(g.contains_key(*rem[a].0));
                    assert(g.contains_key(*rem[b].0));
                    assert(rem[a] == rem[b]);
                }
            }
            assert(graph_listing(g, pairs));
        }
        data
    }
}

} // verus!

verus! {

impl Compiler {
    /// Replaces the state by a saved record: next id, roots, the entries
    /// inserted in order into an empty lexicon, and the graph entries
    /// inserted in order into an empty graph.
    pub fn load_state_bytes(&mut self, data: &[u8])
        requires
            data@.len() + 9 <= usize::MAX,
            read_state(data@) is Some,
        ensures
            final(self).lexicon.wf(),
            loaded_state(data@) == Some(
                (final(self).next_id, views(final(self).roots@), final(self).lexicon@, final(self).graph@),
            ),
            final(self).base_path == old(self).base_path,
    {
        let (next_id, roots, entries, pairs) = match read_state_record(data) {
            Some(r) => r,
            None => {
                return;
            },
        };
        let ghost es = entries@.map_values(|e: (String, LexValue)| (e.0@, e.1));
        let mut lexicon = Lexicon::new();
        let mut i: usize = 0;
        assert(es.take(0) =~= Seq::<(Seq<char>, LexValue)>::empty());
        while i < entries.len()
            invariant
                i <= entries@.len(),
                es == entries@.map_values(|e: (String, LexValue)| (e.0@, e.1)),
                lexicon.wf(),
                lexicon@ == insert_entries(Seq::empty(), es.take(i as int)),
            decreases entries.len() - i,
        {
            assert(es.take(i + 1).drop_last() =~= es.take(i as int));
            let (f, v) = &entries[i];
            lexicon.insert(f.clone(), *v);
            i += 1;
        }
        assert(es.take(i as int) =~= es);
        let mut graph: HashMap<u32, u32> = HashMap::new();
        let mut j: usize = 0;
        assert(pairs@.take(0) =~= Seq::<(u32, u32)>::empty());
        while j < pairs.len()
            invariant
                j <= pairs@.len(),
                graph@ == insert_pairs(Map::empty(), pairs@.take(j as int)),
            decreases pairs.len() - j,
        {
            assert(pairs@.take(j + 1).drop_last() =~= pairs@.take(j as int));
            let (k, v) = pairs[j];
            graph.insert(k, v);
            j += 1;
        }
        assert(pairs@.take(j as int) =~= pairs@);
        self.next_id = next_id;
        self.roots = roots;
        self.lexicon = lexicon;
        self.graph = graph;
    }
}

// ───────────────────────── the round trip ─────────────────────────

proof fn lemma_rd_u32_at(d: Seq<u8>, p: int, x: u32)
    requires
        0 <= p,
        p + 4 <= d.len(),
        d.subrange(p, p + 4) == spec_u32_to_le_bytes(x),
    ensures
        rd_u32(d, p) == Some((x, p + 4)),
{
    vstd::bytes::lemma_auto_spec_u32_to_from_le_bytes();
    assert(spec_u32_to_le_bytes(x).len() == 4);
    assert(spec_u32_from_le_bytes(spec_u32_to_le_bytes(x)) == x);
    assert(spec_u32_from_le_bytes(d.subrange(p, p + 4)) == x);
}

proof fn lemma_rd_str_at(d: Seq<u8>, p: int, s: Seq<char>)
    requires
        0 <= p,
        encode_utf8(s).len() <= u32::MAX,
        p + str_record(s).len() <= d.len(),
        d.subrange(p, p + str_record(s).len()) == str_record(s),
    ensures
        rd_str(d, p) == Some((s, p + str_record(s).len())),
{
    vstd::bytes::lemma_auto_spec_u32_to_from_le_bytes();
    let b = encode_utf8(s);
    assert(spec_u32_to_le_bytes(b.len() as u32).len() == 4);
    assert(d.subrange(p, p + 4) =~= str_record(s).subrange(0, 4));
    assert(str_record(s).subrange(0, 4) =~= spec_u32_to_le_bytes(b.len() as u32));
    lemma_rd_u32_at(d, p, b.len() as u32);
    assert(d.subrange(p + 4, p + 4 + b.len()) =~= str_record(s).subrange(4, 4 + b.len() as int));
    assert(str_record(s).subrange(4, 4 + b.len() as int) =~= b);
    vstd::utf8::encode_utf8_valid_utf8(s);
    vstd::utf8::encode_utf8_decode_utf8(s);
}

proof fn lemma_rd_roots_at(d: Seq<u8>, p: int, r: Seq<Seq<char>>)
    requires
        0 <= p,
        forall|i: int| 0 <= i < r.len() ==> encode_utf8(#[trigger] r[i]).len() <= u32::MAX,
        p + roots_record(r).len() <= d.len(),
        d.subrange(p, p + roots_record(r).len()) == roots_record(r),
    ensures
        rd_roots(d, p, r.len()) == Some((r, p + roots_record(r).len())),
    decreases r.len(),
{
    if r.len() > 0 {
        let a = roots_record(r.drop_last());
        let b = str_record(r.last());
        assert(roots_record(r) =~= a + b);
        let w = d.subrange(p, p + roots_record(r).len());
        assert forall|i: int| 0 <= i < a.len() implies #[trigger] d.subrange(p, p + a.len())[i] == a[i] by {
            assert(w[i] == d[p + i]);
        }
        assert(d.subrange(p, p + a.len()) =~= a);
        assert forall|i: int| 0 <= i < b.len() implies #[trigger] d.subrange(p + a.len(), p + a.len() + b.len())[i] == b[i] by {
            assert(w[a.len() + i] == d[p + a.len() + i]);
            assert(w[a.len() + i] == b[i]);
        }
        assert(d.subrange(p + a.len(), p + a.len() + b.len()) =~= b);
        assert forall|i: int| 0 <= i < r.drop_last().len() implies encode_utf8(#[trigger] r.drop_last()[i]).len() <= u32::MAX by {
            assert(r.drop_last()[i] == r[i]);
        }
        lemma_rd_roots_at(d, p, r.drop_last());
        assert(d.subrange(p + a.len(), p + a.len() + b.len()) =~= d.subrange(p, p + roots_record(r).len()).subrange(
            a.len() as int,
            a.len() as int + b.len(),
        ));
        assert(encode_utf8(r[r.len() - 1]).len() <= u32::MAX);
        lemma_rd_str_at(d, p + a.len(), r.last());
        assert(r.drop_last().push(r.last()) =~= r);
    }
}

proof fn lemma_rd_entry_at(d: Seq<u8>, p: int, e: (Seq<char>, LexValue))
    requires
        0 <= p,
        encode_utf8(e.0).len() <= u32::MAX,
        p + entry_record(e).len() <= d.len(),
        d.subrange(p, p + entry_record(e).len()) == entry_record(e),
    ensures
        rd_entry(d, p) == Some((e, p + entry_record(e).len())),
{
    vstd::bytes::lemma_auto_spec_u32_to_from_le_bytes();
    vstd::bytes::lemma_auto_spec_u16_to_from_le_bytes();
    let s = str_record(e.0);
    let sl = s.len() as int;
    let q = p + sl;
    let rec = entry_record(e);
    assert(d.subrange(p, q) =~= rec.subrange(0, sl));
    assert(rec.subrange(0, sl) =~= s);
    lemma_rd_str_at(d, p, e.0);
    assert(rec.len() == s.len() + 9);
    assert(d.subrange(q, q + 4) =~= rec.subrange(sl, sl + 4));
    assert(rec.subrange(sl, sl + 4) =~= spec_u32_to_le_bytes(e.1.0));
    assert(d.subrange(q + 4, q + 6) =~= rec.subrange(sl + 4, sl + 6));
    assert(rec.subrange(sl + 4, sl + 6) =~= spec_u16_to_le_bytes(e.1.1));
    assert(d[q + 6] == rec[sl + 6]);
    assert(d.subrange(q + 7, q + 9) =~= rec.subrange(sl + 7, sl + 9));
    assert(rec.subrange(sl + 7, sl + 9) =~= spec_u16_to_le_bytes(e.1.3));
}

proof fn lemma_rd_entries_at(d: Seq<u8>, p: int, l: LexSeq)
    requires
        0 <= p,
        forall|i: int| 0 <= i < l.len() ==> encode_utf8(#[trigger] l[i].0).len() <= u32::MAX,
        p + entries_record(l).len() <= d.len(),
        d.subrange(p, p + entries_record(l).len()) == entries_record(l),
    ensures
        rd_entries(d, p, l.len()) == Some((l, p + entries_record(l).len())),
    decreases l.len(),
{
    if l.len() > 0 {
        let a = entries_record(l.drop_last());
        let b = entry_record(l.last());
        assert(entries_record(l) =~= a + b);
        let w = d.subrange(p, p + entries_record(l).len());
        assert forall|i: int| 0 <= i < a.len() implies #[trigger] d.subrange(p, p + a.len())[i] == a[i] by {
            assert(w[i] == d[p + i]);
        }
        assert(d.subrange(p, p + a.len()) =~= a);
        assert forall|i: int| 0 <= i < b.len() implies #[trigger] d.subrange(p + a.len(), p + a.len() + b.len())[i] == b[i] by {
            assert(w[a.len() + i] == d[p + a.len() + i]);
            assert(w[a.len() + i] == b[i]);
        }
        assert(d.subrange(p + a.len(), p + a.len() + b.len()) =~= b);
        assert forall|i: int| 0 <= i < l.drop_last().len() implies encode_utf8(#[trigger] l.drop_last()[i].0).len() <= u32::MAX by {
            assert(l.drop_last()[i] == l[i]);
        }
        lemma_rd_entries_at(d, p, l.drop_last());
        assert(d.subrange(p + a.len(), p + a.len() + b.len()) =~= d.subrange(p, p + entries_record(l).len()).subrange(
            a.len() as int,
            a.len() as int + b.len(),
        ));
        assert(encode_utf8(l[l.len() - 1].0).len() <= u32::MAX);
        lemma_rd_entry_at(d, p + a.len(), l.last());
        assert(l.drop_last().push(l.last()) =~= l);
    }
}

pub proof fn lemma_pairs_record_layout(ps: Seq<(u32, u32)>)
    ensures
        pairs_record(ps).len() == 8 * ps.len(),
        forall|i: int|
            0 <= i < ps.len() ==> pairs_record(ps).subrange(8 * i, 8 * i + 4) == spec_u32_to_le_bytes(
                #[trigger] ps[i].0,
            ) && pairs_record(ps).subrange(8 * i + 4, 8 * i + 8) == spec_u32_to_le_bytes(ps[i].1),
    decreases ps.len(),
{
    vstd::bytes::lemma_auto_spec_u32_to_from_le_bytes();
    if ps.len() > 0 {
        let q = ps.drop_last();
        lemma_pairs_record_layout(q);
        let r = pairs_record(ps);
        let n = q.len() as int;
        assert forall|i: int| 0 <= i < ps.len() implies r.subrange(8 * i, 8 * i + 4) == spec_u32_to_le_bytes(
            #[trigger] ps[i].0,
        ) && r.subrange(8 * i + 4, 8 * i + 8) == spec_u32_to_le_bytes(ps[i].1) by {
            if i < n {
                assert(r.subrange(8 * i, 8 * i + 4) =~= pairs_record(q).subrange(8 * i, 8 * i + 4));
                assert(r.subrange(8 * i + 4, 8 * i + 8) =~= pairs_record(q).subrange(8 * i + 4, 8 * i + 8));
                assert(q[i] == ps[i]);
            } else {
                assert(r.subrange(8 * i, 8 * i + 4) =~= spec_u32_to_le_bytes(ps.last().0));
                assert(r.subrange(8 * i + 4, 8 * i + 8) =~= spec_u32_to_le_bytes(ps.last().1));
            }
        }
    }
}

#[verifier::spinoff_prover]
proof fn lemma_rd_graph_at(d: Seq<u8>, p: int, ps: Seq<(u32, u32)>)
    requires
        0 <= p,
        ps.len() <= u32::MAX,
        d.len() == p + 4 + 8 * ps.len(),
        d.subrange(p, d.len() as int) == spec_u32_to_le_bytes(ps.len() as u32) + pairs_record(ps),
    ensures
        rd_graph(d, p) == ps,
{
    vstd::bytes::lemma_auto_spec_u32_to_from_le_bytes();
    lemma_pairs_record_layout(ps);
    let t = d.subrange(p, d.len() as int);
    assert(d.subrange(p, p + 4) =~= t.subrange(0, 4));
    assert(t.subrange(0, 4) =~= spec_u32_to_le_bytes(ps.len() as u32));
    let g = rd_graph(d, p);
    assert(g.len() == ps.len());
    assert forall|i: int| 0 <= i < ps.len() implies #[trigger] g[i] == ps[i] by {
        let pr = pairs_record(ps);
        assert forall|j: int| 0 <= j < 4 implies #[trigger] d.subrange(p + 4 + 8 * i, p + 8 + 8 * i)[j]
            == pr.subrange(8 * i, 8 * i + 4)[j] by {
            assert(t[4 + 8 * i + j] == d[p + 4 + 8 * i + j]);
            assert(t[4 + 8 * i + j] == pr[8 * i + j]);
        }
        assert forall|j: int| 0 <= j < 4 implies #[trigger] d.subrange(p + 8 + 8 * i, p + 12 + 8 * i)[j]
            == pr.subrange(8 * i + 4, 8 * i + 8)[j] by {
            assert(t[8 + 8 * i + j] == d[p + 8 + 8 * i + j]);
            assert(t[8 + 8 * i + j] == pr[8 * i + 4 + j]);
        }
        assert(d.subrange(p + 4 + 8 * i, p + 8 + 8 * i) =~= pr.subrange(8 * i, 8 * i + 4));
        assert(d.subrange(p + 8 + 8 * i, p + 12 + 8 * i) =~= pr.subrange(8 * i + 4, 8 * i + 8));
    }
    assert(g =~= ps);
}

proof fn lemma_insert_entries_distinct(l: LexSeq)
    requires
        distinct_forms(l),
    ensures
        insert_entries(Seq::empty(), l) == l,
    decreases l.len(),
{
    if l.len() > 0 {
        let q = l.drop_last();
        assert(distinct_forms(q)) by {
            assert forall|i: int, j: int| 0 <= i < j < q.len() implies #[trigger] q[i].0 != #[trigger] q[j].0 by {
                assert(q[i] == l[i] && q[j] == l[j]);
            }
        }
        lemma_insert_entries_distinct(q);
        assert(index_of_form(q, l.last().0) is None) by {
            if exists|i: int| 0 <= i < q.len() && #[trigger] q[i].0 == l.last().0 {
                let i = choose|i: int| 0 <= i < q.len() && #[trigger] q[i].0 == l.last().0;
                assert(l[i].0 != l[l.len() - 1].0);
            }
        }
        assert(q.push(l.last()) =~= l);
    }
}

proof fn lemma_insert_pairs_keys<V>(p: Seq<(u32, V)>, k: u32)
    ensures
        insert_pairs(Map::<u32, V>::empty(), p).contains_key(k) <==> exists|i: int| 0 <= i < p.len() && #[trigger] p[i].0 == k,
    decreases p.len(),
{
    if p.len() > 0 {
        lemma_insert_pairs_keys(p.drop_last(), k);
        if exists|i: int| 0 <= i < p.len() && #[trigger] p[i].0 == k {
            let i = choose|i: int| 0 <= i < p.len() && #[trigger] p[i].0 == k;
            if i < p.len() - 1 {
                assert(p.drop_last()[i].0 == k);
            }
        }
        if exists|i: int| 0 <= i < p.drop_last().len() && #[trigger] p.drop_last()[i].0 == k {
            let i = choose|i: int| 0 <= i < p.drop_last().len() && #[trigger] p.drop_last()[i].0 == k;
            assert(p[i].0 == k);
        }
    }
}

proof fn lemma_insert_pairs_value<V>(p: Seq<(u32, V)>, i: int)
    requires
        0 <= i < p.len(),
        forall|a: int, b: int| 0 <= a < b < p.len() ==> #[trigger] p[a].0 != #[trigger] p[b].0,
    ensures
        insert_pairs(Map::<u32, V>::empty(), p)[p[i].0] == p[i].1,
    decreases p.len(),
{
    if i < p.len() - 1 {
        let q = p.drop_last();
        assert(p[i].0 != p[p.len() - 1].0);
        assert(q[i] == p[i]);
        lemma_insert_pairs_value(q, i);
    }
}

/// Loading what was saved gives back the state: the next id, the roots,
/// the lexicon (whose forms are distinct) and the graph, for any order in
/// which the graph's entries were written, as long as every count and
/// string length fits the record's `u32` fields.
pub proof fn lemma_state_roundtrip(
    next_id: u32,
    roots: Seq<Seq<char>>,
    lex: LexSeq,
    g: Map<u32, u32>,
    pairs: Seq<(u32, u32)>,
)
    requires
        distinct_forms(lex),
        graph_listing(g, pairs),
        roots.len() <= u32::MAX,
        forall|i: int| 0 <= i < roots.len() ==> encode_utf8(#[trigger] roots[i]).len() <= u32::MAX,
        lex.len() <= u32::MAX,
        forall|i: int| 0 <= i < lex.len() ==> encode_utf8(#[trigger] lex[i].0).len() <= u32::MAX,
        pairs.len() <= u32::MAX,
    ensures
        loaded_state(state_record(next_id, roots, lex, pairs)) == Some((next_id, roots, lex, g)),
{
    vstd::bytes::lemma_auto_spec_u32_to_from_le_bytes();
    let d = state_record(next_id, roots, lex, pairs);
    let rr = roots_record(roots);
    let er = entries_record(lex);
    let p2 = 8int;
    let p3 = p2 + rr.len();
    let p4 = p3 + 4;
    let p5 = p4 + er.len();
    lemma_pairs_record_layout(pairs);
    assert(d.len() == p5 + 4 + 8 * pairs.len());
    assert(d.subrange(0, 4) =~= spec_u32_to_le_bytes(next_id));
    lemma_rd_u32_at(d, 0, next_id);
    assert(d.subrange(4, 8) =~= spec_u32_to_le_bytes(roots.len() as u32));
    lemma_rd_u32_at(d, 4, roots.len() as u32);
    assert(d.subrange(p2, p3) =~= rr);
    lemma_rd_roots_at(d, p2, roots);
    assert(d.subrange(p3, p4) =~= spec_u32_to_le_bytes(lex.len() as u32));
    lemma_rd_u32_at(d, p3, lex.len() as u32);
    assert(d.subrange(p4, p5) =~= er);
    lemma_rd_entries_at(d, p4, lex);
    assert(d.subrange(p5, d.len() as int) =~= spec_u32_to_le_bytes(pairs.len() as u32) + pairs_record(pairs));
    lemma_rd_graph_at(d, p5, pairs);
    lemma_insert_entries_distinct(lex);
    lemma_listing_inserts(g, pairs);
}

/// Inserting a listing of a map, in order, into the empty map gives the map.
pub proof fn lemma_listing_inserts<V>(g: Map<u32, V>, pairs: Seq<(u32, V)>)
    requires
        graph_listing(g, pairs),
    ensures
        insert_pairs(Map::empty(), pairs) == g,
{
    let m = insert_pairs(Map::<u32, V>::empty(), pairs);
    assert forall|k: u32| m.contains_key(k) <==> g.contains_key(k) by {
        lemma_insert_pairs_keys(pairs, k);
        if g.contains_key(k) {
            let i = choose|i: int| 0 <= i < pairs.len() && #[trigger] pairs[i].0 == k;
        }
    }
    assert forall|k: u32| #[trigger] m.contains_key(k) implies m[k] == g[k] by {
        lemma_insert_pairs_keys(pairs, k);
        let i = choose|i: int| 0 <= i < pairs.len() && #[trigger] pairs[i].0 == k;
        lemma_insert_pairs_value(pairs, i);
    }
    assert(m =~= g);
}

} // verus!
