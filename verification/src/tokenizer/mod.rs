//! Byte-pair-encoding tokenizer over a vocabulary and a ranked merge list.
use vstd::prelude::*;
use vstd::utf8::{encode_utf8, encode_scalar, is_ascii_chars};
use crate::text::{bytes_eq, push_str};

verus! {

/// A BPE tokenizer. Each byte of the input starts as the token whose text is
/// that byte; then the adjacent pair with the best (lowest) merge rank is
/// merged, leftmost first, until no adjacent pair has a rank.
pub struct Tokenizer {
    pub vocab: Vec<String>,
    /// The UTF-8 bytes of each entry, as they were when the tokenizer was made.
    pub byte_encoder: Vec<Vec<u8>>,
    /// The merge list; a pair's rank is its position.
    pub merges: Vec<(u32, u32)>,
    pub bos: u32,
    pub eos: u32,
    pub unk: u32,
    pub pad: Option<u32>,
}

/// The position of the last occurrence of `x` in `s`.
pub open spec fn last_index_of<A>(s: Seq<A>, x: A) -> Option<int>
    decreases s.len(),
{
    if s.len() == 0 {
        None
    } else if s.last() == x {
        Some(s.len() - 1)
    } else {
        last_index_of(s.drop_last(), x)
    }
}

/// The UTF-8 bytes of a text.
pub open spec fn str_bytes(s: Seq<char>) -> Seq<u8> {
    encode_utf8(s)
}

/// The UTF-8 bytes of each vocabulary entry.
pub open spec fn vocab_bytes(v: Seq<String>) -> Seq<Seq<u8>> {
    Seq::new(v.len(), |i: int| str_bytes(v[i]@))
}

/// The id of the token whose text is `b`: the last entry with those bytes.
pub open spec fn token_of(enc: Seq<Seq<u8>>, b: Seq<u8>) -> Option<u32> {
    match last_index_of(enc, b) {
        Some(i) => Some(i as u32),
        None => None,
    }
}

/// The rank of a pair: the position of its last occurrence in the merge list.
pub open spec fn rank_of(m: Seq<(u32, u32)>, p: (u32, u32)) -> Option<int> {
    last_index_of(m, p)
}

pub open spec fn pair_at(ids: Seq<u32>, i: int) -> (u32, u32) {
    (ids[i], ids[i + 1])
}

/// Position `i` holds the pair to merge: ranked, with the lowest rank, and the
/// leftmost among those with that rank.
pub open spec fn is_best(ids: Seq<u32>, m: Seq<(u32, u32)>, i: int) -> bool {
    &&& 0 <= i < ids.len() - 1
    &&& rank_of(m, pair_at(ids, i)) is Some
    &&& forall|k: int|
        #![trigger pair_at(ids, k)]
        0 <= k < ids.len() - 1 && rank_of(m, pair_at(ids, k)) is Some ==> {
            let ri = rank_of(m, pair_at(ids, i))->0;
            let rk = rank_of(m, pair_at(ids, k))->0;
            ri < rk || (ri == rk && i <= k)
        }
}

pub open spec fn has_ranked_pair(ids: Seq<u32>, m: Seq<(u32, u32)>) -> bool {
    exists|k: int| 0 <= k < ids.len() - 1 && rank_of(m, #[trigger] pair_at(ids, k)) is Some
}

/// The position of the pair to merge, if any adjacent pair has a rank.
pub open spec fn best_pair(ids: Seq<u32>, m: Seq<(u32, u32)>) -> Option<int> {
    if has_ranked_pair(ids, m) {
        Some(choose|i: int| is_best(ids, m, i))
    } else {
        None
    }
}

/// The token replacing the pair at `i`: the one whose text is the two
/// tokens' texts joined, or else the left token.
pub open spec fn merged_id(ids: Seq<u32>, i: int, enc: Seq<Seq<u8>>, voc: Seq<Seq<u8>>) -> u32 {
    match token_of(enc, voc[ids[i] as int] + voc[ids[i + 1] as int]) {
        Some(t) => t,
        None => ids[i],
    }
}

pub open spec fn merge_at(ids: Seq<u32>, i: int, enc: Seq<Seq<u8>>, voc: Seq<Seq<u8>>) -> Seq<u32> {
    ids.subrange(0, i).push(merged_id(ids, i, enc, voc)) + ids.subrange(i + 2, ids.len() as int)
}

/// Merges repeatedly until no adjacent pair has a rank.
pub open spec fn bpe(ids: Seq<u32>, m: Seq<(u32, u32)>, enc: Seq<Seq<u8>>, voc: Seq<Seq<u8>>) -> Seq<u32>
    decreases ids.len(),
{
    match best_pair(ids, m) {
        Some(i) => if 0 <= i < ids.len() - 1 {
            bpe(merge_at(ids, i, enc, voc), m, enc, voc)
        } else {
            ids
        },
        None => ids,
    }
}

/// Every pair that the merging picks names two vocabulary entries (the
/// merged text is built from their texts).
pub open spec fn bpe_defined(ids: Seq<u32>, m: Seq<(u32, u32)>, enc: Seq<Seq<u8>>, voc: Seq<Seq<u8>>) -> bool
    decreases ids.len(),
{
    match best_pair(ids, m) {
        Some(i) => if 0 <= i < ids.len() - 1 {
            &&& ids[i] < voc.len()
            &&& ids[i + 1] < voc.len()
            &&& bpe_defined(merge_at(ids, i, enc, voc), m, enc, voc)
        } else {
            true
        },
        None => true,
    }
}

/// The initial token of each input byte (`unk` for a byte with no token).
pub open spec fn byte_tokens(bytes: Seq<u8>, enc: Seq<Seq<u8>>, unk: u32) -> Seq<u32> {
    Seq::new(bytes.len(), |i: int| match token_of(enc, seq![bytes[i]]) {
        Some(t) => t,
        None => unk,
    })
}

/// The text of the tokens that name vocabulary entries, in order.
pub open spec fn decode_chars(v: Seq<String>, t: Seq<u32>) -> Seq<char>
    decreases t.len(),
{
    if t.len() == 0 {
        Seq::empty()
    } else {
        decode_chars(v, t.drop_last()) + if t.last() < v.len() {
            v[t.last() as int]@
        } else {
            Seq::empty()
        }
    }
}

proof fn lemma_last_index_step<A>(s: Seq<A>, j: int, x: A)
    requires
        0 < j <= s.len(),
    ensures
        last_index_of(s.subrange(0, j), x) == if s[j - 1] == x {
            Some(j - 1)
        } else {
            last_index_of(s.subrange(0, j - 1), x)
        },
{
    assert(s.subrange(0, j).drop_last() =~= s.subrange(0, j - 1));
}

proof fn lemma_best_unique(ids: Seq<u32>, m: Seq<(u32, u32)>, i: int, j: int)
    requires
        is_best(ids, m, i),
        is_best(ids, m, j),
    ensures
        i == j,
{
    assert(pair_at(ids, i) == pair_at(ids, i));
    assert(pair_at(ids, j) == pair_at(ids, j));
}

proof fn lemma_best_pair(ids: Seq<u32>, m: Seq<(u32, u32)>, i: int)
    requires
        is_best(ids, m, i),
    ensures
        best_pair(ids, m) == Some(i),
{
    assert(rank_of(m, pair_at(ids, i)) is Some);
    assert(has_ranked_pair(ids, m));
    let c = choose|c: int| is_best(ids, m, c);
    lemma_best_unique(ids, m, i, c);
}

/// Merging never lengthens: the ids that come out are at most as many as
/// the ids that went in, and no adjacent pair among them has a merge rank.
pub proof fn lemma_bpe_result(ids: Seq<u32>, m: Seq<(u32, u32)>, enc: Seq<Seq<u8>>, voc: Seq<Seq<u8>>)
    ensures
        bpe(ids, m, enc, voc).len() <= ids.len(),
        !has_ranked_pair(bpe(ids, m, enc, voc), m),
    decreases ids.len(),
{
    match best_pair(ids, m) {
        Some(i) => {
            let c = choose|c: int| is_best(ids, m, c);
            let k = choose|k: int| 0 <= k < ids.len() - 1 && rank_of(m, #[trigger] pair_at(ids, k)) is Some;
            lemma_best_exists(ids, m, k);
            assert(is_best(ids, m, c));
            assert(0 <= i < ids.len() - 1);
            lemma_bpe_result(merge_at(ids, i, enc, voc), m, enc, voc);
        },
        None => {},
    }
}

/// Every character of `s`, as a text of its own, is a vocabulary entry.
pub open spec fn chars_in_vocab(v: Seq<String>, s: Seq<char>) -> bool {
    forall|i: int| #![trigger s[i]] 0 <= i < s.len() ==> exists|k: int| 0 <= k < v.len() && #[trigger] v[k]@ == seq![s[i]]
}

/// Every merge of two vocabulary entries joins into a vocabulary entry.
pub open spec fn merges_closed(v: Seq<String>, m: Seq<(u32, u32)>) -> bool {
    forall|r: int|
        #![trigger m[r]]
        0 <= r < m.len() && m[r].0 < v.len() && m[r].1 < v.len() ==> exists|k: int|
            0 <= k < v.len() && #[trigger] v[k]@ == v[m[r].0 as int]@ + v[m[r].1 as int]@
}

/// A value that occurs is found.
proof fn lemma_last_index_found<A>(s: Seq<A>, x: A, k: int)
    requires
        0 <= k < s.len(),
        s[k] == x,
    ensures
        last_index_of(s, x) is Some,
    decreases s.len(),
{
    if s.last() != x {
        assert(s.drop_last()[k] == x);
        lemma_last_index_found(s.drop_last(), x, k);
    }
}

/// The UTF-8 bytes of a joined text are the two texts' bytes joined.
proof fn lemma_encode_concat(a: Seq<char>, b: Seq<char>)
    ensures
        encode_utf8(a + b) == encode_utf8(a) + encode_utf8(b),
    decreases a.len(),
{
    if a.len() > 0 {
        assert((a + b).drop_first() =~= a.drop_first() + b);
        assert((a + b)[0] == a[0]);
        lemma_encode_concat(a.drop_first(), b);
        assert(encode_scalar(a[0] as u32) + (encode_utf8(a.drop_first()) + encode_utf8(b)) =~= encode_scalar(
            a[0] as u32,
        ) + encode_utf8(a.drop_first()) + encode_utf8(b));
    } else {
        assert(a + b =~= b);
        assert(encode_utf8(a) + encode_utf8(b) =~= encode_utf8(b));
    }
}

/// A vocabulary text is found by its bytes, as a token with that text.
proof fn lemma_token_of_text(v: Seq<String>, t: Seq<char>)
    requires
        v.len() <= 0x1_0000_0000,
        exists|k: int| 0 <= k < v.len() && #[trigger] v[k]@ == t,
    ensures
        token_of(vocab_bytes(v), str_bytes(t)) matches Some(x) && x < v.len() && v[x as int]@ == t,
{
    let enc = vocab_bytes(v);
    let k = choose|k: int| 0 <= k < v.len() && #[trigger] v[k]@ == t;
    assert(enc[k] == str_bytes(t));
    lemma_last_index_found(enc, str_bytes(t), k);
    lemma_last_index_range(enc, str_bytes(t));
    let i = last_index_of(enc, str_bytes(t))->0;
    assert(enc[i] == encode_utf8(v[i]@));
    vstd::utf8::encode_utf8_decode_utf8(v[i]@);
    vstd::utf8::encode_utf8_decode_utf8(t);
    assert(v[i]@ == t);
    assert((i as u32) as int == i);
}

/// Merging tokens that each name a vocabulary entry, when every merge of two
/// entries joins into an entry: every pair picked names two entries, the
/// tokens keep naming entries, and the decoded text stays.
proof fn lemma_bpe_decodes(v: Seq<String>, m: Seq<(u32, u32)>, ids: Seq<u32>)
    requires
        v.len() <= 0x1_0000_0000,
        merges_closed(v, m),
        forall|j: int| 0 <= j < ids.len() ==> #[trigger] ids[j] < v.len(),
    ensures
        bpe_defined(ids, m, vocab_bytes(v), vocab_bytes(v)),
        decode_chars(v, bpe(ids, m, vocab_bytes(v), vocab_bytes(v))) == decode_chars(v, ids),
    decreases ids.len(),
{
    let enc = vocab_bytes(v);
    match best_pair(ids, m) {
        Some(i) => {
            if 0 <= i < ids.len() - 1 {
                let k = choose|k: int| 0 <= k < ids.len() - 1 && rank_of(m, #[trigger] pair_at(ids, k)) is Some;
                lemma_best_exists(ids, m, k);
                assert(is_best(ids, m, i));
                lemma_last_index_range(m, pair_at(ids, i));
                let r = rank_of(m, pair_at(ids, i))->0;
                assert(m[r] == pair_at(ids, i));
                let a = ids[i];
                let b = ids[i + 1];
                assert(a < v.len() && b < v.len());
                let joined = v[a as int]@ + v[b as int]@;
                assert(exists|q: int| 0 <= q < v.len() && #[trigger] v[q]@ == joined);
                lemma_token_of_text(v, joined);
                lemma_encode_concat(v[a as int]@, v[b as int]@);
                assert(enc[a as int] + enc[b as int] == str_bytes(joined));
                let t = merged_id(ids, i, enc, enc);
                assert(t < v.len() && v[t as int]@ == joined);
                let ids2 = merge_at(ids, i, enc, enc);
                let pre = ids.subrange(0, i);
                let post = ids.subrange(i + 2, ids.len() as int);
                assert(ids =~= pre + seq![a, b] + post);
                assert(ids2 =~= pre + seq![t] + post);
                assert forall|j: int| 0 <= j < ids2.len() implies #[trigger] ids2[j] < v.len() by {
                    if j < i {
                        assert(ids2[j] == ids[j]);
                    } else if j > i {
                        assert(ids2[j] == ids[j + 1]);
                    }
                }
                lemma_decode_concat(v, pre + seq![a, b], post);
                lemma_decode_concat(v, pre, seq![a, b]);
                lemma_decode_concat(v, pre + seq![t], post);
                lemma_decode_concat(v, pre, seq![t]);
                assert(seq![a, b].drop_last() =~= seq![a]);
                assert(seq![a].drop_last() =~= Seq::<u32>::empty());
                assert(seq![t].drop_last() =~= Seq::<u32>::empty());
                assert(decode_chars(v, Seq::<u32>::empty()) =~= Seq::<char>::empty());
                assert(seq![a].last() == a && seq![a, b].last() == b && seq![t].last() == t);
                assert(decode_chars(v, seq![a]) =~= v[a as int]@);
                assert(decode_chars(v, seq![a, b]) =~= joined);
                assert(decode_chars(v, seq![t]) =~= joined);
                lemma_bpe_decodes(v, m, ids2);
            }
        },
        None => {},
    }
}

/// Decoding tokens that each name the text of one character gives those
/// characters.
proof fn lemma_decode_singletons(v: Seq<String>, ids: Seq<u32>, s: Seq<char>, n: int)
    requires
        ids.len() == s.len(),
        0 <= n <= s.len(),
        forall|j: int| 0 <= j < ids.len() ==> #[trigger] ids[j] < v.len() && v[ids[j] as int]@ == seq![s[j]],
    ensures
        decode_chars(v, ids.take(n)) == s.take(n),
    decreases n,
{
    if n > 0 {
        assert(ids.take(n).drop_last() =~= ids.take(n - 1));
        lemma_decode_singletons(v, ids, s, n - 1);
        assert(ids.take(n).last() == ids[n - 1]);
        assert(s.take(n - 1) + seq![s[n - 1]] =~= s.take(n));
    } else {
        assert(s.take(0) =~= Seq::<char>::empty());
    }
}

/// Decoding what was encoded gives the text back: for an ASCII text each of
/// whose characters is a vocabulary entry, when every merge of two entries
/// joins into an entry, the merging of the text's byte tokens is defined
/// and decodes to the text (`Tokenizer::new` sets the encoder to the
/// vocabulary's bytes and `unk` to 0).
pub proof fn lemma_decode_encode(v: Seq<String>, m: Seq<(u32, u32)>, s: Seq<char>)
    requires
        v.len() <= 0x1_0000_0000,
        is_ascii_chars(s),
        chars_in_vocab(v, s),
        merges_closed(v, m),
    ensures
        bpe_defined(byte_tokens(str_bytes(s), vocab_bytes(v), 0), m, vocab_bytes(v), vocab_bytes(v)),
        decode_chars(v, bpe(byte_tokens(str_bytes(s), vocab_bytes(v), 0), m, vocab_bytes(v), vocab_bytes(v))) == s,
{
    let enc = vocab_bytes(v);
    let bytes = str_bytes(s);
    vstd::utf8::is_ascii_chars_encode_utf8(s);
    let ids = byte_tokens(bytes, enc, 0);
    assert forall|j: int| 0 <= j < ids.len() implies #[trigger] ids[j] < v.len() && v[ids[j] as int]@ == seq![s[j]] by {
        let c = seq![s[j]];
        assert(is_ascii_chars(c));
        vstd::utf8::is_ascii_chars_encode_utf8(c);
        assert(encode_utf8(c) =~= seq![bytes[j]]);
        assert(exists|k: int| 0 <= k < v.len() && #[trigger] v[k]@ == c);
        lemma_token_of_text(v, c);
    }
    lemma_decode_singletons(v, ids, s, s.len() as int);
    assert(ids.take(s.len() as int) =~= ids);
    assert(s.take(s.len() as int) =~= s);
    lemma_bpe_decodes(v, m, ids);
}

/// A found position lies in the sequence and holds the value.
proof fn lemma_last_index_range<A>(s: Seq<A>, x: A)
    ensures
        last_index_of(s, x) matches Some(i) ==> 0 <= i < s.len() && s[i] == x,
    decreases s.len(),
{
    if s.len() > 0 && s.last() != x {
        lemma_last_index_range(s.drop_last(), x);
    }
}

/// When some adjacent pair has a rank, one of them is the pair to merge.
proof fn lemma_best_exists(ids: Seq<u32>, m: Seq<(u32, u32)>, k: int)
    requires
        0 <= k < ids.len() - 1,
        rank_of(m, pair_at(ids, k)) is Some,
    ensures
        exists|i: int| is_best(ids, m, i),
    decreases (rank_of(m, pair_at(ids, k))->0) * ids.len() + k,
{
    lemma_last_index_range(m, pair_at(ids, k));
    let rk = rank_of(m, pair_at(ids, k))->0;
    if exists|q: int|
        #![trigger pair_at(ids, q)]
        0 <= q < ids.len() - 1 && rank_of(m, pair_at(ids, q)) is Some && (
        rank_of(m, pair_at(ids, q))->0 < rk || (rank_of(m, pair_at(ids, q))->0 == rk && q < k)) {
        let q = choose|q: int|
            #![trigger pair_at(ids, q)]
            0 <= q < ids.len() - 1 && rank_of(m, pair_at(ids, q)) is Some && (
            rank_of(m, pair_at(ids, q))->0 < rk || (rank_of(m, pair_at(ids, q))->0 == rk && q < k));
        lemma_last_index_range(m, pair_at(ids, q));
        let rq = rank_of(m, pair_at(ids, q))->0;
        let n = ids.len() as int;
        assert(rq * n + q < rk * n + k) by (nonlinear_arith)
            requires
                0 <= rq,
                0 <= q < n,
                0 <= k,
                rq < rk || (rq == rk && q < k),
        {
            if rq < rk {
                assert(rq * n + n <= rk * n);
            }
        }
        assert(0 <= rq * n + q) by (nonlinear_arith)
            requires
                0 <= rq,
                0 <= q,
                0 <= n,
        ;
        lemma_best_exists(ids, m, q);
    } else {
        assert(is_best(ids, m, k));
    }
}

/// Decoding a concatenation gives the concatenation of the decodings.
pub proof fn lemma_decode_concat(v: Seq<String>, a: Seq<u32>, b: Seq<u32>)
    ensures
        decode_chars(v, a + b) == decode_chars(v, a) + decode_chars(v, b),
    decreases b.len(),
{
    if b.len() == 0 {
        assert(a + b =~= a);
        assert(decode_chars(v, a) + decode_chars(v, b) =~= decode_chars(v, a));
    } else {
        assert((a + b).drop_last() =~= a + b.drop_last());
        lemma_decode_concat(v, a, b.drop_last());
        let tail = if b.last() < v.len() { v[b.last() as int]@ } else { Seq::<char>::empty() };
        assert(decode_chars(v, a) + decode_chars(v, b.drop_last()) + tail =~= decode_chars(v, a) + (
        decode_chars(v, b.drop_last()) + tail));
    }
}

impl Tokenizer {
    /// The byte strings the tokenizer looks tokens up by, one per id.
    pub open spec fn encoder(&self) -> Seq<Seq<u8>> {
        Seq::new(self.byte_encoder@.len(), |i: int| self.byte_encoder@[i]@)
    }

    /// The merge list; a pair's rank is its position.
    pub open spec fn merge_list(&self) -> Seq<(u32, u32)> {
        self.merges@
    }

    /// Every id of the encoder fits in a `u32`.
    pub open spec fn wf(&self) -> bool {
        self.byte_encoder@.len() <= 0x1_0000_0000
    }

    /// A tokenizer over `vocab` (token `i` has text `vocab[i]`) whose merge
    /// ranks are the positions in `merges_raw`; `bos` 1, `eos` 2, `unk` 0.
    pub fn new(vocab: Vec<String>, merges_raw: Vec<(u32, u32)>) -> (t: Self)
        requires
            vocab@.len() <= 0x1_0000_0000,
        ensures
            t.wf(),
            t.vocab@ == vocab@,
            t.encoder() == vocab_bytes(vocab@),
            t.merge_list() == merges_raw@,
            t.bos == 1,
            t.eos == 2,
            t.unk == 0,
            t.pad is None,
    {
        let mut byte_encoder: Vec<Vec<u8>> = Vec::new();
        let mut i: usize = 0;
        while i < vocab.len()
            invariant
                i <= vocab@.len(),
                byte_encoder@.len() == i,
                forall|k: int| 0 <= k < i ==> #[trigger] byte_encoder@[k]@ == str_bytes(vocab@[k]@),
            decreases vocab.len() - i,
        {
            let b = vocab[i].as_str().as_bytes();
            byte_encoder.push(vstd::slice::slice_to_vec(b));
            i += 1;
        }
        let t = Tokenizer { vocab, byte_encoder, merges: merges_raw, bos: 1, eos: 2, unk: 0, pad: None };
        assert(t.encoder() =~= vocab_bytes(t.vocab@));
        t
    }

    /// The id of the token whose text is `key` (the last such entry).
    fn find_token(&self, key: &[u8]) -> (r: Option<u32>)
        requires
            self.wf(),
        ensures
            r == token_of(self.encoder(), key@),
    {
        let ghost enc = self.encoder();
        let mut j: usize = self.byte_encoder.len();
        assert(enc.subrange(0, j as int) =~= enc);
        while j > 0
            invariant
                enc == self.encoder(),
                j <= enc.len(),
                enc.len() == self.byte_encoder@.len(),
                enc.len() <= 0x1_0000_0000,
                last_index_of(enc, key@) == last_index_of(enc.subrange(0, j as int), key@),
            decreases j,
        {
            proof {
                lemma_last_index_step(enc, j as int, key@);
            }
            if bytes_eq(self.byte_encoder[j - 1].as_slice(), key) {
                return Some((j - 1) as u32);
            }
            j -= 1;
        }
        None
    }

    /// The rank of the pair `(a, b)` (its last position in the merge list).
    fn rank(&self, a: u32, b: u32) -> (r: Option<usize>)
        ensures
            match r {
                Some(k) => rank_of(self.merge_list(), (a, b)) == Some(k as int),
                None => rank_of(self.merge_list(), (a, b)) is None,
            },
    {
        let ghost m = self.merges@;
        let mut j: usize = self.merges.len();
        assert(m.subrange(0, j as int) =~= m);
        while j > 0
            invariant
                m == self.merges@,
                j <= m.len(),
                last_index_of(m, (a, b)) == last_index_of(m.subrange(0, j as int), (a, b)),
            decreases j,
        {
            proof {
                lemma_last_index_step(m, j as int, (a, b));
            }
            let p = self.merges[j - 1];
            if p.0 == a && p.1 == b {
                assert(m[j - 1] == (a, b));
                return Some(j - 1);
            }
            j -= 1;
        }
        None
    }

    /// The position of the pair to merge next, if any.
    fn best_index(&self, ids: &Vec<u32>) -> (r: Option<usize>)
        ensures
            match r {
                Some(i) => is_best(ids@, self.merge_list(), i as int),
                None => !has_ranked_pair(ids@, self.merge_list()),
            },
    {
        let ghost m = self.merge_list();
        let n = ids.len();
        let last = if n == 0 { 0 } else { n - 1 };
        let mut best: Option<(usize, usize)> = None;
        let mut k: usize = 0;
        while k < last
            invariant
                m == self.merge_list(),
                n == ids@.len(),
                last == if n == 0 { 0 } else { n - 1 },
                k <= last,
                match best {
                    None => forall|q: int| 0 <= q < k ==> rank_of(m, #[trigger] pair_at(ids@, q)) is None,
                    Some((b, rb)) => {
                        &&& b < k
                        &&& rank_of(m, pair_at(ids@, b as int)) == Some(rb as int)
                        &&& forall|q: int|
                            #![trigger pair_at(ids@, q)]
                            0 <= q < k && rank_of(m, pair_at(ids@, q)) is Some ==> {
                                let rq = rank_of(m, pair_at(ids@, q))->0;
                                rb < rq || (rb == rq && b <= q)
                            }
                    },
                },
            decreases last - k,
        {
            let r = self.rank(ids[k], ids[k + 1]);
            assert(pair_at(ids@, k as int) == (ids@[k as int], ids@[k + 1]));
            match r {
                Some(rk) => {
                    match best {
                        None => {
                            best = Some((k, rk));
                        },
                        Some((b, rb)) => {
                            if rk < rb {
                                best = Some((k, rk));
                            }
                        },
                    }
                },
                None => {},
            }
            k += 1;
        }
        match best {
            None => {
                assert forall|q: int| 0 <= q < ids@.len() - 1 implies rank_of(m, #[trigger] pair_at(ids@, q)) is None by {
                    assert(q < k);
                }
                None
            },
            Some((b, rb)) => Some(b),
        }
    }

    /// The token replacing the pair `(a, b)`: the one whose text is both
    /// texts joined, else `a`.
    fn merged_token(&self, a: u32, b: u32) -> (t: u32)
        requires
            self.wf(),
            a < self.vocab@.len(),
            b < self.vocab@.len(),
        ensures
            t == match token_of(
                self.encoder(),
                vocab_bytes(self.vocab@)[a as int] + vocab_bytes(self.vocab@)[b as int],
            ) {
                Some(x) => x,
                None => a,
            },
    {
        let left = self.vocab[a as usize].as_str().as_bytes();
        let right = self.vocab[b as usize].as_str().as_bytes();
        let mut joined: Vec<u8> = Vec::new();
        let mut i: usize = 0;
        while i < left.len()
            invariant
                i <= left@.len(),
                joined@ == left@.subrange(0, i as int),
            decreases left.len() - i,
        {
            joined.push(left[i]);
            i += 1;
        }
        let mut j: usize = 0;
        while j < right.len()
            invariant
                j <= right@.len(),
                joined@ == left@ + right@.subrange(0, j as int),
            decreases right.len() - j,
        {
            joined.push(right[j]);
            j += 1;
        }
        assert(joined@ =~= vocab_bytes(self.vocab@)[a as int] + vocab_bytes(self.vocab@)[b as int]);
        match self.find_token(joined.as_slice()) {
            Some(x) => x,
            None => a,
        }
    }

    /// The first token of each byte: the byte's own token, or `unk`.
    fn byte_pass(&self, bytes: &[u8]) -> (pieces: Vec<u32>)
        requires
            self.wf(),
        ensures
            pieces@ == byte_tokens(bytes@, self.encoder(), self.unk),
    {
        let ghost enc = self.encoder();
        let ghost init = byte_tokens(bytes@, enc, self.unk);
        let mut pieces: Vec<u32> = Vec::new();
        let mut i: usize = 0;
        while i < bytes.len()
            invariant
                self.wf(),
                enc == self.encoder(),
                init == byte_tokens(bytes@, enc, self.unk),
                i <= bytes@.len(),
                pieces@ == init.subrange(0, i as int),
            decreases bytes.len() - i,
        {
            let mut key: Vec<u8> = Vec::new();
            key.push(bytes[i]);
            assert(key@ =~= seq![bytes@[i as int]]);
            let t = match self.find_token(key.as_slice()) {
                Some(t) => t,
                None => self.unk,
            };
            pieces.push(t);
            i += 1;
            assert(pieces@ =~= init.subrange(0, i as int));
        }
        assert(pieces@ =~= init);
        pieces
    }

    /// Merges the best-ranked adjacent pair until none has a rank; `None`
    /// where a pair that the merging picks holds an id outside the
    /// vocabulary.
    fn merge_run(&self, start: Vec<u32>) -> (r: Option<Vec<u32>>)
        requires
            self.wf(),
        ensures
            r is Some <==> bpe_defined(start@, self.merge_list(), self.encoder(), vocab_bytes(self.vocab@)),
            r matches Some(out) ==> out@ == bpe(
                start@,
                self.merge_list(),
                self.encoder(),
                vocab_bytes(self.vocab@),
            ),
    {
        let ghost m = self.merge_list();
        let ghost enc = self.encoder();
        let ghost voc = vocab_bytes(self.vocab@);
        let ghost init = start@;
        let mut ids = start;
        loop
            invariant
                self.wf(),
                m == self.merge_list(),
                enc == self.encoder(),
                voc == vocab_bytes(self.vocab@),
                bpe(ids@, m, enc, voc) == bpe(init, m, enc, voc),
                bpe_defined(ids@, m, enc, voc) == bpe_defined(init, m, enc, voc),
                init == start@,
            ensures
                ids@ == bpe(init, m, enc, voc),
                bpe_defined(init, m, enc, voc),
            decreases ids@.len(),
        {
            match self.best_index(&ids) {
                None => {
                    break;
                },
                Some(idx) => {
                    proof {
                        lemma_best_pair(ids@, m, idx as int);
                        assert(is_best(ids@, m, idx as int));
                        assert(idx < ids@.len() - 1);
                        assert(voc.len() == self.vocab@.len());
                    }
                    let n = ids.len();
                    assert(idx + 1 < n);
                    let a = ids[idx];
                    let b = ids[idx + 1];
                    if a as usize >= self.vocab.len() || b as usize >= self.vocab.len() {
                        proof {
                            assert(best_pair(ids@, m) == Some(idx as int));
                            assert(!bpe_defined(ids@, m, enc, voc));
                        }
                        return None;
                    }
                    let merged = self.merged_token(ids[idx], ids[idx + 1]);
                    assert(merged == merged_id(ids@, idx as int, enc, voc));
                    let mut next: Vec<u32> = Vec::new();
                    let mut k: usize = 0;
                    while k < idx
                        invariant
                            idx < ids@.len() - 1,
                            k <= idx,
                            next@ == ids@.subrange(0, k as int),
                        decreases idx - k,
                    {
                        next.push(ids[k]);
                        k += 1;
                    }
                    next.push(merged);
                    let mut k2: usize = idx + 2;
                    while k2 < ids.len()
                        invariant
                            idx < ids@.len() - 1,
                            idx + 2 <= k2 <= ids@.len(),
                            next@ == ids@.subrange(0, idx as int).push(merged) + ids@.subrange(
                                idx + 2,
                                k2 as int,
                            ),
                        decreases ids.len() - k2,
                    {
                        next.push(ids[k2]);
                        k2 += 1;
                        assert(ids@.subrange(idx + 2, k2 as int) =~= ids@.subrange(idx + 2, k2 - 1).push(
                            ids@[k2 - 1],
                        ));
                    }
                    assert(next@ =~= merge_at(ids@, idx as int, enc, voc));
                    ids = next;
                },
            }
        }
        Some(ids)
    }

    /// Encodes text into token ids: one token per byte, then greedy merging.
    pub fn encode(&self, text: &str) -> (ids: Vec<u32>)
        requires
            self.wf(),
            bpe_defined(
                byte_tokens(str_bytes(text@), self.encoder(), self.unk),
                self.merge_list(),
                self.encoder(),
                vocab_bytes(self.vocab@),
            ),
        ensures
            ids@ == bpe(
                byte_tokens(str_bytes(text@), self.encoder(), self.unk),
                self.merge_list(),
                self.encoder(),
                vocab_bytes(self.vocab@),
            ),
    {
        let pieces = self.byte_pass(text.as_bytes());
        match self.merge_run(pieces) {
            Some(ids) => ids,
            None => Vec::new(),
        }
    }

    /// Encodes text as `encode` does, or `None` where a pair that the
    /// merging picks holds an id outside the vocabulary (there `encode`
    /// has no result).
    pub fn encode_checked(&self, text: &str) -> (r: Option<Vec<u32>>)
        requires
            self.wf(),
        ensures
            r is Some <==> bpe_defined(
                byte_tokens(str_bytes(text@), self.encoder(), self.unk),
                self.merge_list(),
                self.encoder(),
                vocab_bytes(self.vocab@),
            ),
            r matches Some(ids) ==> ids@ == bpe(
                byte_tokens(str_bytes(text@), self.encoder(), self.unk),
                self.merge_list(),
                self.encoder(),
                vocab_bytes(self.vocab@),
            ),
    {
        let pieces = self.byte_pass(text.as_bytes());
        self.merge_run(pieces)
    }

    /// The text of the tokens, skipping ids outside the vocabulary.
    pub fn decode(&self, tokens: &[u32]) -> (s: String)
        ensures
            s@ == decode_chars(self.vocab@, tokens@),
    {
        let mut s = String::new();
        let mut i: usize = 0;
        while i < tokens.len()
            invariant
                i <= tokens@.len(),
                s@ == decode_chars(self.vocab@, tokens@.subrange(0, i as int)),
            decreases tokens.len() - i,
        {
            let id = tokens[i];
            assert(tokens@.subrange(0, i + 1).drop_last() =~= tokens@.subrange(0, i as int));
            if (id as usize) < self.vocab.len() {
                push_str(&mut s, self.vocab[id as usize].as_str());
            }
            i += 1;
        }
        assert(tokens@.subrange(0, i as int) =~= tokens@);
        s
    }

    /// The text of one token, or `"<unk>"` for an id outside the vocabulary.
    pub fn decode_token(&self, token: u32) -> (s: &str)
        ensures
            token < self.vocab@.len() ==> s@ == self.vocab@[token as int]@,
            token >= self.vocab@.len() ==> s@ == "<unk>"@,
    {
        if (token as usize) < self.vocab.len() {
            self.vocab[token as usize].as_str()
        } else {
            "<unk>"
        }
    }
}

} // verus!
