//! The integer side of the spiking network: spike trains and the layout of
//! the morphological input encoding.
use vstd::prelude::*;

verus! {

/// Whether a neuron spiked at each timestep.
#[derive(Debug, Clone)]
pub struct SpikeTrain {
    pub timesteps: usize,
    pub spikes: Vec<bool>,
}

/// The number of spikes.
pub open spec fn count_true(s: Seq<bool>) -> nat
    decreases s.len(),
{
    if s.len() == 0 {
        0
    } else {
        count_true(s.drop_last()) + if s.last() { 1nat } else { 0nat }
    }
}

/// The first timestep with a spike.
pub open spec fn first_true(s: Seq<bool>) -> Option<int>
    decreases s.len(),
{
    if s.len() == 0 {
        None
    } else if s[0] {
        Some(0)
    } else {
        match first_true(s.drop_first()) {
            Some(i) => Some(i + 1),
            None => None,
        }
    }
}

proof fn lemma_count_true_bound(s: Seq<bool>)
    ensures
        count_true(s) <= s.len(),
    decreases s.len(),
{
    if s.len() > 0 {
        lemma_count_true_bound(s.drop_last());
    }
}

impl SpikeTrain {
    /// The number of spikes, as `u32` (taken modulo 2^32).
    pub fn spike_count(&self) -> (c: u32)
        ensures
            c == count_true(self.spikes@) as u32,
    {
        let mut n: usize = 0;
        let mut i: usize = 0;
        assert(self.spikes@.take(0) =~= Seq::<bool>::empty());
        while i < self.spikes.len()
            invariant
                i <= self.spikes@.len(),
                n == count_true(self.spikes@.take(i as int)),
            decreases self.spikes.len() - i,
        {
            assert(self.spikes@.take(i + 1).drop_last() =~= self.spikes@.take(i as int));
            proof {
                lemma_count_true_bound(self.spikes@.take(i as int));
            }
            if self.spikes[i] {
                n += 1;
            }
            i += 1;
        }
        assert(self.spikes@.take(i as int) =~= self.spikes@);
        n as u32
    }

    /// The first timestep with a spike, if any.
    pub fn first_spike(&self) -> (r: Option<usize>)
        ensures
            r matches Some(i) ==> first_true(self.spikes@) == Some(i as int),
            r is None ==> first_true(self.spikes@) is None,
    {
        let n = self.spikes.len();
        let mut i: usize = 0;
        assert(self.spikes@.skip(0) =~= self.spikes@);
        while i < n
            invariant
                n == self.spikes@.len(),
                i <= n,
                first_true(self.spikes@) == match first_true(self.spikes@.skip(i as int)) {
                    Some(k) => Some(k + i),
                    None => None,
                },
            decreases n - i,
        {
            assert(self.spikes@.skip(i as int).drop_first() =~= self.spikes@.skip(i + 1));
            if self.spikes[i] {
                return Some(i);
            }
            i += 1;
        }
        None
    }
}

/// Where each morphological feature's group of input neurons starts, how
/// many neurons it has, and the total.
#[derive(Clone, Copy, Debug, PartialEq, Eq, Structural)]
pub struct MorphEncoding {
    pub class_start: usize,
    pub class_count: usize,
    pub gender_start: usize,
    pub gender_count: usize,
    pub number_start: usize,
    pub number_count: usize,
    pub tense_start: usize,
    pub tense_count: usize,
    pub person_start: usize,
    pub person_count: usize,
    pub style_start: usize,
    pub style_count: usize,
    pub syn_start: usize,
    pub syn_count: usize,
    pub total: usize,
}

/// A group of `n` neurons with neuron `h` (if within the group) on.
pub open spec fn one_hot(n: nat, h: int) -> Seq<bool> {
    Seq::new(n, |i: int| i == h)
}

pub open spec fn min_int(a: int, b: int) -> int {
    if a < b {
        a
    } else {
        b
    }
}

impl MorphEncoding {
    /// The groups in order: class 7, gender 2, number 2, tense 5, person 3,
    /// style 3 and syntactic function 8 neurons, 30 in all.
    pub fn new() -> (e: Self)
        ensures
            e == (MorphEncoding {
                class_start: 0,
                class_count: 7,
                gender_start: 7,
                gender_count: 2,
                number_start: 9,
                number_count: 2,
                tense_start: 11,
                tense_count: 5,
                person_start: 16,
                person_count: 3,
                style_start: 19,
                style_count: 3,
                syn_start: 22,
                syn_count: 8,
                total: 30,
            }),
    {
        let mut off: usize = 0;
        let class_start = off;
        let class_count: usize = 7;
        off += class_count;
        let gender_start = off;
        let gender_count: usize = 2;
        off += gender_count;
        let number_start = off;
        let number_count: usize = 2;
        off += number_count;
        let tense_start = off;
        let tense_count: usize = 5;
        off += tense_count;
        let person_start = off;
        let person_count: usize = 3;
        off += person_count;
        let style_start = off;
        let style_count: usize = 3;
        off += style_count;
        let syn_start = off;
        let syn_count: usize = 8;
        off += syn_count;
        MorphEncoding {
            class_start,
            class_count,
            gender_start,
            gender_count,
            number_start,
            number_count,
            tense_start,
            tense_count,
            person_start,
            person_count,
            style_start,
            style_count,
            syn_start,
            syn_count,
            total: off,
        }
    }

    /// Which input neurons a token excites, group by group: the class
    /// (bits 0-2), gender (bit 3), number (bit 4), tense (bits 5-7) and
    /// person (bits 8-9) of the morphology, then the style and the
    /// syntactic function; tense, person, style and function are capped at
    /// their group's last neuron.
    pub open spec fn hot_spec(self, morph: u16, syn_func: u8, style: u16) -> Seq<bool> {
        one_hot(self.class_count as nat, (morph % 8) as int)
            + one_hot(self.gender_count as nat, ((morph / 8) % 2) as int)
            + one_hot(self.number_count as nat, ((morph / 16) % 2) as int)
            + one_hot(self.tense_count as nat, min_int(((morph / 32) % 8) as int, self.tense_count - 1))
            + one_hot(self.person_count as nat, min_int(((morph / 256) % 4) as int, self.person_count - 1))
            + one_hot(self.style_count as nat, min_int(style as int, self.style_count - 1))
            + one_hot(self.syn_count as nat, min_int(syn_func as int, self.syn_count - 1))
    }

    /// Which input neurons a token excites (see `hot_spec`); each is then
    /// driven at its group's high rate, the others at the low rate.
    pub fn hot_inputs(&self, morph: u16, syn_func: u8, style: u16) -> (v: Vec<bool>)
        requires
            self.tense_count >= 1,
            self.person_count >= 1,
            self.style_count >= 1,
            self.syn_count >= 1,
        ensures
            v@ == self.hot_spec(morph, syn_func, style),
    {
        let m = morph as u32;
        let mut v: Vec<bool> = Vec::new();
        let class_id = (m & 0x7) as usize;
        assert((m & 0x7) == m % 8) by (bit_vector);
        push_group(&mut v, self.class_count, class_id);
        let gender = ((m >> 3u32) & 0x1) as usize;
        assert(((m >> 3u32) & 0x1) == (m / 8) % 2) by (bit_vector);
        push_group(&mut v, self.gender_count, gender);
        let number = ((m >> 4u32) & 0x1) as usize;
        assert(((m >> 4u32) & 0x1) == (m / 16) % 2) by (bit_vector);
        push_group(&mut v, self.number_count, number);
        let tense = ((m >> 5u32) & 0x7) as usize;
        assert(((m >> 5u32) & 0x7) == (m / 32) % 8) by (bit_vector);
        let t = if tense < self.tense_count - 1 { tense } else { self.tense_count - 1 };
        push_group(&mut v, self.tense_count, t);
        let person = ((m >> 8u32) & 0x3) as usize;
        assert(((m >> 8u32) & 0x3) == (m / 256) % 4) by (bit_vector);
        let p = if person < self.person_count - 1 { person } else { self.person_count - 1 };
        push_group(&mut v, self.person_count, p);
        let st = style as usize;
        let s = if st < self.style_count - 1 { st } else { self.style_count - 1 };
        push_group(&mut v, self.style_count, s);
        let sf = syn_func as usize;
        let f = if sf < self.syn_count - 1 { sf } else { self.syn_count - 1 };
        push_group(&mut v, self.syn_count, f);
        v
    }
}

fn push_group(v: &mut Vec<bool>, n: usize, h: usize)
    ensures
        final(v)@ == old(v)@ + one_hot(n as nat, h as int),
{
    let mut i: usize = 0;
    while i < n
        invariant
            i <= n,
            v@ == old(v)@ + one_hot(i as nat, h as int),
        decreases n - i,
    {
        v.push(i == h);
        i += 1;
        assert(v@ =~= old(v)@ + one_hot(i as nat, h as int));
    }
}


// ───────────────────────── wiring a network from the grammar ─────────────────────────

/// Strictly increasing.
pub open spec fn increasing(s: Seq<u32>) -> bool {
    forall|i: int, j: int| 0 <= i < j < s.len() ==> s[i] < s[j]
}

/// The output labels of a network: the distinct roots, in increasing order.
pub fn output_labels(ids: &[u32]) -> (out: Vec<u32>)
    ensures
        increasing(out@),
        forall|x: u32| out@.contains(x) <==> ids@.contains(x),
{
    let mut out: Vec<u32> = Vec::new();
    let mut i: usize = 0;
    while i < ids.len()
        invariant
            i <= ids@.len(),
            increasing(out@),
            forall|x: u32| out@.contains(x) <==> ids@.take(i as int).contains(x),
        decreases ids.len() - i,
    {
        let x = ids[i];
        let mut k: usize = 0;
        while k < out.len() && out[k] < x
            invariant
                k <= out@.len(),
                forall|j: int| 0 <= j < k ==> out@[j] < x,
            decreases out.len() - k,
        {
            k += 1;
        }
        let ghost before = out@;
        if k < out.len() && out[k] == x {
        } else {
            out.insert(k, x);
            proof {
                assert forall|a: int, b: int| 0 <= a < b < out@.len() implies out@[a] < out@[b] by {
                    if b < k {
                    } else if a < k && b == k {
                    } else if a < k {
                        assert(out@[b] == before[b - 1]);
                        assert(before[a] < before[b - 1] || a == b - 1);
                    } else if a == k {
                        assert(out@[b] == before[b - 1]);
                        assert(k < before.len() ==> before[k as int] > x);
                        assert(before[k as int] <= before[b - 1]) by {
                            if k < b - 1 {
                                assert(before[k as int] < before[b - 1]);
                            }
                        }
                    } else {
                        assert(out@[a] == before[a - 1] && out@[b] == before[b - 1]);
                    }
                }
            }
        }
        proof {
            let ti = ids@.take(i as int);
            let ti1 = ids@.take(i + 1);
            assert(ti1 =~= ti.push(x));
            assert forall|y: u32| out@.contains(y) <==> ti1.contains(y) by {
                if out@.contains(y) {
                    let j = choose|j: int| 0 <= j < out@.len() && #[trigger] out@[j] == y;
                    if y != x {
                        if before.len() < out@.len() {
                            if j < k {
                                assert(before[j] == y);
                            } else {
                                assert(before[j - 1] == y);
                            }
                        } else {
                            assert(before[j] == y);
                        }
                        assert(before.contains(y));
                        assert(ti.contains(y));
                        let m = choose|m: int| 0 <= m < ti.len() && #[trigger] ti[m] == y;
                        assert(ti1[m] == y);
                    } else {
                        assert(ti1[i as int] == x);
                    }
                }
                if ti1.contains(y) {
                    if y == x {
                        assert(out@[k as int] == x);
                    } else {
                        let m = choose|m: int| 0 <= m < ti1.len() && #[trigger] ti1[m] == y;
                        assert(m < i);
                        assert(ti[m] == y);
                        assert(before.contains(y));
                        let j = choose|j: int| 0 <= j < before.len() && #[trigger] before[j] == y;
                        if before.len() < out@.len() {
                            if j < k {
                                assert(out@[j] == y);
                            } else {
                                assert(out@[j + 1] == y);
                            }
                        } else {
                            assert(out@[j] == y);
                        }
                    }
                }
            }
        }
        i += 1;
    }
    assert(ids@.take(ids@.len() as int) =~= ids@);
    out
}

/// The position of a root among increasing labels.
pub fn label_index(labels: &[u32], id: u32) -> (r: Option<usize>)
    requires
        increasing(labels@),
    ensures
        r matches Some(j) ==> j < labels@.len() && labels@[j as int] == id,
        r is None ==> !labels@.contains(id),
{
    let mut lo: usize = 0;
    let mut hi: usize = labels.len();
    while lo < hi
        invariant
            lo <= hi <= labels@.len(),
            increasing(labels@),
            forall|j: int| 0 <= j < lo ==> labels@[j] < id,
            forall|j: int| hi <= j < labels@.len() ==> labels@[j] > id,
        decreases hi - lo,
    {
        let mid = lo + (hi - lo) / 2;
        if labels[mid] == id {
            return Some(mid);
        } else if labels[mid] < id {
            lo = mid + 1;
        } else {
            hi = mid;
        }
    }
    None
}

/// How strongly an input feature drives a hidden neuron: a class neuron's
/// own class (0.5) and the gender and number features it shares (0.1); a
/// key neuron's class (0.4), gender, number and style (0.2) and function
/// (0.3).
#[derive(Debug, Clone, Copy, PartialEq, Eq, Structural)]
pub enum Strength {
    Own,
    Shared,
    KeyClass,
    KeyFeature,
    KeyFunction,
}

/// The number of class neurons, the first of the hidden layer.
pub const CLASS_NEURONS: usize = 7;

/// The most key neurons a network has.
pub const MAX_KEY_NEURONS: usize = 256;

/// An encoding whose neuron numbers stay small.
pub open spec fn wiring_fits(e: MorphEncoding) -> bool {
    &&& e.class_start < 65536
    &&& e.gender_start < 65536
    &&& e.number_start < 65536
    &&& e.style_start < 65536
    &&& e.syn_start < 65536
    &&& 1 <= e.style_count < 65536
    &&& 1 <= e.syn_count < 65536
}

/// The synapses of class neuron `c`.
pub open spec fn class_synapses(e: MorphEncoding, c: int) -> Seq<(usize, usize, Strength)> {
    seq![
        ((e.class_start + c) as usize, c as usize, Strength::Own),
        (e.gender_start, c as usize, Strength::Shared),
        ((e.gender_start + 1) as usize, c as usize, Strength::Shared),
        (e.number_start, c as usize, Strength::Shared),
        ((e.number_start + 1) as usize, c as usize, Strength::Shared),
    ]
}

/// The synapses of key neuron `h` for a key of morphology, function and
/// style: its class (when within the class group), gender and number
/// features, its function and its style (both capped at their group's last
/// neuron).
pub open spec fn key_synapses(e: MorphEncoding, h: int, key: (u16, u8, u16)) -> Seq<(usize, usize, Strength)> {
    let (morph, syn_func, style) = key;
    let class = (morph % 8) as int;
    let gender = ((morph / 8) % 2) as int;
    let number = ((morph / 16) % 2) as int;
    (if class < e.class_count {
        seq![((e.class_start + class) as usize, h as usize, Strength::KeyClass)]
    } else {
        Seq::empty()
    }) + (if gender < e.gender_count {
        seq![((e.gender_start + gender) as usize, h as usize, Strength::KeyFeature)]
    } else {
        Seq::empty()
    }) + (if number < e.number_count {
        seq![((e.number_start + number) as usize, h as usize, Strength::KeyFeature)]
    } else {
        Seq::empty()
    }) + seq![
        ((e.syn_start + min_int(syn_func as int, e.syn_count - 1)) as usize, h as usize, Strength::KeyFunction),
        ((e.style_start + min_int(style as int, e.style_count - 1)) as usize, h as usize, Strength::KeyFeature),
    ]
}

pub open spec fn class_wiring(e: MorphEncoding, n: int) -> Seq<(usize, usize, Strength)>
    decreases n,
{
    if n <= 0 {
        Seq::empty()
    } else {
        class_wiring(e, n - 1) + class_synapses(e, n - 1)
    }
}

pub open spec fn key_wiring(e: MorphEncoding, keys: Seq<(u16, u8, u16)>, n: int) -> Seq<(usize, usize, Strength)>
    decreases n,
{
    if n <= 0 {
        Seq::empty()
    } else {
        key_wiring(e, keys, n - 1) + key_synapses(e, CLASS_NEURONS + n - 1, keys[n - 1])
    }
}

/// The input synapses of a network: the class neurons' and then those of
/// one key neuron per key, for at most `MAX_KEY_NEURONS` keys.
pub open spec fn input_wiring(e: MorphEncoding, keys: Seq<(u16, u8, u16)>) -> Seq<(usize, usize, Strength)> {
    class_wiring(e, CLASS_NEURONS as int) + key_wiring(e, keys, min_int(keys.len() as int, MAX_KEY_NEURONS as int))
}

/// The input synapses of a network (see `input_wiring`).
pub fn input_synapses(e: &MorphEncoding, keys: &[(u16, u8, u16)]) -> (out: Vec<(usize, usize, Strength)>)
    requires
        wiring_fits(*e),
    ensures
        out@ == input_wiring(*e, keys@),
{
    let mut out: Vec<(usize, usize, Strength)> = Vec::new();
    let mut c: usize = 0;
    while c < CLASS_NEURONS
        invariant
            c <= CLASS_NEURONS,
            wiring_fits(*e),
            out@ == class_wiring(*e, c as int),
        decreases CLASS_NEURONS - c,
    {
        out.push((e.class_start + c, c, Strength::Own));
        out.push((e.gender_start, c, Strength::Shared));
        out.push((e.gender_start + 1, c, Strength::Shared));
        out.push((e.number_start, c, Strength::Shared));
        out.push((e.number_start + 1, c, Strength::Shared));
        assert(out@ =~= class_wiring(*e, c + 1));
        c += 1;
    }
    let ghost base = out@;
    let n = if keys.len() < MAX_KEY_NEURONS { keys.len() } else { MAX_KEY_NEURONS };
    let mut t: usize = 0;
    while t < n
        invariant
            t <= n <= MAX_KEY_NEURONS,
            n <= keys@.len(),
            wiring_fits(*e),
            out@ == base + key_wiring(*e, keys@, t as int),
        decreases n - t,
    {
        let h = CLASS_NEURONS + t;
        push_key_synapses(&mut out, e, h, keys[t]);
        assert(out@ =~= base + key_wiring(*e, keys@, t + 1));
        t += 1;
    }
    out
}

fn push_key_synapses(out: &mut Vec<(usize, usize, Strength)>, e: &MorphEncoding, h: usize, key: (u16, u8, u16))
    requires
        wiring_fits(*e),
    ensures
        final(out)@ == old(out)@ + key_synapses(*e, h as int, key),
{
    let (morph, syn_func, style) = key;
    let m = morph as u32;
    let class = (m & 0x7) as usize;
    let gender = ((m >> 3u32) & 0x1) as usize;
    let number = ((m >> 4u32) & 0x1) as usize;
    assert((m & 0x7) == m % 8) by (bit_vector);
    assert(((m >> 3u32) & 0x1) == (m / 8) % 2) by (bit_vector);
    assert(((m >> 4u32) & 0x1) == (m / 16) % 2) by (bit_vector);
    if class < e.class_count {
        out.push((e.class_start + class, h, Strength::KeyClass));
    }
    if gender < e.gender_count {
        out.push((e.gender_start + gender, h, Strength::KeyFeature));
    }
    if number < e.number_count {
        out.push((e.number_start + number, h, Strength::KeyFeature));
    }
    let sf = syn_func as usize;
    let f = if sf < e.syn_count - 1 { sf } else { e.syn_count - 1 };
    out.push((e.syn_start + f, h, Strength::KeyFunction));
    let st = style as usize;
    let y = if st < e.style_count - 1 { st } else { e.style_count - 1 };
    out.push((e.style_start + y, h, Strength::KeyFeature));
    assert(out@ =~= old(out)@ + key_synapses(*e, h as int, key));
}

/// The fallback synapse of one class member `(class, root)`: from the
/// neuron of its class (classes past the last class neuron share the last
/// one) to the output neuron of the root, where the root has one.
pub open spec fn fallback_synapse(labels: Seq<u32>, member: (u8, u32)) -> Option<(usize, usize)> {
    if labels.contains(member.1) {
        Some(
            (
                min_int(member.0 as int, CLASS_NEURONS - 1) as usize,
                (choose|j: int| 0 <= j < labels.len() && labels[j] == member.1) as usize,
            ),
        )
    } else {
        None
    }
}

/// The fallback synapses of the class table, flattened to `(class, root)`
/// members: each class neuron feeds the roots of its class.
pub open spec fn fallback_wiring(labels: Seq<u32>, members: Seq<(u8, u32)>) -> Seq<(usize, usize)>
    decreases members.len(),
{
    if members.len() == 0 {
        Seq::empty()
    } else {
        let rest = fallback_wiring(labels, members.drop_last());
        match fallback_synapse(labels, members.last()) {
            Some(w) => rest.push(w),
            None => rest,
        }
    }
}

/// The fallback synapses from the class neurons to the roots of their
/// classes (see `fallback_wiring`).
pub fn fallback_synapses(labels: &[u32], members: &[(u8, u32)]) -> (out: Vec<(usize, usize)>)
    requires
        increasing(labels@),
    ensures
        out@ == fallback_wiring(labels@, members@),
{
    let mut out: Vec<(usize, usize)> = Vec::new();
    let mut k: usize = 0;
    while k < members.len()
        invariant
            k <= members@.len(),
            increasing(labels@),
            out@ == fallback_wiring(labels@, members@.take(k as int)),
        decreases members@.len() - k,
    {
        let (c, id) = members[k];
        proof {
            assert(members@.take(k + 1).drop_last() =~= members@.take(k as int));
            assert(members@.take(k + 1).last() == members@[k as int]);
        }
        match label_index(labels, id) {
            Some(j) => {
                let cu = c as usize;
                let n = if cu < CLASS_NEURONS - 1 { cu } else { CLASS_NEURONS - 1 };
                proof {
                    assert(labels@.contains(id));
                    let w = choose|i: int| 0 <= i < labels@.len() && labels@[i] == id;
                    assert(0 <= w < labels@.len() && labels@[w] == id);
                    if w < j {
                        assert(labels@[w] < labels@[j as int]);
                    } else if w > j {
                        assert(labels@[j as int] < labels@[w]);
                    }
                    assert(w == j);
                }
                out.push((n, j));
            },
            None => {},
        }
        k += 1;
    }
    assert(members@.take(members@.len() as int) =~= members@);
    out
}

} // verus!
