//! The word-form lexicon: a finite map from surface forms to
//! `(root id, morphology, class, style)`, kept in insertion order.
use vstd::prelude::*;

verus! {

/// What the lexicon records for one surface form.
pub type LexValue = (u32, u16, u8, u16);

/// One lexicon entry.
pub struct LexEntry {
    pub form: String,
    pub value: LexValue,
}

/// A lexicon: a map from word forms to their entries, held as a vector of
/// entries whose forms are pairwise distinct. vstd's contracts for
/// `HashMap` hold only for key types known to obey its key model (the
/// integer types, `bool` and a few more); `String` is not among them, so a
/// map keyed by `String` would leave every lookup and insert unproved. The
/// vector, searched by form, keeps the map's behaviour (one entry per form,
/// an insert replaces the entry of its form) under proof.
pub struct Lexicon {
    entries: Vec<LexEntry>,
}

/// Abstract view of a lexicon: its entries in insertion order.
pub type LexSeq = Seq<(Seq<char>, LexValue)>;

/// The index of the entry holding `form`, if any.
pub open spec fn index_of_form(s: LexSeq, form: Seq<char>) -> Option<int> {
    if exists|i: int| 0 <= i < s.len() && #[trigger] s[i].0 == form {
        Some(choose|i: int| 0 <= i < s.len() && #[trigger] s[i].0 == form)
    } else {
        None
    }
}

/// The value recorded for `form`, if any.
pub open spec fn lookup(s: LexSeq, form: Seq<char>) -> Option<LexValue> {
    match index_of_form(s, form) {
        Some(i) => Some(s[i].1),
        None => None,
    }
}

/// The first form (in insertion order) whose root id is `id`.
pub open spec fn first_form_with_id(s: LexSeq, id: u32) -> Option<Seq<char>>
    decreases s.len(),
{
    if s.len() == 0 {
        None
    } else if s[0].1.0 == id {
        Some(s[0].0)
    } else {
        first_form_with_id(s.drop_first(), id)
    }
}

/// No form occurs twice.
pub open spec fn distinct_forms(s: LexSeq) -> bool {
    forall|i: int, j: int| 0 <= i < j < s.len() ==> #[trigger] s[i].0 != #[trigger] s[j].0
}

/// The lexicon after recording `value` for `form`: the value is replaced in
/// place when the form is present, otherwise the entry is appended.
pub open spec fn insert_spec(s: LexSeq, form: Seq<char>, value: LexValue) -> LexSeq {
    match index_of_form(s, form) {
        Some(i) => s.update(i, (form, value)),
        None => s.push((form, value)),
    }
}

/// Appending an entry for a form the lexicon lacks: the form is then found
/// with its value, every other form keeps its value, and the forms stay
/// distinct.
pub proof fn lemma_lookup_push(s: LexSeq, f: Seq<char>, v: LexValue, q: Seq<char>)
    requires
        distinct_forms(s),
        lookup(s, f) is None,
    ensures
        distinct_forms(s.push((f, v))),
        lookup(s.push((f, v)), q) == if q == f { Some(v) } else { lookup(s, q) },
{
    let t = s.push((f, v));
    assert(index_of_form(s, f) is None);
    assert forall|i: int, j: int| 0 <= i < j < t.len() implies #[trigger] t[i].0 != #[trigger] t[j].0 by {
        assert(t[i] == s[i]);
        if j < s.len() {
            assert(t[j] == s[j]);
        } else if s[i].0 == f {
            assert(exists|k: int| 0 <= k < s.len() && #[trigger] s[k].0 == f);
        }
    }
    assert(t[s.len() as int].0 == f);
    if q == f {
        assert(exists|k: int| 0 <= k < t.len() && #[trigger] t[k].0 == q);
        let k = choose|k: int| 0 <= k < t.len() && #[trigger] t[k].0 == q;
        if k < s.len() {
            assert(t[k] == s[k]);
            assert(exists|i: int| 0 <= i < s.len() && #[trigger] s[i].0 == f);
        }
        assert(k == s.len());
    } else if exists|i: int| 0 <= i < s.len() && #[trigger] s[i].0 == q {
        let i = choose|i: int| 0 <= i < s.len() && #[trigger] s[i].0 == q;
        assert(t[i] == s[i]);
        assert(exists|k: int| 0 <= k < t.len() && #[trigger] t[k].0 == q);
        let k = choose|k: int| 0 <= k < t.len() && #[trigger] t[k].0 == q;
        assert(k < s.len());
        assert(t[k] == s[k]);
        if k < i {
            assert(s[k].0 != s[i].0);
        } else if i < k {
            assert(s[i].0 != s[k].0);
        }
    } else {
        assert forall|k: int| 0 <= k < t.len() implies #[trigger] t[k].0 != q by {
            if k < s.len() {
                assert(t[k] == s[k]);
            }
        }
    }
}

impl View for Lexicon {
    type V = LexSeq;

    closed spec fn view(&self) -> LexSeq {
        self.entries@.map_values(|e: LexEntry| (e.form@, e.value))
    }
}

impl Lexicon {
    /// The lexicon's invariant: its forms are pairwise distinct.
    pub open spec fn wf(&self) -> bool {
        distinct_forms(self@)
    }

    pub fn new() -> (l: Self)
        ensures
            l.wf(),
            l@ == Seq::<(Seq<char>, LexValue)>::empty(),
    {
        let l = Lexicon { entries: Vec::new() };
        assert(l@ =~= Seq::<(Seq<char>, LexValue)>::empty());
        l
    }

    pub fn len(&self) -> (n: usize)
        ensures
            n == self@.len(),
    {
        self.entries.len()
    }

    /// The form and value of entry `i`.
    pub fn entry(&self, i: usize) -> (r: (&String, LexValue))
        requires
            i < self@.len(),
        ensures
            r.0@ == self@[i as int].0,
            r.1 == self@[i as int].1,
    {
        (&self.entries[i].form, self.entries[i].value)
    }

    fn position(&self, form: &String) -> (r: Option<usize>)
        requires
            self.wf(),
        ensures
            r matches Some(i) ==> i < self@.len() && index_of_form(self@, form@) == Some(i as int),
            r is None ==> index_of_form(self@, form@) is None,
    {
        let n = self.entries.len();
        let mut i: usize = 0;
        while i < n
            invariant
                n == self.entries@.len(),
                self@.len() == n,
                self.wf(),
                i <= n,
                forall|k: int| 0 <= k < i ==> self@[k].0 != form@,
            decreases n - i,
        {
            if self.entries[i].form == *form {
                assert(self@[i as int].0 == self.entries@[i as int].form@);
                assert(self@[i as int].0 == form@);
                assert(index_of_form(self@, form@) == Some(i as int)) by {
                    let j = choose|j: int| 0 <= j < self@.len() && #[trigger] self@[j].0 == form@;
                    if j != i as int {
                        if j < i {
                        } else {
                            assert(self@[i as int].0 != self@[j].0);
                        }
                    }
                }
                return Some(i);
            }
            i += 1;
        }
        None
    }

    /// The value recorded for `form`.
    pub fn get(&self, form: &String) -> (r: Option<LexValue>)
        requires
            self.wf(),
        ensures
            r == lookup(self@, form@),
    {
        match self.position(form) {
            Some(i) => {
                assert(self@[i as int].1 == self.entries@[i as int].value);
                Some(self.entries[i].value)
            },
            None => None,
        }
    }

    /// Whether `form` is recorded.
    pub fn contains_key(&self, form: &String) -> (b: bool)
        requires
            self.wf(),
        ensures
            b == lookup(self@, form@).is_some(),
    {
        self.position(form).is_some()
    }

    /// Records `value` for `form`, replacing an earlier value of the same form.
    pub fn insert(&mut self, form: String, value: LexValue)
        requires
            old(self).wf(),
        ensures
            final(self).wf(),
            final(self)@ == insert_spec(old(self)@, form@, value),
    {
        let ghost f = form@;
        match self.position(&form) {
            Some(i) => {
                self.entries.set(i, LexEntry { form, value });
                assert(self@ =~= old(self)@.update(i as int, (f, value)));
                assert(old(self)@[i as int].0 == f);
                assert forall|a: int, b: int| 0 <= a < b < self@.len() implies #[trigger] self@[a].0
                    != #[trigger] self@[b].0 by {
                    assert(self@[a].0 == old(self)@[a].0);
                    assert(self@[b].0 == old(self)@[b].0);
                }
            },
            None => {
                self.entries.push(LexEntry { form, value });
                assert(self@ =~= old(self)@.push((f, value)));
                assert forall|a: int, b: int| 0 <= a < b < self@.len() implies #[trigger] self@[a].0
                    != #[trigger] self@[b].0 by {
                    if b == self@.len() - 1 {
                        assert(self@[a] == old(self)@[a]);
                    } else {
                        assert(self@[a] == old(self)@[a]);
                        assert(self@[b] == old(self)@[b]);
                    }
                }
            },
        }
    }

    /// The first form, in insertion order, whose root id is `id`.
    pub fn form_with_id(&self, id: u32) -> (r: Option<&String>)
        ensures
            r matches Some(f) ==> first_form_with_id(self@, id) == Some(f@),
            r is None ==> first_form_with_id(self@, id) is None,
    {
        let n = self.entries.len();
        let mut i: usize = 0;
        assert(self@.skip(0) =~= self@);
        while i < n
            invariant
                n == self.entries@.len(),
                self@.len() == n,
                i <= n,
                first_form_with_id(self@, id) == first_form_with_id(self@.skip(i as int), id),
            decreases n - i,
        {
            assert(self@.skip(i as int).drop_first() =~= self@.skip(i + 1));
            assert(self@.skip(i as int)[0] == self@[i as int]);
            assert(self@[i as int] == (self.entries@[i as int].form@, self.entries@[i as int].value));
            if self.entries[i].value.0 == id {
                return Some(&self.entries[i].form);
            }
            i += 1;
        }
        None
    }
}

} // verus!
