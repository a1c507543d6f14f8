//! Top-down generation with the hierarchical cube, as a state machine: the
//! machine says which level to sample next and with what context; the
//! sampled root is fed back in.
use vstd::prelude::*;
use crate::amadeus_m::hierarchical::{
    depth_after, ends_clause, is_clause_end, next_clause_depth, summarize_spec, summarize_unit,
    ORDER_PARAGRAPH, ORDER_SENTENCE, ORDER_TEXT,
};
use crate::amadeus_m::token7::{spec_token, Token7};

verus! {

/// The sample the machine waits for.
#[derive(Clone, Copy, Debug, PartialEq, Eq, Structural)]
pub enum GenStage {
    /// The next paragraph summary, from the text cube.
    Paragraph,
    /// The next sentence summary, from the paragraph cube.
    Sentence,
    /// The next clause summary, from the sentence cube.
    Clause,
    /// The next token, from the clause cube.
    Token,
    /// None: generation has ended.
    Done,
}

/// The generator's state.
pub struct GenState {
    pub out: Vec<Token7>,
    pub paras: Vec<Token7>,
    pub sents: Vec<Token7>,
    pub clauses: Vec<Token7>,
    pub clause_tokens: Vec<Token7>,
    pub clause_depths: Vec<u8>,
    pub need_clause: bool,
    pub need_sentence: bool,
    pub need_paragraph: bool,
    pub steps_left: usize,
    pub stage: GenStage,
}

/// What to sample next: the cube's context tokens and their depths, or the
/// finished output.
pub enum GenRequest {
    Text(Vec<Token7>, Vec<u8>),
    Paragraph(Vec<Token7>, Vec<u8>),
    Sentence(Vec<Token7>, Vec<u8>),
    Clause(Vec<Token7>, Vec<u8>),
    Done(Vec<Token7>),
}

/// The state, as mathematical values.
pub struct GenView {
    pub out: Seq<Token7>,
    pub paras: Seq<Token7>,
    pub sents: Seq<Token7>,
    pub clauses: Seq<Token7>,
    pub ctoks: Seq<Token7>,
    pub cdepths: Seq<u8>,
    pub need_clause: bool,
    pub need_sentence: bool,
    pub need_paragraph: bool,
    pub steps_left: nat,
    pub stage: GenStage,
}

pub open spec fn token0(lex: u32) -> Token7 {
    spec_token(lex, 0)
}

/// Skips the levels that need no sample in this step.
pub open spec fn settle(v: GenView) -> GenView {
    if v.stage == GenStage::Paragraph && !v.need_paragraph {
        if v.need_sentence {
            GenView { stage: GenStage::Sentence, ..v }
        } else if v.need_clause {
            GenView { stage: GenStage::Clause, ..v }
        } else {
            GenView { stage: GenStage::Token, ..v }
        }
    } else if v.stage == GenStage::Sentence && !v.need_sentence {
        if v.need_clause {
            GenView { stage: GenStage::Clause, ..v }
        } else {
            GenView { stage: GenStage::Token, ..v }
        }
    } else if v.stage == GenStage::Clause && !v.need_clause {
        GenView { stage: GenStage::Token, ..v }
    } else {
        v
    }
}

/// Ends generation: the clause in progress joins the output.
pub open spec fn finish(v: GenView) -> GenView {
    GenView { out: v.out + v.ctoks, stage: GenStage::Done, ..v }
}

/// Starts the next step, or ends when no step is left.
pub open spec fn begin(v: GenView) -> GenView {
    if v.steps_left == 0 {
        finish(v)
    } else {
        settle(GenView { steps_left: (v.steps_left - 1) as nat, stage: GenStage::Paragraph, ..v })
    }
}

/// The state after a clause-ending token: the clause summary is updated
/// and the clause joins the output; after four clauses the sentence
/// summary is updated, and after 64 sentences the paragraph summary.
pub open spec fn close_clause(v: GenView) -> GenView {
    let clauses = if v.clauses.len() > 0 {
        v.clauses.update(v.clauses.len() - 1, summarize_spec(v.ctoks))
    } else {
        v.clauses
    };
    let v1 = GenView {
        clauses,
        out: v.out + v.ctoks,
        ctoks: Seq::empty(),
        cdepths: Seq::empty(),
        need_clause: true,
        ..v
    };
    if clauses.len() >= ORDER_SENTENCE {
        let sents = if v1.sents.len() > 0 {
            v1.sents.update(v1.sents.len() - 1, summarize_spec(clauses))
        } else {
            v1.sents
        };
        let v2 = GenView { sents, need_sentence: true, ..v1 };
        if sents.len() >= ORDER_PARAGRAPH {
            let paras = if v2.paras.len() > 0 {
                v2.paras.update(v2.paras.len() - 1, summarize_spec(sents))
            } else {
                v2.paras
            };
            GenView { paras, need_paragraph: true, ..v2 }
        } else {
            v2
        }
    } else {
        v1
    }
}

/// The state after the sample `lex` is fed in.
pub open spec fn feed_spec(v: GenView, lex: u32) -> GenView {
    match v.stage {
        GenStage::Paragraph => if lex == 0 && v.paras.len() > 0 {
            finish(v)
        } else {
            settle(
                GenView {
                    paras: v.paras.push(token0(lex)),
                    sents: Seq::empty(),
                    need_paragraph: false,
                    need_sentence: true,
                    stage: GenStage::Sentence,
                    ..v
                },
            )
        },
        GenStage::Sentence => if lex == 0 && v.sents.len() > 0 {
            finish(v)
        } else {
            settle(
                GenView {
                    sents: v.sents.push(token0(lex)),
                    clauses: Seq::empty(),
                    need_sentence: false,
                    need_clause: true,
                    stage: GenStage::Clause,
                    ..v
                },
            )
        },
        GenStage::Clause => if lex == 0 && v.clauses.len() > 0 {
            finish(v)
        } else {
            GenView {
                clauses: v.clauses.push(token0(lex)),
                ctoks: seq![token0(lex)],
                cdepths: seq![0u8],
                need_clause: false,
                stage: GenStage::Token,
                ..v
            }
        },
        GenStage::Token => if lex == 0 {
            finish(v)
        } else {
            let t = token0(lex);
            let prev: u8 = if v.cdepths.len() > 0 { v.cdepths.last() } else { 0 };
            let v1 = GenView { cdepths: v.cdepths.push(depth_after(t, prev)), ctoks: v.ctoks.push(t), ..v };
            let v2 = if ends_clause(t) { close_clause(v1) } else { v1 };
            begin(v2)
        },
        GenStage::Done => v,
    }
}

/// The last `k` items (all, when there are fewer).
pub open spec fn last_k(s: Seq<Token7>, k: int) -> Seq<Token7> {
    if s.len() > k { s.skip(s.len() - k) } else { s }
}

pub open spec fn zeros_spec(n: nat) -> Seq<u8> {
    Seq::new(n, |_i: int| 0u8)
}

/// The context of the next sample: the text cube sees the last four
/// paragraph summaries (none, with one depth, at first); the paragraph cube
/// sees the current paragraph's summary and the last three sentence
/// summaries; the sentence cube the current sentence's summary and the last
/// three clause summaries; the clause cube the clause so far.
pub open spec fn request_spec(v: GenView) -> (GenStage, Seq<Token7>, Seq<u8>) {
    match v.stage {
        GenStage::Paragraph => if v.paras.len() == 0 {
            (GenStage::Paragraph, Seq::empty(), seq![0u8])
        } else {
            let h = last_k(v.paras, ORDER_TEXT as int);
            (GenStage::Paragraph, h, zeros_spec(h.len()))
        },
        GenStage::Sentence => {
            let head = if v.paras.len() > 0 { v.paras.last() } else { token0(0) };
            let c = seq![head] + last_k(v.sents, (ORDER_SENTENCE - 1) as int);
            (GenStage::Sentence, c, zeros_spec(c.len()))
        },
        GenStage::Clause => {
            let head = if v.sents.len() > 0 { v.sents.last() } else { token0(0) };
            let c = seq![head] + last_k(v.clauses, (ORDER_SENTENCE - 1) as int);
            (GenStage::Clause, c, zeros_spec(c.len()))
        },
        GenStage::Token => (GenStage::Token, v.ctoks, v.cdepths),
        GenStage::Done => (GenStage::Done, v.out, Seq::empty()),
    }
}

fn zeros(n: usize) -> (v: Vec<u8>)
    ensures
        v@ == zeros_spec(n as nat),
{
    let mut v: Vec<u8> = Vec::new();
    let mut i: usize = 0;
    while i < n
        invariant
            i <= n,
            v@ == zeros_spec(i as nat),
        decreases n - i,
    {
        v.push(0);
        i += 1;
        assert(v@ =~= zeros_spec(i as nat));
    }
    v
}

fn last_k_exec(s: &Vec<Token7>, k: usize) -> (r: Vec<Token7>)
    ensures
        r@ == last_k(s@, k as int),
{
    let n = s.len();
    let start = if n > k { n - k } else { 0 };
    let r = vstd::slice::slice_to_vec(vstd::slice::slice_subrange(s.as_slice(), start, n));
    assert(r@ =~= last_k(s@, k as int));
    r
}

impl GenState {
    pub open spec fn view(&self) -> GenView {
        GenView {
            out: self.out@,
            paras: self.paras@,
            sents: self.sents@,
            clauses: self.clauses@,
            ctoks: self.clause_tokens@,
            cdepths: self.clause_depths@,
            need_clause: self.need_clause,
            need_sentence: self.need_sentence,
            need_paragraph: self.need_paragraph,
            steps_left: self.steps_left as nat,
            stage: self.stage,
        }
    }

    fn settle_exec(&mut self)
        ensures
            final(self).view() == settle(old(self).view()),
    {
        if self.stage == GenStage::Paragraph && !self.need_paragraph {
            self.stage = if self.need_sentence {
                GenStage::Sentence
            } else if self.need_clause {
                GenStage::Clause
            } else {
                GenStage::Token
            };
        } else if self.stage == GenStage::Sentence && !self.need_sentence {
            self.stage = if self.need_clause {
                GenStage::Clause
            } else {
                GenStage::Token
            };
        } else if self.stage == GenStage::Clause && !self.need_clause {
            self.stage = GenStage::Token;
        }
    }

    fn finish_exec(&mut self)
        ensures
            final(self).view() == finish(old(self).view()),
    {
        let mut rest = self.clause_tokens.clone();
        assert(rest@ == self.clause_tokens@);
        self.out.append(&mut rest);
        self.stage = GenStage::Done;
    }

    fn begin_exec(&mut self)
        ensures
            final(self).view() == begin(old(self).view()),
    {
        if self.steps_left == 0 {
            self.finish_exec();
        } else {
            self.steps_left = self.steps_left - 1;
            self.stage = GenStage::Paragraph;
            self.settle_exec();
        }
    }

    /// A generator continuing `seed` (a token of root 1 when empty) for at
    /// most `max_len` steps, every level needing a sample.
    pub fn new(seed: &[Token7], max_len: usize) -> (g: Self)
        ensures
            g.view() == begin(
                GenView {
                    out: if seed@.len() == 0 { seq![token0(1)] } else { seed@ },
                    paras: Seq::empty(),
                    sents: Seq::empty(),
                    clauses: Seq::empty(),
                    ctoks: Seq::empty(),
                    cdepths: Seq::empty(),
                    need_clause: true,
                    need_sentence: true,
                    need_paragraph: true,
                    steps_left: max_len as nat,
                    stage: GenStage::Paragraph,
                },
            ),
    {
        let mut out = vstd::slice::slice_to_vec(seed);
        if out.len() == 0 {
            out.push(Token7::new(1, 0));
        }
        let mut g = GenState {
            out,
            paras: Vec::new(),
            sents: Vec::new(),
            clauses: Vec::new(),
            clause_tokens: Vec::new(),
            clause_depths: Vec::new(),
            need_clause: true,
            need_sentence: true,
            need_paragraph: true,
            steps_left: max_len,
            stage: GenStage::Paragraph,
        };
        assert(g.out@ == (if seed@.len() == 0 { seq![token0(1)] } else { seed@ }));
        g.begin_exec();
        g
    }

    /// What to sample next (see `request_spec`), or the output when done.
    pub fn request(&self) -> (r: GenRequest)
        ensures
            ({
                let (st, c, d) = request_spec(self.view());
                match r {
                    GenRequest::Text(x, y) => st == GenStage::Paragraph && x@ == c && y@ == d,
                    GenRequest::Paragraph(x, y) => st == GenStage::Sentence && x@ == c && y@ == d,
                    GenRequest::Sentence(x, y) => st == GenStage::Clause && x@ == c && y@ == d,
                    GenRequest::Clause(x, y) => st == GenStage::Token && x@ == c && y@ == d,
                    GenRequest::Done(x) => st == GenStage::Done && x@ == c,
                }
            }),
    {
        match self.stage {
            GenStage::Paragraph => {
                if self.paras.len() == 0 {
                    let mut d: Vec<u8> = Vec::new();
                    d.push(0);
                    GenRequest::Text(Vec::new(), d)
                } else {
                    let h = last_k_exec(&self.paras, ORDER_TEXT);
                    let d = zeros(h.len());
                    GenRequest::Text(h, d)
                }
            },
            GenStage::Sentence => {
                let head = if self.paras.len() > 0 { self.paras[self.paras.len() - 1] } else { Token7::new(0, 0) };
                let mut c: Vec<Token7> = Vec::new();
                c.push(head);
                let mut rest = last_k_exec(&self.sents, ORDER_SENTENCE - 1);
                c.append(&mut rest);
                let d = zeros(c.len());
                GenRequest::Paragraph(c, d)
            },
            GenStage::Clause => {
                let head = if self.sents.len() > 0 { self.sents[self.sents.len() - 1] } else { Token7::new(0, 0) };
                let mut c: Vec<Token7> = Vec::new();
                c.push(head);
                let mut rest = last_k_exec(&self.clauses, ORDER_SENTENCE - 1);
                c.append(&mut rest);
                let d = zeros(c.len());
                GenRequest::Sentence(c, d)
            },
            GenStage::Token => GenRequest::Clause(self.clause_tokens.clone(), self.clause_depths.clone()),
            GenStage::Done => GenRequest::Done(self.out.clone()),
        }
    }

    fn close_clause_exec(&mut self)
        ensures
            final(self).view() == close_clause(old(self).view()),
    {
        if self.clauses.len() > 0 {
            let s = summarize_unit(self.clause_tokens.as_slice());
            let last = self.clauses.len() - 1;
            self.clauses.set(last, s);
        }
        let mut rest = self.clause_tokens.clone();
        assert(rest@ == self.clause_tokens@);
        self.out.append(&mut rest);
        self.clause_tokens = Vec::new();
        self.clause_depths = Vec::new();
        self.need_clause = true;
        if self.clauses.len() >= ORDER_SENTENCE {
            if self.sents.len() > 0 {
                let s = summarize_unit(self.clauses.as_slice());
                let last = self.sents.len() - 1;
                self.sents.set(last, s);
            }
            self.need_sentence = true;
            if self.sents.len() >= ORDER_PARAGRAPH {
                if self.paras.len() > 0 {
                    let s = summarize_unit(self.sents.as_slice());
                    let last = self.paras.len() - 1;
                    self.paras.set(last, s);
                }
                self.need_paragraph = true;
            }
        }
        assert(self.view() =~~= close_clause(old(self).view()));
    }

    /// Feeds in the sampled root `lex` (see `feed_spec`).
    pub fn feed(&mut self, lex: u32)
        ensures
            final(self).view() == feed_spec(old(self).view(), lex),
    {
        match self.stage {
            GenStage::Paragraph => {
                if lex == 0 && self.paras.len() > 0 {
                    self.finish_exec();
                } else {
                    self.paras.push(Token7::new(lex, 0));
                    self.sents = Vec::new();
                    self.need_paragraph = false;
                    self.need_sentence = true;
                    self.stage = GenStage::Sentence;
                    self.settle_exec();
                }
            },
            GenStage::Sentence => {
                if lex == 0 && self.sents.len() > 0 {
                    self.finish_exec();
                } else {
                    self.sents.push(Token7::new(lex, 0));
                    self.clauses = Vec::new();
                    self.need_sentence = false;
                    self.need_clause = true;
                    self.stage = GenStage::Clause;
                    self.settle_exec();
                }
            },
            GenStage::Clause => {
                if lex == 0 && self.clauses.len() > 0 {
                    self.finish_exec();
                } else {
                    let cs = Token7::new(lex, 0);
                    self.clauses.push(cs);
                    let mut ct: Vec<Token7> = Vec::new();
                    ct.push(cs);
                    self.clause_tokens = ct;
                    let mut cd: Vec<u8> = Vec::new();
                    cd.push(0);
                    self.clause_depths = cd;
                    self.need_clause = false;
                    self.stage = GenStage::Token;
                }
            },
            GenStage::Token => {
                if lex == 0 {
                    self.finish_exec();
                } else {
                    let t = Token7::new(lex, 0);
                    let prev: u8 = if self.clause_depths.len() > 0 {
                        self.clause_depths[self.clause_depths.len() - 1]
                    } else {
                        0
                    };
                    self.clause_depths.push(next_clause_depth(&t, prev));
                    self.clause_tokens.push(t);
                    if is_clause_end(&t) {
                        self.close_clause_exec();
                    }
                    self.begin_exec();
                }
            },
            GenStage::Done => {},
        }
    }
}

/// Generation only ever adds to the output: what was output stays, in
/// place, whatever is fed in.
pub proof fn lemma_feed_keeps_output(v: GenView, lex: u32)
    ensures
        feed_spec(v, lex).out.len() >= v.out.len(),
        feed_spec(v, lex).out.subrange(0, v.out.len() as int) == v.out,
{
    let w = feed_spec(v, lex);
    assert(w.out.subrange(0, v.out.len() as int) =~= v.out) by {
        if v.stage == GenStage::Token && lex != 0 {
            let t = token0(lex);
            let prev: u8 = if v.cdepths.len() > 0 { v.cdepths.last() } else { 0 };
            let v1 = GenView { cdepths: v.cdepths.push(depth_after(t, prev)), ctoks: v.ctoks.push(t), ..v };
            let v2 = if ends_clause(t) { close_clause(v1) } else { v1 };
            assert(v2.out.subrange(0, v.out.len() as int) =~= v.out);
        }
    }
}

} // verus!
