use amadeus::amadeus_m::generation::{GenRequest, GenStage, GenState};
use amadeus::amadeus_m::hierarchical::{compute_clause_depths, next_clause_depth, train_plan};
use amadeus::amadeus_m::syntax::assign_dependencies;
use amadeus::amadeus_m::token7::Token7;

fn tok(lex: u32, class: u16) -> Token7 {
    Token7::new(lex, class)
}

#[test]
fn clause_depth_rises_at_prepositions() {
    let ts = vec![tok(1, 4), tok(2, 0), tok(0, 5).with_punct(2), tok(3, 0)];
    assert_eq!(compute_clause_depths(&ts), vec![1, 1, 1, 0]);
    assert_eq!(next_clause_depth(&tok(1, 4), 15), 15);
    assert_eq!(next_clause_depth(&tok(1, 4), 2), 3);
    assert_eq!(next_clause_depth(&tok(0, 5), 3), 2);
    assert_eq!(next_clause_depth(&tok(0, 5), 0), 0);
    assert_eq!(next_clause_depth(&tok(9, 0), 4), 4);
    assert!(compute_clause_depths(&[]).is_empty());
}

#[test]
fn short_streams_give_no_lessons() {
    let plan = train_plan(&[tok(1, 3), tok(2, 0)]);
    assert!(plan.clause.is_empty());
    assert!(plan.sentence.is_empty());
    assert!(plan.paragraph.is_empty());
    assert!(plan.text.is_empty());
}

#[test]
fn lessons_follow_clauses_and_sentences() {
    let ts = vec![
        tok(1, 3),
        tok(2, 0),
        tok(3, 1),
        tok(0, 5).with_punct(2),
        tok(4, 0),
        tok(5, 1),
        tok(0, 5).with_punct(1),
    ];
    let parsed = assign_dependencies(&ts);
    let depths = compute_clause_depths(&parsed);
    let plan = train_plan(&ts);
    // two clauses, split after the comma
    assert_eq!(plan.clause.len(), 2);
    assert_eq!(plan.clause[0].0.len(), 5);
    assert_eq!(&plan.clause[0].0[1..], &parsed[0..4]);
    assert_eq!(plan.clause[0].1[0], depths[0]);
    assert_eq!(&plan.clause[0].1[1..], &depths[0..4]);
    assert_eq!(&plan.clause[1].0[1..], &parsed[4..7]);
    assert_eq!(plan.clause[1].1.len(), 4);
    // one sentence: its summary and the two clause summaries
    assert_eq!(plan.sentence.len(), 1);
    assert_eq!(plan.sentence[0].0.len(), 3);
    assert_eq!(plan.sentence[0].0[1], plan.clause[0].0[0]);
    assert_eq!(plan.sentence[0].0[2], plan.clause[1].0[0]);
    assert_eq!(plan.sentence[0].1, depths);
    // one paragraph of one sentence; too few paragraphs for the text level
    assert_eq!(plan.paragraph.len(), 1);
    assert_eq!(plan.paragraph[0].0.len(), 2);
    assert_eq!(plan.paragraph[0].1, vec![0, 0]);
    assert!(plan.text.is_empty());
}

#[test]
fn generation_without_steps_returns_the_seed() {
    let g = GenState::new(&[], 0);
    assert!(matches!(g.request(), GenRequest::Done(out) if out == vec![tok(1, 0)]));
    let seeded = GenState::new(&[tok(7, 1)], 0);
    assert!(matches!(seeded.request(), GenRequest::Done(out) if out == vec![tok(7, 1)]));
}

#[test]
fn generation_walks_down_the_levels() {
    let mut g = GenState::new(&[], 2);
    assert!(matches!(g.request(), GenRequest::Text(h, d) if h.is_empty() && d == vec![0]));
    g.feed(5);
    assert!(matches!(g.request(), GenRequest::Paragraph(c, d) if c == vec![tok(5, 0)] && d == vec![0]));
    g.feed(6);
    assert!(matches!(g.request(), GenRequest::Sentence(c, d) if c == vec![tok(6, 0)] && d == vec![0]));
    g.feed(7);
    assert!(matches!(g.request(), GenRequest::Clause(c, d) if c == vec![tok(7, 0)] && d == vec![0]));
    g.feed(8);
    // the next step goes straight to the clause cube
    assert!(matches!(g.request(), GenRequest::Clause(c, d) if c == vec![tok(7, 0), tok(8, 0)] && d == vec![0, 0]));
    g.feed(9);
    assert_eq!(g.stage, GenStage::Done);
    assert_eq!(g.out, vec![tok(1, 0), tok(7, 0), tok(8, 0), tok(9, 0)]);
}

#[test]
fn a_zero_sample_ends_generation() {
    let mut g = GenState::new(&[tok(3, 0)], 10);
    g.feed(5);
    g.feed(6);
    g.feed(7);
    g.feed(0);
    assert_eq!(g.stage, GenStage::Done);
    assert_eq!(g.out, vec![tok(3, 0), tok(7, 0)]);
    // a finished generator ignores further samples
    g.feed(4);
    assert_eq!(g.out, vec![tok(3, 0), tok(7, 0)]);
}
