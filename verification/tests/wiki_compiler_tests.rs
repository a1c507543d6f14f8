use amadeus::amadeus_m::token7::Token7;
use amadeus::wiki_compiler::{bench_class, guess_class, split_words, word_style, BenchCompiler, SimpleCompiler};

#[test]
fn simple_compiler_starts_with_marks() {
    let c = SimpleCompiler::new();
    assert_eq!(c.lexicon.len(), 12);
    assert_eq!(c.roots, vec![String::new()]);
    assert_eq!(c.next_id, 1);
    assert_eq!(c.lexicon.get(&"\u{2014}".to_string()), Some((0, 6, 6, 0)));
    assert_eq!(c.lexicon.get(&"...".to_string()), Some((0, 6, 6, 0)));
}

#[test]
fn words_split_on_space_and_marks() {
    assert_eq!(split_words("O gato, correu.  Sim!"), vec!["O", "gato", "correu", "Sim"]);
    assert_eq!(split_words("a;b:c?d"), vec!["a", "b", "c", "d"]);
    assert_eq!(split_words("(nota) \u{2014} fim"), vec!["(nota)", "\u{2014}", "fim"]);
    assert!(split_words(" ,.;").is_empty());
}

#[test]
fn simple_compile_learns_new_words() {
    let mut c = SimpleCompiler::new();
    let ts = c.compile("O gato correu.");
    assert_eq!(
        ts,
        vec![
            Token7::new(1, 515).with_style(6),
            Token7::new(2, 880).with_style(46),
            Token7::new(3, 129).with_style(42),
        ]
    );
    assert_eq!(c.next_id, 4);
    assert_eq!(c.roots, vec!["", "o", "gato", "correu"]);
    // the class sits in the morphology's low three bits
    assert_eq!(ts.iter().map(|t| t.morph_class()).collect::<Vec<_>>(), vec![3, 0, 1]);
    assert_eq!(c.lexicon.get(&"gato".to_string()), Some((2, 880, 0, 46)));
    // known words, in either case, are not learned again
    let again = c.compile("o GATO");
    assert_eq!(again, vec![Token7::new(1, 515).with_style(6), Token7::new(2, 880).with_style(46)]);
    assert_eq!(c.next_id, 4);
}

#[test]
fn simple_compile_marks_are_known() {
    let mut c = SimpleCompiler::new();
    let ts = c.compile("\u{2014} -");
    assert_eq!(ts, vec![Token7::new(0, 6), Token7::new(0, 6)]);
    assert_eq!(c.next_id, 1);
}

#[test]
fn guessed_classes_follow_the_first_rule() {
    assert_eq!(guess_class("informa\u{e7}\u{e3}o", 9), (0, 1));
    assert_eq!(guess_class("felicidade", 9), (0, 1));
    assert_eq!(guess_class("rapidamente", 9), (4, 2));
    assert_eq!(guess_class("formoso", 9), (2, 4));
    assert_eq!(guess_class("cantar", 9), (1, 8));
    assert_eq!(guess_class("correu", 9), (1, 16));
    assert_eq!(guess_class("falado", 9), (1, 32));
    assert_eq!(guess_class("o", 9), (3, 64));
    assert_eq!(guess_class("as", 9), (3, 128));
    assert_eq!(guess_class("uma", 9), (3, 129));
    assert_eq!(guess_class("de", 9), (5, 3));
    assert_eq!(guess_class("no", 9), (5, 6));
    assert_eq!(guess_class("para", 9), (5, 9));
    assert_eq!(guess_class("mas", 9), (5, 12));
    assert_eq!(guess_class("que", 9), (5, 15));
    assert_eq!(guess_class("ela", 9), (3, 16));
    assert_eq!(guess_class("aquele", 9), (3, 32));
    assert_eq!(guess_class("pouco", 9), (4, 17));
    assert_eq!(guess_class("l\u{e1}", 9), (4, 34));
    assert_eq!(guess_class("nunca", 9), (4, 51));
    // endings are tried before the word lists
    assert_eq!(guess_class("em", 9), (1, 16));
    assert_eq!(guess_class("isto", 9), (1, 32));
    assert_eq!(guess_class("ent\u{e3}o", 9), (5, 12));
}

#[test]
fn unknown_words_take_bits_from_the_id() {
    assert_eq!(guess_class("xyz", 2), (0, 110));
    assert_eq!(guess_class("xyz", 1), (0, 55));
}

#[test]
fn style_is_low_bits_of_the_hash() {
    assert_eq!(word_style(1, 3), 6);
    assert_eq!(word_style(2, 0), 46);
    assert_eq!(word_style(3, 1), 42);
    assert_eq!(word_style(0, 0), 0);
}

#[test]
fn bench_classes() {
    assert_eq!(bench_class("na\u{e7}\u{e3}o"), (0, 0));
    assert_eq!(bench_class("lentamente"), (4, 4));
    assert_eq!(bench_class("poss\u{ed}vel"), (2, 2));
    assert_eq!(bench_class("partir"), (1, 1));
    assert_eq!(bench_class("os"), (3, 3));
    assert_eq!(bench_class("em"), (5, 5));
    assert_eq!(bench_class("gato"), (0, 0));
}

#[test]
fn bench_compile_uses_root_count_as_id() {
    let mut c = BenchCompiler::new();
    let ts = c.compile("O gato");
    assert_eq!(ts, vec![Token7::new(1, 3).with_style(55), Token7::new(2, 0).with_style(46)]);
    assert_eq!(c.roots, vec!["", "o", "gato"]);
    let r = c.reverse();
    assert_eq!(r.len(), 14);
    assert_eq!(r[12], (1, "o".to_string()));
    assert_eq!(r[13], (2, "gato".to_string()));
    assert_eq!(r[0], (0, ",".to_string()));
}
