use amadeus::amadeus_m::compiler::{old_bits_to_morph, pos_to_class, punct_from_str, word_style, Compiler};
use amadeus::amadeus_m::compiler_state::read_state_record;
use amadeus::amadeus_m::signatures::rotate_right;
use amadeus::amadeus_m::token7::Token7;

#[test]
fn new_compiler_knows_punctuation() {
    let c = Compiler::new("uw");
    assert_eq!(c.base_path, "uw/lingua/raizes");
    assert_eq!(c.lexicon.len(), 12);
    assert_eq!(c.roots, vec![String::new()]);
    assert_eq!(c.next_id, 1);
    assert!(c.graph.is_empty());
    assert_eq!(c.lexicon.get(&",".to_string()), Some((0, 5, 5, 0)));
}

#[test]
fn tokenize_splits_words_and_marks() {
    let c = Compiler::new("uw");
    assert_eq!(c.tokenize("Olá, mundo!"), vec!["Olá", ",", "mundo", "!"]);
    assert_eq!(c.tokenize("d'água  x"), vec!["d'água", "x"]);
    assert!(c.tokenize("   ").is_empty());
}

#[test]
fn compile_records_unknown_words() {
    let mut c = Compiler::new("uw");
    let ts = c.compile("casa bonita");
    assert_eq!(ts.len(), 2);
    assert_eq!(ts[0], Token7::new(1, 8).with_style(1));
    assert_eq!(ts[1], Token7::new(2, 8).with_style(1));
    assert_eq!(c.next_id, 3);
    assert_eq!(c.roots, vec!["".to_string(), "casa".to_string(), "bonita".to_string()]);
    // a second time the words are known
    let again = c.compile("Casa");
    assert_eq!(again, vec![Token7::new(1, 8).with_style(1)]);
    assert_eq!(c.next_id, 3);
}

#[test]
fn compile_infers_class_from_ending() {
    let mut c = Compiler::new("uw");
    let ts = c.compile("rapidamente correr");
    // "rapidamente": other (6), no gender
    assert_eq!(ts[0].morph, 6);
    // "correr": noun by default
    assert_eq!(ts[1].morph, 0);
}

#[test]
fn compile_marks_punctuation() {
    let mut c = Compiler::new("uw");
    let ts = c.compile("...");
    assert_eq!(ts.len(), 3);
    assert_eq!(ts[0], Token7::new(0, 5).with_punct(1));
    let ts = c.compile("?");
    assert_eq!(ts[0].punct, 7);
}

#[test]
fn decompile_spaces_words_and_glues_marks() {
    let mut c = Compiler::new("uw");
    let ts = c.compile("casa, bonita!");
    assert_eq!(c.decompile(&ts), "casa, bonita!");
    assert_eq!(c.decompile(&[Token7::new(42, 0)]), "[42]");
}

#[test]
fn decompile_falls_back_to_roots() {
    let mut c = Compiler::new("uw");
    c.roots = vec!["".to_string(), "".to_string(), "raiz".to_string()];
    assert_eq!(c.decompile(&[Token7::new(2, 0), Token7::new(1, 0)]), "raiz [1]");
}

#[test]
fn root_file_lines_are_loaded() {
    let mut c = Compiler::new("uw");
    c.load_roots_text("# comentário\n7, Casa ,SUBST, 0x20\n3,correr,verb,0x000\nlinha ruim\n\n");
    assert_eq!(c.roots.len(), 8);
    assert_eq!(c.roots[7], "Casa");
    assert_eq!(c.roots[3], "correr");
    assert_eq!(c.next_id, 8);
    assert_eq!(c.lexicon.get(&"Casa".to_string()), Some((7, 8, 0, word_style(7, 0))));
    assert_eq!(c.lexicon.get(&"correr".to_string()), Some((3, 1, 1, word_style(3, 1))));
}

#[test]
fn exception_lines_overwrite_forms() {
    let mut c = Compiler::new("uw");
    c.load_exceptions_text("x,fui,3,0x100\n#x,a,b,c\nfoo\n");
    assert_eq!(c.lexicon.get(&"fui".to_string()), Some((3, 6 | (1 << 8), 6, word_style(3, 6))));
    assert_eq!(c.lexicon.len(), 13);
}

#[test]
fn saved_state_loads_back() {
    let mut c = Compiler::new("uw");
    c.compile("o gato come o peixe");
    let tokens = c.compile("o gato");
    c.build_graph(&tokens, 2);
    let bytes = c.state_bytes();
    let mut d = Compiler::new("other");
    d.load_state_bytes(&bytes);
    assert_eq!(d.next_id, c.next_id);
    assert_eq!(d.roots, c.roots);
    assert_eq!(d.graph, c.graph);
    assert_eq!(d.lexicon.len(), c.lexicon.len());
    for i in 0..c.lexicon.len() {
        let (f, v) = c.lexicon.entry(i);
        assert_eq!(d.lexicon.get(f), Some(v));
    }
    assert_eq!(d.base_path, "other/lingua/raizes");
}

#[test]
fn truncated_state_is_refused() {
    let c = Compiler::new("uw");
    let bytes = c.state_bytes();
    assert!(read_state_record(&bytes[..7]).is_none());
    assert!(read_state_record(&bytes[..3]).is_none());
    assert!(read_state_record(&bytes).is_some());
    // a cut-off graph section is read as far as it goes
    let short = read_state_record(&bytes[..bytes.len() - 3]).unwrap();
    assert!(short.3.is_empty());
}

#[test]
fn graph_has_a_signature_per_root() {
    let mut c = Compiler::new("uw");
    let tokens = vec![Token7::new(1, 0), Token7::new(2, 0), Token7::new(1, 0), Token7::new(0, 5)];
    c.build_graph(&tokens, 1);
    let mut keys: Vec<u32> = c.graph.keys().copied().collect();
    keys.sort();
    assert_eq!(keys, vec![0, 1, 2]);
}

#[test]
fn helpers_follow_their_tables() {
    assert_eq!(pos_to_class("verb"), 1);
    assert_eq!(pos_to_class("Artigo"), 3);
    assert_eq!(pos_to_class("prep"), 4);
    assert_eq!(pos_to_class("xyz"), 6);
    assert_eq!(punct_from_str("..."), 6);
    assert_eq!(punct_from_str("\u{2014}"), 5);
    assert_eq!(punct_from_str(")"), 10);
    assert_eq!(punct_from_str("a"), 0);
    assert_eq!(word_style(5, 5), 0);
    assert_eq!(word_style(1, 0), 1);
    assert_eq!(word_style(3, 0), 2);
    assert_eq!(word_style(7, 0), 0);
    assert_eq!(old_bits_to_morph("0x20", 0), 8);
    assert_eq!(old_bits_to_morph(" 0x80 ", 2), 2 | 16);
    assert_eq!(old_bits_to_morph("0x1c00", 1), 1 | (7 << 5));
    assert_eq!(old_bits_to_morph("zz", 3), 3);
}

#[test]
fn root_files_naming_the_largest_id_are_refused() {
    let mut c = Compiler::new("uw");
    assert!(!c.try_load_roots_text("1,casa,SUBST,0\n4294967295,fim,SUBST,0\n"));
    assert_eq!(c.next_id, 1);
    assert_eq!(c.roots, vec![String::new()]);
    assert_eq!(c.lexicon.len(), 12);
    assert!(c.try_load_roots_text("# raizes\n5,casa,SUBST,0\n"));
    assert_eq!(c.next_id, 6);
    assert_eq!(c.roots[5], "casa");
    assert_eq!(c.lexicon.get(&"casa".to_string()).map(|v| v.0), Some(5));
}

#[test]
fn learned_words_decompile_to_lower_case() {
    let mut c = Compiler::new("uw");
    let ts = c.compile("Sol Lua, MAR!");
    assert_eq!(c.decompile(&ts), "sol lua, mar!");
}

#[test]
fn base_words_rotate_right() {
    assert_eq!(rotate_right(1, 1), 0x8000_0000);
    assert_eq!(rotate_right(0x1234_5678, 0), 0x1234_5678);
    assert_eq!(rotate_right(0x1234_5678, 36), rotate_right(0x1234_5678, 4));
    assert_eq!(rotate_right(0x1234_5678, 4), 0x8123_4567);
}

#[test]
fn graph_base_words_come_from_seed_42() {
    let mut rng = fastrand::Rng::with_seed(42);
    let w: Vec<u32> = (0..3).map(|_| rng.u32(..)).collect();
    let mut c = Compiler::new("uw");
    let tokens = vec![Token7::new(1, 0), Token7::new(2, 0), Token7::new(3, 0)];
    c.build_graph(&tokens, 2);
    assert_eq!(c.graph[&1], w[0] ^ w[1].rotate_right(1) ^ w[2].rotate_right(2));
    assert_eq!(c.graph[&2], w[1] ^ w[0].rotate_right(1) ^ w[2].rotate_right(1));
    assert_eq!(c.graph[&3], w[2] ^ w[0].rotate_right(2) ^ w[1].rotate_right(1));
}

#[test]
fn compiling_again_learns_nothing() {
    let mut c = Compiler::new("uw");
    let first = c.compile("O gato comeu peixes, e o Gato dormiu.");
    let (n, roots, len) = (c.next_id, c.roots.clone(), c.lexicon.len());
    let second = c.compile("O gato comeu peixes, e o Gato dormiu.");
    assert_eq!(first, second);
    assert_eq!(c.next_id, n);
    assert_eq!(c.roots, roots);
    assert_eq!(c.lexicon.len(), len);
}

#[test]
fn new_word_count_counts_the_ids_a_compile_takes() {
    let mut c = Compiler::new("uw");
    let text = "O gato e o Gato.";
    let k = c.new_word_count(text);
    assert_eq!(k, 3);
    let n = c.next_id;
    c.compile(text);
    assert_eq!(c.next_id, n + k as u32);
    assert_eq!(c.new_word_count(text), 0);
}
