use amadeus::tokenizer::Tokenizer;

fn vocab(words: &[&str]) -> Vec<String> {
    words.iter().map(|w| w.to_string()).collect()
}

#[test]
fn encode_merges_a_ranked_pair() {
    let t = Tokenizer::new(vocab(&["<unk>", "a", "b", "ab", "c"]), vec![(1, 2)]);
    assert_eq!(t.encode("ab"), vec![3]);
    assert_eq!(t.encode("abc"), vec![3, 4]);
    assert_eq!(t.encode("ba"), vec![2, 1]);
}

#[test]
fn encode_applies_merges_repeatedly() {
    let t = Tokenizer::new(vocab(&["<unk>", "a", "b", "c", "ab", "abc"]), vec![(1, 2), (4, 3)]);
    assert_eq!(t.encode("abc"), vec![5]);
}

#[test]
fn encode_prefers_the_lowest_rank() {
    let t = Tokenizer::new(vocab(&["<unk>", "a", "b", "c", "ab", "bc"]), vec![(2, 3), (1, 2)]);
    assert_eq!(t.encode("abc"), vec![1, 5]);
}

#[test]
fn encode_keeps_left_token_when_join_is_unknown() {
    let t = Tokenizer::new(vocab(&["<unk>", "a", "b"]), vec![(1, 2)]);
    assert_eq!(t.encode("ab"), vec![1]);
}

#[test]
fn encode_unknown_byte_gives_unk() {
    let t = Tokenizer::new(vocab(&["<unk>", "a"]), vec![]);
    assert_eq!(t.encode("xa"), vec![0, 1]);
    assert_eq!(t.encode(""), Vec::<u32>::new());
}

#[test]
fn encode_result_has_no_ranked_pair_and_is_not_longer() {
    let t = Tokenizer::new(vocab(&["<unk>", "a", "b", "c", "ab", "bc", "abc"]), vec![(1, 2), (2, 3), (4, 3)]);
    let text = "abcabcbca";
    let ids = t.encode(text);
    assert!(ids.len() <= text.len());
    let merges = [(1u32, 2u32), (2, 3), (4, 3)];
    for w in ids.windows(2) {
        assert!(!merges.contains(&(w[0], w[1])));
    }
}

#[test]
fn decode_skips_unknown_ids() {
    let t = Tokenizer::new(vocab(&["<unk>", "a", "b", "ab", "c"]), vec![(1, 2)]);
    assert_eq!(t.decode(&[3, 4, 99]), "abc");
    assert_eq!(t.decode(&[]), "");
}

#[test]
fn decode_of_concatenation_is_concatenation() {
    let t = Tokenizer::new(vocab(&["x", "yy", "z"]), vec![]);
    let a = [0u32, 1];
    let b = [2u32, 7, 0];
    let both: Vec<u32> = a.iter().chain(b.iter()).copied().collect();
    assert_eq!(t.decode(&both), format!("{}{}", t.decode(&a), t.decode(&b)));
}

#[test]
fn decode_token_falls_back_to_unk() {
    let t = Tokenizer::new(vocab(&["<s>", "olá"]), vec![]);
    assert_eq!(t.decode_token(1), "olá");
    assert_eq!(t.decode_token(2), "<unk>");
    assert_eq!(t.bos, 1);
    assert_eq!(t.eos, 2);
    assert_eq!(t.unk, 0);
    assert_eq!(t.pad, None);
}

#[test]
fn encode_checked_agrees_with_encode() {
    let t = Tokenizer::new(vocab(&["<unk>", "a", "b", "c", "ab", "abc"]), vec![(1, 2), (4, 3)]);
    assert_eq!(t.encode_checked("abc"), Some(vec![5]));
    assert_eq!(t.encode_checked("xa"), Some(vec![0, 1]));
}

#[test]
fn encode_checked_refuses_a_merge_outside_the_vocabulary() {
    // With no vocabulary every byte is `unk` (id 0), and the ranked pair
    // (0, 0) names no entry.
    let t = Tokenizer::new(vocab(&[]), vec![(0, 0)]);
    assert_eq!(t.encode_checked("xx"), None);
    assert_eq!(t.encode_checked("x"), Some(vec![0]));
}

#[test]
fn decode_gives_back_the_encoded_text() {
    let t = Tokenizer::new(vocab(&["<unk>", "a", "b", "c", "ab", "abc", "bc"]), vec![(1, 2), (4, 3), (2, 3)]);
    for text in ["abcab", "cba", "", "bcabca"] {
        assert_eq!(t.decode(&t.encode(text)), text);
    }
}
