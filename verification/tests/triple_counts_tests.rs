use amadeus::amadeus_m::snn::{
    fallback_synapses, input_synapses, label_index, output_labels, MorphEncoding, Strength,
};
use amadeus::amadeus_m::token7::Token7;
use amadeus::amadeus_m::triple_counts::{links_fit_exec, reinforce_counts, train_counts, CountKey};

fn tokens() -> Vec<Token7> {
    vec![
        // article, head is the noun after it
        Token7::new(10, 0x0013).with_syn(1, 2).with_style(1),
        // noun, head is the verb after it
        Token7::new(20, 0x0008).with_syn(1, 0).with_style(1).with_graph(0xABCD),
        // verb, no head
        Token7::new(30, 0x0001).with_syn(0, 5),
    ]
}

#[test]
fn training_counts_roots_cascade_and_agreement() {
    let ts = tokens();
    let keys = train_counts(&ts);
    // First token: class, lexical cascade, nothing else.
    assert_eq!(keys[0], CountKey::RootClass(10, 3));
    assert_eq!(keys[1], CountKey::Lexicon(0x0013, 2, 1, 10));
    assert_eq!(keys[5], CountKey::Class(3, 10));
    // Second token: class, graph, cascade, then head, grandparent,
    // predecessor and class agreement.
    assert_eq!(keys[6], CountKey::RootClass(20, 0));
    assert_eq!(keys[7], CountKey::RootGraph(20, 0xABCD));
    assert_eq!(keys[8], CountKey::Lexicon(0x0008, 0, 1, 20));
    assert_eq!(keys[13], CountKey::Agreement(0x0001, 0, 0, 0x0008, 1));
    assert_eq!(keys[14], CountKey::Agreement(0x0013, 1, 0, 0x0008, 1));
    assert_eq!(keys[15], CountKey::AgreementClass(0, 0x0008, 1));
    // Third token: no graph, no head (offset 0 points at itself).
    assert_eq!(keys[16], CountKey::RootClass(30, 1));
    assert_eq!(keys[22], CountKey::Agreement(0x0008, 1, 1, 0x0001, 0));
    assert_eq!(keys[23], CountKey::AgreementClass(1, 0x0001, 0));
    assert_eq!(keys.len(), 24);
}

#[test]
fn the_head_of_the_head_counts_as_grandparent() {
    let ts = vec![
        Token7::new(1, 0x0001),
        Token7::new(2, 0x0002).with_syn(-1, 1),
        Token7::new(3, 0x0000).with_syn(-1, 1),
    ];
    let keys = train_counts(&ts);
    assert!(keys.contains(&CountKey::Grandparent(0x0001, 0, 0, 0x0000, 0)));
    // A head pointing back at the token itself is no grandparent.
    let loopy = vec![
        Token7::new(1, 0x0001).with_syn(1, 0),
        Token7::new(2, 0x0002).with_syn(-1, 1),
    ];
    assert!(!train_counts(&loopy).iter().any(|k| matches!(k, CountKey::Grandparent(..))));
}

#[test]
fn reinforcement_skips_the_first_token_and_grandparents() {
    let ts = tokens();
    let keys = reinforce_counts(&ts);
    assert_eq!(keys[0], CountKey::Lexicon(0x0008, 0, 1, 20));
    assert_eq!(keys[5], CountKey::Agreement(0x0001, 0, 0, 0x0008, 1));
    assert_eq!(keys[6], CountKey::Agreement(0x0013, 1, 0, 0x0008, 1));
    assert_eq!(keys.len(), 13);
    assert!(reinforce_counts(&[]).is_empty());
    assert!(reinforce_counts(&ts[..1]).is_empty());
}

#[test]
fn head_offsets_must_fit_sixteen_bits() {
    assert!(links_fit_exec(&tokens()));
    let t = vec![Token7::new(1, 0), Token7::new(2, 0).with_syn(i16::MAX, 0)];
    assert!(!links_fit_exec(&t));
    assert!(links_fit_exec(&[]));
}

#[test]
fn output_labels_are_the_distinct_roots_in_order() {
    assert_eq!(output_labels(&[5, 3, 9, 3, 5, 1]), vec![1, 3, 5, 9]);
    assert!(output_labels(&[]).is_empty());
    let labels = output_labels(&[40, 10, 30, 20]);
    assert_eq!(label_index(&labels, 30), Some(2));
    assert_eq!(label_index(&labels, 10), Some(0));
    assert_eq!(label_index(&labels, 25), None);
    assert_eq!(label_index(&[], 1), None);
}

#[test]
fn the_input_wiring_follows_classes_then_keys() {
    let e = MorphEncoding::new();
    let w = input_synapses(&e, &[(0x0012, 3, 1), (0x0007, 20, 9)]);
    // Seven class neurons of five synapses each.
    assert_eq!(&w[0..5], &[(0, 0, Strength::Own), (7, 0, Strength::Shared), (8, 0, Strength::Shared), (9, 0, Strength::Shared), (10, 0, Strength::Shared)]);
    assert_eq!(w[30], (6, 6, Strength::Own));
    // Key 0x0012: class 2, gender 0, number 1, function 3, style 1.
    assert_eq!(
        &w[35..40],
        &[(2, 7, Strength::KeyClass), (7, 7, Strength::KeyFeature), (10, 7, Strength::KeyFeature), (25, 7, Strength::KeyFunction), (20, 7, Strength::KeyFeature)]
    );
    // Class 7 has no class neuron; function and style are capped.
    assert_eq!(&w[40..], &[(7, 8, Strength::KeyFeature), (9, 8, Strength::KeyFeature), (29, 8, Strength::KeyFunction), (21, 8, Strength::KeyFeature)]);
}

#[test]
fn at_most_256_keys_get_a_neuron() {
    let keys: Vec<(u16, u8, u16)> = (0..300u16).map(|i| (i << 5, 0, 0)).collect();
    let w = input_synapses(&MorphEncoding::new(), &keys);
    assert_eq!(w.iter().map(|s| s.1).max(), Some(7 + 255));
}

#[test]
fn every_output_falls_back_to_a_class_neuron() {
    let labels = vec![3u32, 5, 8, 10];
    let members = vec![(0u8, 5u32), (2, 3), (9, 10), (1, 42), (2, 8)];
    // Each class neuron feeds the roots of its class; classes past the last
    // class neuron share it, and a root without an output neuron is skipped.
    assert_eq!(fallback_synapses(&labels, &members), vec![(0, 1), (2, 0), (6, 3), (2, 2)]);
}
