use amadeus::amadeus_m::hypercube::{
    context_key, contexts_at, pack8d, signature_distance, signatures_similar, syn_bin,
};
use amadeus::amadeus_m::token7::Token7;

#[test]
fn syn_bin_buckets_offsets() {
    assert_eq!(syn_bin(0), 0);
    assert_eq!(syn_bin(-1), 1);
    assert_eq!(syn_bin(3), 1);
    assert_eq!(syn_bin(-2), 2);
    assert_eq!(syn_bin(-3), 2);
    assert_eq!(syn_bin(-7), 3);
    assert_eq!(syn_bin(-8), 4);
}

#[test]
fn pack8d_places_fields() {
    let t = Token7::new(5, 3);
    assert_eq!(pack8d(&t, 2), 5 | (3 << 16) | (2u128 << 52));
    let g = Token7::new(0x0001_0002, 0).with_graph(7).with_style(9);
    assert_eq!(pack8d(&g, 0), 3 | (9u128 << 44) | (7u128 << 64));
}

#[test]
fn context_keys_take_the_tokens_before() {
    let ts = vec![Token7::new(1, 0), Token7::new(2, 0), Token7::new(3, 0)];
    let depths = vec![0u8, 1];
    let k = context_key(&ts, &depths, 3, 2);
    assert_eq!(k, vec![pack8d(&ts[1], 1), pack8d(&ts[2], 0)]);
    assert!(context_key(&ts, &depths, 1, 0).is_empty());
}

#[test]
fn contexts_stop_at_order_or_start() {
    let ts = vec![Token7::new(1, 0), Token7::new(2, 0), Token7::new(3, 0)];
    let depths: Vec<u8> = vec![];
    let all = contexts_at(&ts, &depths, 3, 5);
    assert_eq!(all.len(), 3);
    assert_eq!(all[0], vec![pack8d(&ts[2], 0)]);
    assert_eq!(all[2], vec![pack8d(&ts[0], 0), pack8d(&ts[1], 0), pack8d(&ts[2], 0)]);
    assert_eq!(contexts_at(&ts, &depths, 3, 2).len(), 2);
    assert!(contexts_at(&ts, &depths, 0, 3).is_empty());
}

#[test]
fn signature_distance_counts_differing_bits() {
    assert_eq!(signature_distance(0b1010, 0b0110), 2);
    assert_eq!(signature_distance(0, u32::MAX), 32);
    assert_eq!(signature_distance(77, 77), 0);
}

#[test]
fn similar_signatures_differ_in_under_half() {
    assert!(signatures_similar(0, 0x7FFF));
    assert!(!signatures_similar(0, 0xFFFF));
    assert!(signatures_similar(12345, 12345));
}
