use amadeus::quant::{BlockQ4_0, BlockQ6_K, BlockQ8_0};

#[test]
fn q4_0_blocks_unpack_nibbles() {
    let mut b = vec![0x34u8, 0x12];
    b.extend([0xF0u8, 0x81]);
    b.extend([0x88u8; 14]);
    let blk = BlockQ4_0::from_bytes(&b);
    assert_eq!(blk.scale, 0x1234);
    let q = blk.quants();
    assert_eq!(q.len(), 32);
    // Low nibbles are values 0..16, high nibbles values 16..32.
    assert_eq!(&q[..2], &[-8, -7]);
    assert_eq!(&q[16..18], &[7, 0]);
    assert!(q[2..16].iter().all(|&v| v == 0));
    assert!(q[18..].iter().all(|&v| v == 0));
}

#[test]
fn q4_0_low_nibbles_come_first() {
    let mut b = vec![0x00u8, 0x3C, 0x21];
    b.extend([0x88u8; 15]);
    let q = BlockQ4_0::from_bytes(&b).quants();
    assert_eq!(q[0], -7);
    assert_eq!(q[16], -6);
    assert!(q.iter().enumerate().all(|(i, &v)| i == 0 || i == 16 || v == 0));
}

#[test]
fn q8_0_blocks_keep_signed_bytes() {
    let mut b = vec![0x00u8, 0x3C];
    b.extend((0..32).map(|i| if i == 0 { 0xFF } else { i as u8 }));
    let blk = BlockQ8_0::from_bytes(&b);
    assert_eq!(blk.scale, 0x3C00);
    assert_eq!(blk.values[0], -1);
    assert_eq!(blk.values[5], 5);
}

#[test]
fn q6_k_blocks_combine_low_and_high_bits() {
    let mut b = vec![0x21u8; 128];
    b.extend([0b1110_0100u8; 64]);
    b.extend((0..16).map(|i| (i as i8 - 4) as u8));
    b.extend([0x00u8, 0x3C]);
    let blk = BlockQ6_K::from_bytes(&b);
    assert_eq!(blk.d, 0x3C00);
    assert_eq!(blk.scales[0], -4);
    let p = blk.scaled_quants();
    assert_eq!(p.len(), 256);
    assert_eq!(p[0], (-4, -31));
    assert_eq!(p[40], (-2, -15));
    assert_eq!(p[100], (2, 18));
    assert_eq!(p[200], (8, 2));
}
