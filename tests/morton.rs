use lbvh::morton::MortonCode;

#[test]
fn expand_bits_spreads_every_bit() {
    assert_eq!(MortonCode::expand_bits(0), 0);
    assert_eq!(MortonCode::expand_bits(1), 1);
    assert_eq!(MortonCode::expand_bits(0b11), 0b1001);
    assert_eq!(MortonCode::expand_bits(0b101), 0b1_000_001);
    assert_eq!(MortonCode::expand_bits(1023), 0x0924_9249);
}

#[test]
fn morton_code_interleaves_axes() {
    assert_eq!(MortonCode::new(&[1, 0, 0], 7).code, 1);
    assert_eq!(MortonCode::new(&[0, 1, 0], 7).code, 2);
    assert_eq!(MortonCode::new(&[0, 0, 1], 7).code, 4);
    assert_eq!(MortonCode::new(&[3, 1, 2], 7).code, 0b101_011);
    assert_eq!(MortonCode::new(&[0, 0, 1], 7).primitive_id, 7);
    assert_eq!(MortonCode::new(&[1023, 1023, 1023], 0).code, 0x3FFF_FFFF);
    assert_eq!(MortonCode::new(&[5000, 0, 0], 0).code, 0x0924_9249);
}
