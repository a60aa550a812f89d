use hamming_rs::{Hamming, Hamming1511, Hamming74, HammingCode, HammingError};

#[test]
fn test_general_hamming() {
    let h = Hamming::new(11); // Hamming(15,11)
    let data = vec![0x47, 0xA3]; // 16 bits

    let encoded = h.encode(&data);
    let decoded = h.decode(&encoded).unwrap();

    // With padding, we might get extra zeros
    assert!(decoded.starts_with(&data));
}

#[test]
fn test_general_hamming_exact_fit() {
    let h = Hamming::new(4); // Like Hamming(7,4)
    let data = vec![0x55]; // 8 bits = exactly 2 blocks of 4 bits each

    let encoded = h.encode(&data);
    assert_eq!(encoded.len(), 2); // 2 blocks * 7 bits = 14 bits = 2 bytes

    let decoded = h.decode(&encoded).unwrap();
    assert_eq!(decoded, data);
}

#[test]
fn test_hamming1511_basic() {
    let h = Hamming1511;
    let data = vec![0x47, 0xA3];

    let encoded = h.encode(&data);
    let decoded = h.decode(&encoded).unwrap();

    assert_eq!(decoded, data);
}

#[test]
fn test_hamming1511_single_bit_error() {
    let h = Hamming1511;
    let data = vec![0x55, 0xAA];

    let mut encoded = h.encode(&data);
    // Introduce an error in the first block
    encoded[0] ^= 0x20;

    let decoded = h.decode(&encoded).unwrap();
    assert_eq!(decoded, data);
}

#[test]
fn test_hamming1511_block_encoding() {
    // Test specific bit pattern
    let data = 0x555; // 01010101101 (11 bits)
    let encoded = Hamming1511::encode_block(data);
    let decoded = Hamming1511::decode_block(encoded).unwrap();

    assert_eq!(decoded, data);
}

#[test]
fn test_hamming1511_all_ones() {
    let data = 0x7FF; // All 11 bits set
    let encoded = Hamming1511::encode_block(data);
    let decoded = Hamming1511::decode_block(encoded).unwrap();

    assert_eq!(decoded, data);
}

#[test]
fn test_hamming74_encode_decode() {
    let h74 = Hamming74;
    let data = vec![0x47, 0xA3]; // Example data

    let encoded = h74.encode(&data);
    let decoded = h74.decode(&encoded).unwrap();

    assert_eq!(data, decoded);
}

#[test]
fn test_hamming74_single_bit_error() {
    let h74 = Hamming74;
    let data = vec![0x47];

    let mut encoded = h74.encode(&data);
    // Flip a bit
    encoded[0] ^= 0x08;

    let decoded = h74.decode(&encoded).unwrap();
    assert_eq!(data, decoded);
}

#[test]
fn test_hamming74_exact_codeword() {
    // Nibble 0x7: data bits 1,1,1,0 give parity bits 0,0,0, so the 7-bit
    // codeword is d1<<2 | d2<<4 | d3<<5 = 0x34; nibble 0x0 encodes to 0x00.
    let encoded = Hamming74.encode(&[0x07]);
    assert_eq!(encoded, vec![0x34, 0x00]);
}

#[test]
fn test_hamming74_every_bit_flip_corrected() {
    let h74 = Hamming74;
    let data = vec![0x9C, 0x01];
    let encoded = h74.encode(&data);
    for byte in 0..encoded.len() {
        for bit in 0..8 {
            let mut corrupted = encoded.clone();
            corrupted[byte] ^= 1 << bit;
            assert_eq!(h74.decode(&corrupted).unwrap(), data);
        }
    }
}

#[test]
fn test_hamming74_odd_length_rejected() {
    assert_eq!(
        Hamming74.decode(&[0x12, 0x05, 0x33]),
        Err(HammingError::InvalidLength)
    );
}

#[test]
fn test_hamming74_empty() {
    assert_eq!(Hamming74.encode(&[]), Vec::<u8>::new());
    assert_eq!(Hamming74.decode(&[]), Ok(Vec::new()));
}

#[test]
fn test_hamming74_sizes() {
    assert_eq!(Hamming74.block_size(), 7);
    assert_eq!(Hamming74.data_bits(), 4);
}

#[test]
fn test_hamming1511_exact_block() {
    // Group 1: data bit d0 lands on word bit 2, and parity checks p1 and p2
    // both cover it, so the codeword is 0b100 | 0b1 | 0b10 = 0x0007.
    assert_eq!(Hamming1511::encode_block(1), 0x0007);
    assert_eq!(Hamming1511::encode_block(0), 0x0000);
}

#[test]
fn test_hamming1511_every_bit_flip_corrected() {
    let h = Hamming1511;
    let data = vec![0x55, 0xAA];
    let encoded = h.encode(&data);
    for byte in 0..encoded.len() {
        for bit in 0..8 {
            let mut corrupted = encoded.clone();
            corrupted[byte] ^= 1 << bit;
            assert_eq!(h.decode(&corrupted).unwrap(), data);
        }
    }
}

#[test]
fn test_hamming1511_odd_length_rejected() {
    assert_eq!(
        Hamming1511.decode(&[0x01, 0x02, 0x03]),
        Err(HammingError::InvalidLength)
    );
}

#[test]
fn test_hamming1511_empty() {
    assert_eq!(Hamming1511.encode(&[]), Vec::<u8>::new());
    assert_eq!(Hamming1511.decode(&[]), Ok(Vec::new()));
}

#[test]
fn test_hamming1511_sizes() {
    assert_eq!(Hamming1511.block_size(), 15);
    assert_eq!(Hamming1511.data_bits(), 11);
}

#[test]
fn test_hamming1511_partial_group_padding() {
    // One byte is 8 bits: a single zero-extended 11-bit group, one block,
    // two encoded bytes; decoding drops the 3 leftover bits and gives back
    // exactly one byte.
    let h = Hamming1511;
    let data = vec![0xC3];
    let encoded = h.encode(&data);
    assert_eq!(encoded.len(), 2);
    let decoded = h.decode(&encoded).unwrap();
    assert_eq!(decoded, data);
}

#[test]
fn test_general_parity_bit_derivation() {
    // The smallest r with 2^r >= m + r + 1.
    assert_eq!(Hamming::new(1).block_size(), 3); // r = 2
    assert_eq!(Hamming::new(4).block_size(), 7); // r = 3
    assert_eq!(Hamming::new(11).block_size(), 15); // r = 4
    assert_eq!(Hamming::new(26).block_size(), 31); // r = 5
    assert_eq!(Hamming::new(11).data_bits(), 11);
}

#[test]
fn test_general_hamming_empty() {
    let h = Hamming::new(8);
    assert_eq!(h.encode(&[]), Vec::<u8>::new());
    assert_eq!(h.decode(&[]), Ok(Vec::new()));
}

#[test]
fn test_general_hamming_too_short_rejected() {
    // Hamming(15,11): one byte holds less than one 15-bit block.
    let h = Hamming::new(11);
    assert_eq!(h.decode(&[0xFF]), Err(HammingError::InvalidLength));
}

#[test]
fn test_general_hamming_uncorrectable() {
    // data_bits = 5 gives r = 4, block_size = 9. A received block with
    // only positions 2 and 8 set has syndrome 2 ^ 8 = 10 > 9.
    let h = Hamming::new(5);
    assert_eq!(h.block_size(), 9);
    assert_eq!(
        h.decode(&[0x82, 0x00]),
        Err(HammingError::UncorrectableErrors)
    );
}

#[test]
fn test_general_hamming_every_bit_flip_corrected() {
    let h = Hamming::new(4);
    let data = vec![0x55]; // exact fit: two blocks, 14 bits in 2 bytes
    let encoded = h.encode(&data);
    for byte in 0..encoded.len() {
        for bit in 0..8 {
            let mut corrupted = encoded.clone();
            corrupted[byte] ^= 1 << bit;
            assert_eq!(h.decode(&corrupted).unwrap(), data);
        }
    }
}

#[test]
fn test_general_hamming_matches_fixed_74_layout() {
    // Both split a byte into 4-bit groups with 3 parity bits per block.
    let h = Hamming::new(4);
    assert_eq!(h.block_size(), Hamming74.block_size());
    assert_eq!(h.data_bits(), Hamming74.data_bits());
}

#[test]
fn test_general_hamming_long_round_trip() {
    let h = Hamming::new(11);
    let data: Vec<u8> = (0..=255u8).collect();
    let encoded = h.encode(&data);
    let decoded = h.decode(&encoded).unwrap();
    assert!(decoded.starts_with(&data));
    // everything past the original data is padding zeros
    for &b in &decoded[data.len()..] {
        assert_eq!(b, 0);
    }
}

#[test]
fn test_hamming74_two_bytes_and_bit3_flip() {
    // One input byte encodes to exactly two blocks; flipping bit 3 of the
    // first output byte is corrected.
    let h74 = Hamming74;
    let encoded = h74.encode(&[0x47]);
    assert_eq!(encoded.len(), 2);
    let mut corrupted = encoded.clone();
    corrupted[0] ^= 1 << 3;
    assert_eq!(h74.decode(&corrupted).unwrap(), vec![0x47]);
}
