use kulupu_pow::calculation::ENCODED_LEN;
use kulupu_pow::{Calculation, Difficulty, H256};
use parity_scale_codec::{Decode, Encode};

fn sample() -> Calculation {
    let mut pre_hash = [0u8; 32];
    let mut nonce = [0u8; 32];
    for i in 0..32u8 {
        pre_hash[usize::from(i)] = i;
        nonce[usize::from(i)] = 0xff - i;
    }
    Calculation {
        pre_hash: H256::from_bytes(pre_hash),
        difficulty: Difficulty([0x0807060504030201, 0x100f0e0d0c0b0a09, 0x1817161514131211, 0x201f1e1d1c1b1a19]),
        nonce: H256::from_bytes(nonce),
    }
}

#[test]
fn encoding_is_96_bytes_in_field_order() {
    let bytes = sample().encode();
    assert_eq!(ENCODED_LEN, 96);
    assert_eq!(bytes.len(), 96);
    for i in 0..32usize {
        assert_eq!(bytes[i], i as u8);
        assert_eq!(bytes[32 + i], (i + 1) as u8);
        assert_eq!(bytes[64 + i], 0xff - i as u8);
    }
}

#[test]
fn difficulty_is_little_endian() {
    let c = Calculation {
        pre_hash: H256::zero(),
        difficulty: Difficulty::from_u64(0x0102),
        nonce: H256::zero(),
    };
    let bytes = c.encode();
    assert_eq!(bytes[32], 0x02);
    assert_eq!(bytes[33], 0x01);
    assert!(bytes[34..64].iter().all(|b| *b == 0));
    assert!(bytes[..32].iter().all(|b| *b == 0));
    assert!(bytes[64..].iter().all(|b| *b == 0));
}

#[test]
fn decode_gives_back_what_was_encoded() {
    let c = sample();
    assert_eq!(Calculation::decode(&c.encode()), Some(c));
}

#[test]
fn round_trip_of_boundary_values() {
    let hashes = [H256::zero(), H256::from_bytes([0xff; 32])];
    let difficulties = [Difficulty::zero(), Difficulty::max_value(), Difficulty::from_u64(1)];
    for pre_hash in hashes {
        for difficulty in difficulties {
            for nonce in hashes {
                let c = Calculation { pre_hash, difficulty, nonce };
                let bytes = c.encode();
                assert_eq!(bytes.len(), 96);
                assert_eq!(Calculation::decode(&bytes), Some(c));
            }
        }
    }
}

#[test]
fn maximum_difficulty_encodes_as_all_ones() {
    let c = Calculation {
        pre_hash: H256::zero(),
        difficulty: Difficulty::max_value(),
        nonce: H256::zero(),
    };
    let bytes = c.encode();
    assert!(bytes[32..64].iter().all(|b| *b == 0xff));
    assert_eq!(Difficulty::max_value(), Difficulty([u64::MAX; 4]));
    assert_eq!(Difficulty::zero(), Difficulty([0; 4]));
}

#[test]
fn short_input_does_not_decode() {
    let bytes = sample().encode();
    assert_eq!(Calculation::decode(&bytes[..95]), None);
    assert_eq!(Calculation::decode(&[]), None);
}

#[test]
fn bytes_after_the_encoding_are_left_aside() {
    let c = sample();
    let mut bytes = c.encode();
    bytes.extend_from_slice(&[1, 2, 3]);
    assert_eq!(Calculation::decode(&bytes), Some(c));
}

#[test]
fn different_values_encode_differently() {
    let a = sample();
    let mut b = sample();
    b.difficulty = Difficulty::from_u64(5);
    assert!(a != b);
    assert!(a.encode() != b.encode());
    assert_eq!(a.clone(), a);
}

#[test]
fn encoding_agrees_with_the_scale_codec() {
    let c = sample();
    let wire = (
        sp_core::H256::from(c.pre_hash.0),
        sp_core::U256(c.difficulty.0),
        sp_core::H256::from(c.nonce.0),
    );
    let expected = wire.encode();
    assert_eq!(c.encode(), expected);

    let back = <(sp_core::H256, sp_core::U256, sp_core::H256)>::decode(&mut &expected[..]).unwrap();
    let decoded = Calculation::decode(&expected).unwrap();
    assert_eq!(back.0 .0, decoded.pre_hash.0);
    assert_eq!(back.1 .0, decoded.difficulty.0);
    assert_eq!(back.2 .0, decoded.nonce.0);
}
