use hlc::transforms::delta::{decode, decode_advanced, decode_u16_delta, decode_u32_delta};
use hlc::transforms::delta::{encode, encode_advanced, encode_u16_delta, encode_u32_delta};

#[test]
fn test_delta_empty() {
    let data: Vec<u8> = vec![];
    let encoded = encode(&data);
    let decoded = decode(&encoded);
    assert_eq!(data, decoded);
}

#[test]
fn test_delta_single() {
    let data = vec![42];
    let encoded = encode(&data);
    let decoded = decode(&encoded);
    assert_eq!(data, decoded);
    assert_eq!(encoded, vec![42]);
}

#[test]
fn test_delta_sequential() {
    let data = vec![10, 11, 12, 13, 14];
    let encoded = encode(&data);
    let decoded = decode(&encoded);
    assert_eq!(data, decoded);
    let expected = vec![10, 1, 1, 1, 1];
    assert_eq!(encoded, expected);
}

#[test]
fn test_delta_with_wraparound() {
    let data = vec![255, 1, 3];
    let encoded = encode(&data);
    let decoded = decode(&encoded);
    assert_eq!(data, decoded);
    let expected = vec![255, 2, 2];
    assert_eq!(encoded, expected);
}

#[test]
fn test_u16_delta() {
    let data = vec![0x10, 0x00, 0x11, 0x00, 0x12, 0x00];
    let encoded = encode_u16_delta(&data);
    let decoded = decode_u16_delta(&encoded);
    assert_eq!(data, decoded);
}

#[test]
fn u16_delta_keeps_first_word_and_odd_byte() {
    let data = vec![0x10, 0x00, 0x11, 0x00, 0x0F, 0x00, 0x77];
    let encoded = encode_u16_delta(&data);
    assert_eq!(encoded, vec![0x10, 0x00, 0x01, 0x00, 0xFE, 0xFF, 0x77]);
    assert_eq!(decode_u16_delta(&encoded), data);
}

#[test]
fn u32_delta_keeps_first_word_and_last_bytes() {
    let data = vec![0x00, 0x01, 0x00, 0x00, 0x05, 0x01, 0x00, 0x00, 0xFF, 0x00, 0x00, 0x00, 9, 8, 7];
    let encoded = encode_u32_delta(&data);
    assert_eq!(
        encoded,
        vec![0x00, 0x01, 0x00, 0x00, 0x05, 0x00, 0x00, 0x00, 0xFA, 0xFF, 0xFF, 0xFF, 9, 8, 7]
    );
    assert_eq!(decode_u32_delta(&encoded), data);
}

#[test]
fn short_inputs_pass_through_word_deltas() {
    assert_eq!(encode_u16_delta(&[5]), vec![5]);
    assert_eq!(decode_u16_delta(&[5]), vec![5]);
    assert_eq!(encode_u32_delta(&[1, 2, 3]), vec![1, 2, 3]);
    assert_eq!(decode_u32_delta(&[1, 2, 3]), vec![1, 2, 3]);
    assert_eq!(encode_u32_delta(&[]), Vec::<u8>::new());
}

#[test]
fn advanced_delta_selects_by_word_size() {
    let data: Vec<u8> = (0..41u32).map(|i| (i * 37 % 251) as u8).collect();
    assert_eq!(encode_advanced(&data, 1), encode(&data));
    assert_eq!(encode_advanced(&data, 2), encode_u16_delta(&data));
    assert_eq!(encode_advanced(&data, 4), encode_u32_delta(&data));
    assert_eq!(encode_advanced(&data, 3), encode(&data));
    for word_size in [0usize, 1, 2, 3, 4, 8] {
        let encoded = encode_advanced(&data, word_size);
        assert_eq!(decode_advanced(&encoded, word_size), data);
    }
}

#[test]
fn delta_roundtrip_on_all_byte_pairs() {
    for a in 0..=255u8 {
        for b in [0u8, 1, 127, 128, 254, 255] {
            let data = vec![a, b, a];
            assert_eq!(decode(&encode(&data)), data);
        }
    }
}
