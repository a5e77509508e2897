use hlc::error::HlcError;
use hlc::transforms::dictionary::{decode, decode_with_dictionary, deserialize_dictionary, encode};
use hlc::transforms::dictionary::{encode_with_dictionary, serialize_dictionary, train_dictionary, Dictionary};

#[test]
fn test_dictionary_passthrough() {
    let data = b"Hello, world!".to_vec();
    let encoded = encode(&data);
    let decoded = decode(&encoded);
    assert_eq!(data, decoded);
}

#[test]
fn dictionary_stage_is_the_identity() {
    let data: Vec<u8> = (0..=255u8).collect();
    assert_eq!(encode(&data), data);
    assert_eq!(decode(&data), data);
    assert!(encode(&[]).is_empty());
}

#[test]
fn test_dictionary_building() {
    let mut dict = Dictionary::new();
    let data = b"abcabcdefdefabcdef";
    dict.build_from_data(data, 3, 10);
    assert!(!dict.is_empty());
}

#[test]
fn test_dictionary_serialization() {
    let mut dict = Dictionary::new();
    let data = b"abcabcdefdef";
    dict.build_from_data(data, 3, 10);
    let serialized = serialize_dictionary(&dict);
    let deserialized = deserialize_dictionary(&serialized).unwrap();
    assert_eq!(dict.len(), deserialized.len());
    for entry in dict.entries() {
        assert_eq!(deserialized.get(&entry.pattern), Some(entry.id));
    }
}

#[test]
fn dictionary_learns_repeated_patterns_only() {
    let mut dict = Dictionary::new();
    dict.build_from_data(b"abcXabcY", 3, 10);
    assert_eq!(dict.len(), 1);
    assert_eq!(dict.get(b"abc"), Some(256));
    assert_eq!(dict.pattern(256), Some(&b"abc".to_vec()));
    assert_eq!(dict.get(b"bcX"), None);
    assert_eq!(dict.pattern(257), None);
    let mut none = Dictionary::new();
    none.build_from_data(b"ab", 3, 10);
    assert!(none.is_empty());
    none.build_from_data(b"abcdefgh", 3, 10);
    assert!(none.is_empty());
}

#[test]
fn dictionary_takes_the_most_frequent_patterns_first() {
    let mut dict = Dictionary::new();
    dict.build_from_data(b"xyzxyzxyz__ab_ab_", 3, 1);
    assert_eq!(dict.len(), 1);
    assert_eq!(dict.get(b"xyz"), Some(256));
    let mut two = Dictionary::new();
    two.build_from_data(b"xyzxyzxyz", 3, 2);
    assert_eq!(two.get(b"xyz"), Some(256));
    assert_eq!(two.get(b"xyzx"), Some(257));
    assert_eq!(two.get(b"yzx"), None);
    assert_eq!(two.len(), 2);
}

#[test]
fn dictionary_insert_replaces() {
    let mut dict = Dictionary::new();
    dict.insert(b"abc", 300);
    dict.insert(b"abd", 301);
    dict.insert(b"abc", 302);
    dict.insert(b"xyz", 301);
    assert_eq!(dict.len(), 3);
    assert_eq!(dict.get(b"abc"), Some(302));
    assert_eq!(dict.get(b"abd"), Some(301));
    assert_eq!(dict.get(b"xyz"), Some(301));
    assert_eq!(dict.pattern(300), Some(&b"abc".to_vec()));
    assert_eq!(dict.pattern(301), Some(&b"xyz".to_vec()));
    assert_eq!(dict.pattern(302), Some(&b"abc".to_vec()));
}

#[test]
fn dictionary_coding_exact_bytes() {
    let mut dict = Dictionary::new();
    dict.insert(b"hello", 0x0201);
    dict.insert(b"he", 0x0202);
    dict.insert(b"hello world", 0x0403);
    let encoded = encode_with_dictionary(b"hello\xFFhello world!he", &dict).unwrap();
    assert_eq!(encoded, b"\xFF\x01\x02\xFF\x00\xFF\x03\x04!he".to_vec());
    let decoded = decode_with_dictionary(&encoded, &dict).unwrap();
    assert_eq!(decoded, b"hello\xFFhello world!he".to_vec());
    assert!(encode_with_dictionary(b"", &dict).unwrap().is_empty());
    assert!(decode_with_dictionary(b"", &dict).unwrap().is_empty());
    assert_eq!(encode_with_dictionary(b"plain", &Dictionary::new()).unwrap(), b"plain".to_vec());
}

#[test]
fn dictionary_decoding_edge_cases() {
    let mut dict = Dictionary::new();
    dict.insert(b"abc", 0x0201);
    assert_eq!(decode_with_dictionary(b"x\xFF", &dict).unwrap(), b"x\xFF".to_vec());
    assert_eq!(decode_with_dictionary(b"x\xFF\x01", &dict).unwrap(), b"x\xFF\x01".to_vec());
    assert_eq!(decode_with_dictionary(b"\xFF\x00", &dict).unwrap(), b"\xFF".to_vec());
    assert_eq!(decode_with_dictionary(b"\xFF\x01\x02", &dict).unwrap(), b"abc".to_vec());
    assert!(matches!(
        decode_with_dictionary(b"\xFF\x07\x07", &dict),
        Err(HlcError::DecompressionError(_))
    ));
}

#[test]
fn dictionary_storage_exact_bytes() {
    let mut dict = Dictionary::new();
    dict.insert(b"abc", 0x0201);
    dict.insert(b"", 0x0302);
    let bytes = serialize_dictionary(&dict);
    assert_eq!(bytes, vec![2, 0, 0, 0, 1, 2, 3, 0, b'a', b'b', b'c', 2, 3, 0, 0]);
    let read = deserialize_dictionary(&bytes).unwrap();
    assert_eq!(read.len(), 2);
    assert_eq!(read.get(b"abc"), Some(0x0201));
    assert_eq!(read.get(b""), Some(0x0302));
    assert_eq!(serialize_dictionary(&Dictionary::new()), vec![0, 0, 0, 0]);
}

#[test]
fn dictionary_storage_errors() {
    assert!(matches!(deserialize_dictionary(&[1, 0, 0]), Err(HlcError::DecompressionError(_))));
    assert!(matches!(deserialize_dictionary(&[1, 0, 0, 0]), Err(HlcError::DecompressionError(_))));
    assert!(matches!(deserialize_dictionary(&[1, 0, 0, 0, 1, 2, 3]), Err(HlcError::DecompressionError(_))));
    assert!(matches!(
        deserialize_dictionary(&[1, 0, 0, 0, 1, 2, 3, 0, b'a', b'b']),
        Err(HlcError::DecompressionError(_))
    ));
    assert!(deserialize_dictionary(&[0, 0, 0, 0, 9, 9]).unwrap().is_empty());
}

#[test]
fn training_shares_the_patterns_among_the_samples() {
    let first: &[u8] = b"abcabcabc";
    let second: &[u8] = b"xyzxyz";
    let dict = train_dictionary(&[first, second], 2);
    assert_eq!(dict.len(), 2);
    assert_eq!(dict.get(b"abc"), Some(256));
    assert_eq!(dict.get(b"xyz"), Some(257));
    assert!(train_dictionary(&[], 10).is_empty());
}

#[test]
fn dictionary_coding_roundtrip_with_identifiers_that_are_told_apart() {
    let mut dict = Dictionary::new();
    dict.insert(b"the quick", 257);
    dict.insert(b"brown fox", 258);
    dict.insert(b"\xFF\xFF\xFF", 0x01FF);
    let data = b"the quick brown fox \xFF\xFF\xFF\xFF jumps over the quick the lazy brown fox\xFF".to_vec();
    let encoded = encode_with_dictionary(&data, &dict).unwrap();
    assert!(encoded.len() < data.len());
    assert_eq!(decode_with_dictionary(&encoded, &dict).unwrap(), data);
}

#[test]
fn dictionary_pattern_with_a_zero_low_byte_identifier_is_coded_byte_by_byte() {
    let mut dict = Dictionary::new();
    dict.insert(b"abcd", 256);
    dict.insert(b"wxyz", 257);
    let encoded = encode_with_dictionary(b"abcdwxyz", &dict).unwrap();
    assert_eq!(encoded, b"abcd\xFF\x01\x01".to_vec());
    assert_eq!(decode_with_dictionary(&encoded, &dict).unwrap(), b"abcdwxyz".to_vec());
}

#[test]
fn dictionary_pattern_whose_identifier_names_another_is_coded_byte_by_byte() {
    let mut dict = Dictionary::new();
    dict.insert(b"first", 300);
    dict.insert(b"second", 300);
    let encoded = encode_with_dictionary(b"first second", &dict).unwrap();
    assert_eq!(encoded, b"first \xFF\x2C\x01".to_vec());
    assert_eq!(decode_with_dictionary(&encoded, &dict).unwrap(), b"first second".to_vec());
}

#[test]
fn test_dictionary_encoding() {
    let mut dict = Dictionary::new();
    let data = b"abcabcdefdefabcdef";
    dict.build_from_data(data, 3, 10);

    let encoded = encode_with_dictionary(data, &dict).unwrap();
    let decoded = decode_with_dictionary(&encoded, &dict).unwrap();
    assert_eq!(data.to_vec(), decoded);
}

#[test]
fn dictionary_coding_roundtrip_with_a_built_dictionary() {
    let data = b"the cat and the hat and the bat\xFF\xFF and the cat and the hat\xFF".to_vec();
    let mut dict = Dictionary::new();
    dict.build_from_data(&data, 3, 600);
    assert!(dict.len() >= 2);
    let encoded = encode_with_dictionary(&data, &dict).unwrap();
    assert!(encoded.len() < data.len());
    assert_eq!(decode_with_dictionary(&encoded, &dict).unwrap(), data);
}

fn places_of(data: &[u8], pattern: &[u8]) -> usize {
    if pattern.len() > data.len() {
        return 0;
    }
    (0..=data.len() - pattern.len()).filter(|&i| &data[i..i + pattern.len()] == pattern).count()
}

#[test]
fn dictionary_learns_every_repeated_pattern_while_identifiers_are_left() {
    let mut dict = Dictionary::new();
    dict.build_from_data(b"abcdabcd", 3, 10);
    assert_eq!(dict.len(), 3);
    let mut ids = vec![dict.get(b"abc").unwrap(), dict.get(b"abcd").unwrap(), dict.get(b"bcd").unwrap()];
    ids.sort();
    assert_eq!(ids, vec![256, 257, 258]);
    assert_eq!(dict.get(b"bcda"), None);
    assert_eq!(dict.pattern(259), None);
}

#[test]
fn dictionary_learns_in_the_order_of_falling_frequency() {
    let data = b"xyzxyzxyzxyz__ab_ab_ab_qrsqrs";
    let mut dict = Dictionary::new();
    dict.build_from_data(data, 3, 6);
    assert_eq!(dict.len(), 6);
    let mut last = usize::MAX;
    let mut least = usize::MAX;
    for id in 256..262u16 {
        let pattern = dict.pattern(id).unwrap().clone();
        let places = places_of(data, &pattern);
        assert!(places >= 2);
        assert!(places <= last);
        last = places;
        least = places;
    }
    assert_eq!(dict.pattern(256), Some(&b"xyz".to_vec()));
    assert_eq!(places_of(data, b"xyz"), 4);
    // Nothing that was left out stands in the data more often than what was learned.
    for length in 3..=8usize {
        for at in 0..=data.len() - length {
            let pattern = &data[at..at + length];
            if dict.get(pattern).is_none() {
                assert!(places_of(data, pattern) <= least);
            }
        }
    }
}

#[test]
fn training_learns_from_each_sample_in_turn() {
    let first: &[u8] = b"abcdabcd";
    let second: &[u8] = b"no repeats";
    let third: &[u8] = b"xyzxyz";
    let dict = train_dictionary(&[first, second, third], 9);
    assert_eq!(dict.len(), 4);
    assert!(dict.get(b"abc").is_some() && dict.get(b"abcd").is_some() && dict.get(b"bcd").is_some());
    assert_eq!(dict.get(b"xyz"), Some(259));
    assert_eq!(dict.pattern(260), None);
}
