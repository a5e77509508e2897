use hlc::config::HlcMode;
use hlc::transforms::analyzer::{analyze_chunk, count_zero_runs, count_zeros, EntropyEstimate};
use hlc::transforms::analyzer::{has_repeating_patterns, has_sequential_patterns};

fn no_entropy() -> EntropyEstimate {
    EntropyEstimate { original: 8_000_000, delta: 8_000_000 }
}

#[test]
fn analyzer_selects_nothing_for_an_empty_chunk() {
    let strategy = analyze_chunk(&[], HlcMode::Max, EntropyEstimate { original: 8_000_000, delta: 0 });
    assert!(!strategy.use_rle);
    assert!(!strategy.use_delta);
    assert!(!strategy.use_dictionary);
    assert!(strategy.original_data.is_empty());
}

#[test]
fn analyzer_counts_zeros_and_runs() {
    let data = [0u8, 0, 1, 0, 2, 2, 0, 0, 0];
    assert_eq!(count_zeros(&data), 6);
    assert_eq!(count_zero_runs(&data), 3);
    assert_eq!(count_zero_runs(&[1, 2, 3]), 0);
    assert_eq!(count_zero_runs(&[0]), 1);
}

#[test]
fn analyzer_rle_by_zero_share() {
    let mut data = vec![1u8; 100];
    for i in 0..30 {
        data[i] = 0;
    }
    assert!(!analyze_chunk(&data, HlcMode::Balanced, no_entropy()).use_rle);
    data[30] = 0;
    assert!(analyze_chunk(&data, HlcMode::Balanced, no_entropy()).use_rle);
}

#[test]
fn analyzer_rle_by_zero_runs() {
    let mut data = vec![1u8; 40];
    data[0] = 0;
    data[10] = 0;
    assert!(!analyze_chunk(&data, HlcMode::Balanced, no_entropy()).use_rle);
    data[20] = 0;
    assert!(analyze_chunk(&data, HlcMode::Balanced, no_entropy()).use_rle);
}

#[test]
fn analyzer_delta_by_entropy_drop() {
    let data = [9u8, 8, 7, 200, 3, 100];
    let under = EntropyEstimate { original: 5_000_000, delta: 3_999_999 };
    let at = EntropyEstimate { original: 5_000_000, delta: 4_000_000 };
    assert!(analyze_chunk(&data, HlcMode::Balanced, under).use_delta);
    assert!(!analyze_chunk(&data, HlcMode::Balanced, at).use_delta);
    assert!(!analyze_chunk(&data, HlcMode::Balanced, EntropyEstimate { original: 0, delta: 0 }).use_delta);
}

#[test]
fn analyzer_sequential_patterns_only_in_max_mode() {
    let data: Vec<u8> = (0..100u8).collect();
    assert!(has_sequential_patterns(&data));
    assert!(!analyze_chunk(&data, HlcMode::Balanced, no_entropy()).use_delta);
    assert!(analyze_chunk(&data, HlcMode::Max, no_entropy()).use_delta);
    let jumpy: Vec<u8> = (0..100u32).map(|i| (i * 50 % 256) as u8).collect();
    assert!(!has_sequential_patterns(&jumpy));
    assert!(!has_sequential_patterns(&[7]));
    assert!(has_sequential_patterns(&[7, 9]));
    assert!(has_sequential_patterns(&[9, 7]));
    assert!(!has_sequential_patterns(&[7, 10]));
}

#[test]
fn analyzer_repeating_patterns_only_in_max_mode() {
    let data = b"ABCDABCDABCDABCDABCDABCDABCDABCD".to_vec();
    assert!(has_repeating_patterns(&data));
    assert!(analyze_chunk(&data, HlcMode::Max, no_entropy()).use_dictionary);
    assert!(!analyze_chunk(&data, HlcMode::Balanced, no_entropy()).use_dictionary);
    let plain: Vec<u8> = (0..32u8).collect();
    assert!(!has_repeating_patterns(&plain));
    assert!(!has_repeating_patterns(b"ABCDABC"));
}

#[test]
fn analyzer_keeps_a_copy_of_the_chunk() {
    let data = b"keep me".to_vec();
    let strategy = analyze_chunk(&data, HlcMode::Balanced, no_entropy());
    assert_eq!(strategy.original_data, data);
}
