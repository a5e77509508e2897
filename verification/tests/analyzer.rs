use hlc::analyzer::{CompressionHint, ContentAnalyzer, ContentType, TransformRecommendation};

fn entropy_microbits(data: &[u8]) -> u32 {
    if data.is_empty() {
        return 0;
    }
    let mut counts = [0u32; 256];
    for &byte in data {
        counts[byte as usize] += 1;
    }
    let mut entropy = 0.0f64;
    let data_len = data.len() as f64;
    for &count in counts.iter() {
        if count > 0 {
            let probability = count as f64 / data_len;
            entropy -= probability * probability.log2();
        }
    }
    (entropy * 1_000_000.0).round() as u32
}

#[test]
fn test_json_detection() {
    let analyzer = ContentAnalyzer::new();
    let json_data = b"{\"name\": \"test\", \"value\": 42}";
    let result = analyzer.analyze_chunk(json_data, entropy_microbits(json_data));
    assert_eq!(result.content_type, ContentType::Json);
    assert!(result.recommended_transforms.contains(&TransformRecommendation::Dictionary));
}

#[test]
fn test_text_detection() {
    let analyzer = ContentAnalyzer::new();
    let text_data = b"Hello, world! This is plain text.";
    let result = analyzer.analyze_chunk(text_data, entropy_microbits(text_data));
    assert_eq!(result.content_type, ContentType::Text);
}

#[test]
fn test_binary_detection() {
    let analyzer = ContentAnalyzer::new();
    let binary_data = &[0u8, 1, 2, 3, 4, 5, 6, 7, 8, 9];
    let result = analyzer.analyze_chunk(binary_data, entropy_microbits(binary_data));
    assert_eq!(result.content_type, ContentType::Binary);
}

#[test]
fn analyzer_test_entropy_calculation() {
    let analyzer = ContentAnalyzer::new();
    let low_entropy = vec![0u8; 1000];
    let result = analyzer.analyze_chunk(&low_entropy, entropy_microbits(&low_entropy));
    assert!(result.entropy < 100_000);
    let high_entropy: Vec<u8> = (0..1000).map(|i| (i % 256) as u8).collect();
    let result = analyzer.analyze_chunk(&high_entropy, entropy_microbits(&high_entropy));
    assert!(result.entropy > 7_000_000);
}

#[test]
fn content_types_by_signature() {
    let analyzer = ContentAnalyzer::new();
    let mut png = vec![0x89, b'P', b'N', b'G'];
    png.extend([0u8; 12]);
    assert_eq!(analyzer.detect_content_type(&png), ContentType::Image);
    let mut wav = b"OggS".to_vec();
    wav.extend([0u8; 12]);
    assert_eq!(analyzer.detect_content_type(&wav), ContentType::Audio);
    let mut mp4 = vec![0, 0, 0, 0x20];
    mp4.extend(b"ftypmp42");
    mp4.extend([0u8; 8]);
    assert_eq!(analyzer.detect_content_type(&mp4), ContentType::Video);
    let mut zip = vec![b'P', b'K', 3, 4];
    zip.extend([0u8; 12]);
    assert_eq!(analyzer.detect_content_type(&zip), ContentType::Archive);
    let mut seven = vec![0x37, 0x7A, 0xBC, 0xAF];
    seven.extend([0u8; 12]);
    assert_eq!(analyzer.detect_content_type(&seven), ContentType::Archive);
    assert_eq!(analyzer.detect_content_type(&[]), ContentType::Unknown);
    assert_eq!(analyzer.detect_content_type(&[0x89, b'P', b'N']), ContentType::Binary);
    assert!(analyzer.is_image(b"BM\x00\x00"));
    assert!(!analyzer.is_image(b"BM\x00"));
    assert!(!analyzer.is_audio(b"OggS"));
    assert!(analyzer.is_audio(b"RIFF\x00\x00\x00\x00WAVE"));
    assert!(analyzer.is_video(b"RIFF\x00\x00\x00\x00AVI "));
    assert!(!analyzer.is_archive(b"PK\x03\x05"));
}

#[test]
fn text_is_eighty_percent_printable() {
    let analyzer = ContentAnalyzer::new();
    let mut data = vec![b'a'; 8];
    data.extend([0u8, 1]);
    assert!(analyzer.is_text(&data));
    data[7] = 2;
    assert!(!analyzer.is_text(&data));
    assert!(!analyzer.is_text(&[]));
    assert!(analyzer.is_text(b"\t\n\r ~"));
    assert!(!analyzer.is_text(&[127, 31, 200, 0, 255]));
}

#[test]
fn only_the_sample_counts_for_text() {
    let analyzer = ContentAnalyzer::new();
    let mut data = vec![b'x'; 8192];
    data.extend(vec![0u8; 100_000]);
    assert!(analyzer.is_text(&data));
    assert_eq!(analyzer.detect_content_type(&data), ContentType::Text);
}

#[test]
fn json_and_xml_after_white_space() {
    let analyzer = ContentAnalyzer::new();
    assert!(analyzer.is_json(b"  \n\t[1, 2, 3]"));
    assert!(analyzer.is_json(b"{}"));
    assert!(!analyzer.is_json(b"x{}"));
    assert!(!analyzer.is_json(b"   "));
    assert!(!analyzer.is_json(b""));
    assert!(!analyzer.is_json(&[b'{', 0xFF, 0xFE]));
    assert!(analyzer.is_json("\u{2003}{\"k\": 1}".as_bytes()));
    assert!(analyzer.is_xml(b"  <a>text</a>"));
    assert!(analyzer.is_xml(b"<?xml version"));
    assert!(!analyzer.is_xml(b"<a"));
    assert!(!analyzer.is_xml(b"a<b>"));
    assert_eq!(analyzer.detect_content_type(b"<root><leaf/></root>"), ContentType::Xml);
}

#[test]
fn hints_by_content_and_entropy() {
    let analyzer = ContentAnalyzer::new();
    assert_eq!(analyzer.determine_compression_hint(&ContentType::Text, 7_000_000), CompressionHint::Balanced);
    assert_eq!(analyzer.determine_compression_hint(&ContentType::Text, 7_000_001), CompressionHint::Max);
    assert_eq!(analyzer.determine_compression_hint(&ContentType::Json, 7_500_000), CompressionHint::Max);
    assert_eq!(analyzer.determine_compression_hint(&ContentType::Image, 8_000_000), CompressionHint::Fast);
    assert_eq!(analyzer.determine_compression_hint(&ContentType::Video, 0), CompressionHint::Fast);
    assert_eq!(analyzer.determine_compression_hint(&ContentType::Binary, 7_500_000), CompressionHint::Balanced);
    assert_eq!(analyzer.determine_compression_hint(&ContentType::Binary, 7_500_001), CompressionHint::Max);
    assert_eq!(analyzer.determine_compression_hint(&ContentType::Archive, 8_000_000), CompressionHint::Balanced);
    assert_eq!(analyzer.determine_compression_hint(&ContentType::Unknown, 8_000_000), CompressionHint::Balanced);
}

#[test]
fn recommendations_by_content_and_entropy() {
    let analyzer = ContentAnalyzer::new();
    let delta = TransformRecommendation::Delta;
    let dictionary = TransformRecommendation::Dictionary;
    let rle = TransformRecommendation::RLE;
    assert_eq!(analyzer.recommend_transforms(&ContentType::Json, 5_999_999), vec![rle, dictionary]);
    assert_eq!(analyzer.recommend_transforms(&ContentType::Xml, 5_999_999), vec![rle, dictionary]);
    assert_eq!(analyzer.recommend_transforms(&ContentType::Xml, 6_000_000), vec![dictionary]);
    assert_eq!(analyzer.recommend_transforms(&ContentType::Text, 5_999_999), vec![rle, dictionary]);
    assert_eq!(analyzer.recommend_transforms(&ContentType::Text, 6_000_000), vec![dictionary]);
    assert_eq!(analyzer.recommend_transforms(&ContentType::Binary, 4_999_999), vec![rle, delta]);
    assert_eq!(analyzer.recommend_transforms(&ContentType::Binary, 5_000_000), vec![delta]);
    assert_eq!(analyzer.recommend_transforms(&ContentType::Image, 3_999_999), vec![rle]);
    assert_eq!(analyzer.recommend_transforms(&ContentType::Archive, 4_000_000), vec![]);
}
