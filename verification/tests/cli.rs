use hlc::cli::{ensure_hlc_extension, format_size, needs_hlc_extension};

#[test]
fn test_ensure_hlc_extension() {
    let path1 = String::from("test.txt");
    let path2 = String::from("test.hlc");
    assert_eq!(ensure_hlc_extension(path1), String::from("test.hlc"));
    assert_eq!(ensure_hlc_extension(path2), String::from("test.hlc"));
}

#[test]
fn test_format_size() {
    assert_eq!(format_size(512), "512 B");
    assert_eq!(format_size(1024), "1.00 KB");
    assert_eq!(format_size(1536), "1.50 KB");
    assert_eq!(format_size(1048576), "1.00 MB");
}

#[test]
fn extension_is_added_or_replaced() {
    assert_eq!(ensure_hlc_extension(String::from("archive")), "archive.hlc");
    assert_eq!(ensure_hlc_extension(String::from("dir.d/archive.tar.gz")), "dir.d/archive.tar.hlc");
    assert_eq!(ensure_hlc_extension(String::from(".hidden")), ".hidden.hlc");
    assert_eq!(ensure_hlc_extension(String::from("UPPER.HLC")), "UPPER.hlc");
    assert!(needs_hlc_extension(None));
    assert!(needs_hlc_extension(Some("txt")));
    assert!(needs_hlc_extension(Some("HLC")));
    assert!(!needs_hlc_extension(Some("hlc")));
}

#[test]
fn sizes_in_every_unit() {
    assert_eq!(format_size(0), "0 B");
    assert_eq!(format_size(1023), "1023 B");
    assert_eq!(format_size(1025), "1.00 KB");
    assert_eq!(format_size(1029), "1.00 KB");
    assert_eq!(format_size(1030), "1.01 KB");
    assert_eq!(format_size(1048575), "1024.00 KB");
    assert_eq!(format_size(1073741824), "1.00 GB");
    assert_eq!(format_size(1610612736), "1.50 GB");
    assert_eq!(format_size(1099511627776), "1.00 TB");
    assert_eq!(format_size(1024 * 1099511627776), "1024.00 TB");
    assert_eq!(format_size(u64::MAX), "16777216.00 TB");
    assert_eq!(format_size(1280), "1.25 KB");
    assert_eq!(format_size(1152), "1.12 KB");
    assert_eq!(format_size(1408), "1.38 KB");
}
