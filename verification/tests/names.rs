use std::path::Path;

use dash_spv_storage::names::{
    filter_data_segment_path_text, filter_segment_path_text, header_segment_path_text,
    read_filter_segment_id, read_header_segment_id, temp_file_name, TempNames,
};

fn get_temp_path(names: &mut TempNames, path: &Path) -> std::path::PathBuf {
    let file_name = path.file_name().and_then(|n| n.to_str());
    path.with_file_name(names.next_name(file_name, 4711))
}

#[test]
fn test_get_temp_path_uniqueness() {
    let path = Path::new("/some/path/file.dat");

    let mut names = TempNames::new();
    let temp1 = get_temp_path(&mut names, path);
    let temp2 = get_temp_path(&mut names, path);

    assert_ne!(temp1, temp2, "Each call should produce a unique temp path");
    assert!(temp1.to_string_lossy().contains(".tmp"));
    assert!(temp1.to_string_lossy().starts_with("/some/path/.file.dat"));
}

#[test]
fn temp_name_of_a_file() {
    assert_eq!(temp_file_name(Some("index.dat"), 0, 0), ".index.dat.0.0.tmp");
    assert_eq!(
        temp_file_name(Some("a"), u32::MAX, u64::MAX),
        ".a.4294967295.18446744073709551615.tmp"
    );
}

#[test]
fn temp_name_without_file_name() {
    assert_eq!(temp_file_name(None, 7, 10), ".temp.7.10.tmp");
}

#[test]
fn temp_names_differ_where_digits_run_together() {
    assert_ne!(temp_file_name(Some("f"), 1, 23), temp_file_name(Some("f"), 12, 3));
    assert_ne!(temp_file_name(Some("f.1"), 2, 3), temp_file_name(Some("f"), 1, 3));
}

#[test]
fn segment_paths() {
    assert_eq!(header_segment_path_text(0), "headers/segment_0000.dat");
    assert_eq!(header_segment_path_text(42), "headers/segment_0042.dat");
    assert_eq!(header_segment_path_text(85899), "headers/segment_85899.dat");
    assert_eq!(filter_segment_path_text(123), "filters/filter_segment_0123.dat");
    assert_eq!(filter_data_segment_path_text(9999), "filters/filter_data_segment_9999.seg");
}

#[test]
fn segment_numbers_are_read_back() {
    assert_eq!(read_header_segment_id("segment_0000.dat"), Some(0));
    assert_eq!(read_header_segment_id("segment_0042.dat"), Some(42));
    assert_eq!(read_header_segment_id("segment_9999.dat"), Some(9999));
    assert_eq!(read_filter_segment_id("filter_segment_0123.dat"), Some(123));
}

#[test]
fn only_four_bytes_of_a_number_count() {
    assert_eq!(read_header_segment_id("segment_10000.dat"), Some(1000));
    assert_eq!(read_header_segment_id("segment_0007x.dat"), Some(7));
    assert_eq!(read_filter_segment_id("filter_segment_85899.dat"), Some(8589));
}

#[test]
fn a_plus_sign_is_read() {
    assert_eq!(read_header_segment_id("segment_+012.dat"), Some(12));
}

#[test]
fn other_names_have_no_number() {
    assert_eq!(read_header_segment_id("index.dat"), None);
    assert_eq!(read_header_segment_id("segment_.dat"), None);
    assert_eq!(read_header_segment_id("segment_7.dat"), None);
    assert_eq!(read_header_segment_id("segment_abcd.dat"), None);
    assert_eq!(read_header_segment_id("segment_0001.tmp"), None);
    assert_eq!(read_header_segment_id("filter_segment_0001.dat"), None);
    assert_eq!(read_header_segment_id("segment_-001.dat"), None);
    assert_eq!(read_header_segment_id("segment_\u{e4}12.dat"), None);
    assert_eq!(read_header_segment_id(""), None);
    assert_eq!(read_filter_segment_id("segment_0001.dat"), None);
    assert_eq!(read_filter_segment_id("filter_segment_00.dat"), None);
    assert_eq!(read_filter_segment_id("filter_data_segment_0001.seg"), None);
}

#[test]
fn temp_names_are_numbered_over_all_files() {
    let mut names = TempNames::new();
    assert_eq!(names.next_name(Some("a"), 7), ".a.7.0.tmp");
    assert_eq!(names.next_name(Some("b"), 7), ".b.7.1.tmp");
    assert_eq!(names.next_name(None, 7), ".temp.7.2.tmp");
    let mut last = TempNames { next_id: u64::MAX };
    assert_eq!(last.next_name(Some("a"), 7), ".a.7.18446744073709551615.tmp");
    assert_eq!(last.next_name(Some("a"), 7), ".a.7.0.tmp");
}
