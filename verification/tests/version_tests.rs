use binding_generator::version::get_version_from_headers;
use binding_generator::version::get_version_header;
use binding_generator::version::line_reader;
use binding_generator::version::VersionHeaderLocation;

#[test]
fn version_round_trip_in_order() {
    let content = b"#define CV_VERSION_MAJOR 4\n#define CV_VERSION_MINOR 5\n#define CV_VERSION_REVISION 1\n";
    assert_eq!(get_version_from_headers(content), Some(b"4.5.1".to_vec()));
}

#[test]
fn version_round_trip_any_order_interspersed() {
    let content = b"// copyright\n#define CV_VERSION_MINOR 5\n#define SOMETHING_ELSE 9\n#define CV_VERSION_REVISION 1\nint x;\n#define CV_VERSION_MAJOR 4\n";
    assert_eq!(get_version_from_headers(content), Some(b"4.5.1".to_vec()));
}

#[test]
fn version_missing_major_is_none() {
    let content = b"#define CV_VERSION_MINOR 5\n#define CV_VERSION_REVISION 1\n";
    assert_eq!(get_version_from_headers(content), None);
}

#[test]
fn version_missing_minor_is_none() {
    let content = b"#define CV_VERSION_MAJOR 4\n#define CV_VERSION_REVISION 1\n";
    assert_eq!(get_version_from_headers(content), None);
}

#[test]
fn version_missing_revision_is_none() {
    let content = b"#define CV_VERSION_MAJOR 4\n#define CV_VERSION_MINOR 5\n";
    assert_eq!(get_version_from_headers(content), None);
}

#[test]
fn version_empty_input_is_none() {
    assert_eq!(get_version_from_headers(b""), None);
}

#[test]
fn version_repeated_define_before_completion_takes_last() {
    let content = b"#define CV_VERSION_MAJOR 3\n#define CV_VERSION_MAJOR 4\n#define CV_VERSION_MINOR 5\n#define CV_VERSION_REVISION 1\n";
    assert_eq!(get_version_from_headers(content), Some(b"4.5.1".to_vec()));
}

#[test]
fn version_scan_stops_once_complete() {
    let content = b"#define CV_VERSION_MAJOR 4\n#define CV_VERSION_MINOR 5\n#define CV_VERSION_REVISION 1\n#define CV_VERSION_MAJOR 9\n";
    assert_eq!(get_version_from_headers(content), Some(b"4.5.1".to_vec()));
}

#[test]
fn version_define_needs_value_token() {
    let content = b"#define CV_VERSION_MAJOR\n#define CV_VERSION_MINOR 5\n#define CV_VERSION_REVISION 1\n";
    assert_eq!(get_version_from_headers(content), None);
}

#[test]
fn line_reader_splits_and_keeps_terminators() {
    let lines = line_reader(b"ab\ncd\n");
    assert_eq!(lines, vec![b"ab\n".to_vec(), b"cd\n".to_vec()]);
}

#[test]
fn line_reader_trailing_line_without_newline() {
    let lines = line_reader(b"ab\ncd");
    assert_eq!(lines, vec![b"ab\n".to_vec(), b"cd".to_vec()]);
}

#[test]
fn line_reader_empty_input() {
    let lines = line_reader(b"");
    assert!(lines.is_empty());
}

#[test]
fn line_reader_blank_lines_kept() {
    let lines = line_reader(b"\n\nx");
    assert_eq!(lines, vec![b"\n".to_vec(), b"\n".to_vec(), b"x".to_vec()]);
}

#[test]
fn version_header_prefers_core_layout() {
    assert_eq!(get_version_header(true, true), Some(VersionHeaderLocation::CoreHpp));
    assert_eq!(get_version_header(true, false), Some(VersionHeaderLocation::CoreHpp));
}

#[test]
fn version_header_falls_back_to_framework_layout() {
    assert_eq!(get_version_header(false, true), Some(VersionHeaderLocation::FrameworkHpp));
}

#[test]
fn version_header_absent() {
    assert_eq!(get_version_header(false, false), None);
}
