use dpc_common::source::SourceFile;
use std::path::PathBuf;

#[test]
fn source_indexes_its_line_feeds() {
    let source = SourceFile::new(Some(PathBuf::from("a.txt")), "ab\ncd\n\nef".to_string());
    assert_eq!(source.text(), "ab\ncd\n\nef");
    assert_eq!(source.path(), Some(&PathBuf::from("a.txt")));
    assert_eq!(source.line_to_byte(0), Some(0));
    assert_eq!(source.line_to_byte(1), Some(2));
    assert_eq!(source.line_to_byte(2), Some(5));
    assert_eq!(source.line_to_byte(3), Some(6));
    assert_eq!(source.line_to_byte(4), None);
}

#[test]
fn source_maps_bytes_to_lines() {
    let source = SourceFile::new(None, "ab\ncd\n\nef".to_string());
    assert_eq!(source.path(), None);
    let lines: Vec<Option<usize>> = (0..=10).map(|i| source.byte_to_line(i)).collect();
    assert_eq!(
        lines,
        vec![
            Some(0),
            Some(0),
            Some(0),
            Some(1),
            Some(1),
            Some(1),
            Some(2),
            Some(3),
            Some(3),
            Some(3),
            None
        ]
    );
}

#[test]
fn source_without_line_feeds_has_one_line() {
    let source = SourceFile::new(None, "abc".to_string());
    assert_eq!(source.byte_to_line(0), Some(0));
    assert_eq!(source.byte_to_line(3), Some(0));
    assert_eq!(source.byte_to_line(4), None);
    assert_eq!(source.line_to_byte(1), None);
    let empty = SourceFile::new(None, String::new());
    assert_eq!(empty.byte_to_line(0), Some(0));
    assert_eq!(empty.byte_to_line(1), None);
}

#[test]
fn source_replace_range_keeps_the_index_up_to_date() {
    let mut source = SourceFile::new(None, "ab\ncd\nef\n".to_string());
    source.replace_range(3..5, "x\ny\nz");
    assert_eq!(source.text(), "ab\nx\ny\nz\nef\n");
    let fresh = SourceFile::new(None, "ab\nx\ny\nz\nef\n".to_string());
    for line in 0..8 {
        assert_eq!(source.line_to_byte(line), fresh.line_to_byte(line));
    }
    for byte in 0..15 {
        assert_eq!(source.byte_to_line(byte), fresh.byte_to_line(byte));
    }
    source.replace_range(0..3, "");
    assert_eq!(source.text(), "x\ny\nz\nef\n");
    assert_eq!(source.line_to_byte(1), Some(1));
    assert_eq!(source.line_to_byte(4), Some(8));
    assert_eq!(source.line_to_byte(5), None);
    source.replace_range(9..9, "€");
    assert_eq!(source.text(), "x\ny\nz\nef\n€");
    assert!(source.is_boundary(9));
    assert!(!source.is_boundary(10));
    assert!(source.is_boundary(12));
    assert!(!source.is_boundary(13));
}
