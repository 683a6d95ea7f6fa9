use text_editor::buffer::TextBuffer;
use text_editor::position::{
    index_to_line_column, offset_to_position, position_to_offset, total_length,
};

#[test]
fn test_index_to_line_column() {
    let text = "Hello\nWorld\nTest";

    // Test beginning of file
    assert_eq!(index_to_line_column(text, 0), Some((0, 0)));

    // Test middle of first line
    assert_eq!(index_to_line_column(text, 2), Some((0, 2)));

    // Test beginning of second line
    assert_eq!(index_to_line_column(text, 6), Some((1, 0)));

    // Test middle of second line
    assert_eq!(index_to_line_column(text, 8), Some((1, 2)));

    // Test beginning of third line
    assert_eq!(index_to_line_column(text, 12), Some((2, 0)));

    // Test end of file
    assert_eq!(index_to_line_column(text, text.len()), Some((2, 4)));

    // Test invalid index
    assert_eq!(index_to_line_column(text, text.len() + 1), None);
}

#[test]
fn test_index_to_line_column_empty_string() {
    let text = "";
    assert_eq!(index_to_line_column(text, 0), Some((0, 0)));
    assert_eq!(index_to_line_column(text, 1), None);
}

#[test]
fn test_index_to_line_column_single_line() {
    let text = "Single line";
    assert_eq!(index_to_line_column(text, 0), Some((0, 0)));
    assert_eq!(index_to_line_column(text, 6), Some((0, 6)));
    assert_eq!(index_to_line_column(text, text.len()), Some((0, text.len())));
}

#[test]
fn test_index_to_line_column_with_unicode() {
    // Offsets count characters, not bytes: the crab is one unit.
    let text = "Hello \u{1f980}\nRust";
    assert_eq!(index_to_line_column(text, 0), Some((0, 0)));
    assert_eq!(index_to_line_column(text, 6), Some((0, 6))); // Before emoji
    assert_eq!(index_to_line_column(text, 7), Some((0, 7))); // After emoji
    assert_eq!(index_to_line_column(text, 8), Some((1, 0))); // Second line
}

#[test]
fn test_offset_position_roundtrip_concrete() {
    let doc = TextBuffer::from_text("Hello\nWorld");
    // every offset of "Hello\nWorld" maps to a position and back
    for off in 0..=11usize {
        let (line, col) = offset_to_position(&doc, off).expect("offset in range");
        assert_eq!(position_to_offset(&doc, line, col), Some(off));
    }
    // positions map to offsets and back
    assert_eq!(position_to_offset(&doc, 0, 5), Some(5));
    assert_eq!(offset_to_position(&doc, 5), Some((0, 5)));
    assert_eq!(position_to_offset(&doc, 1, 0), Some(6));
    assert_eq!(offset_to_position(&doc, 6), Some((1, 0)));
    // out of range
    assert_eq!(offset_to_position(&doc, 12), None);
}

#[test]
fn test_total_length_counts_separators() {
    let doc = TextBuffer::from_text("Hello\nWorld");
    assert_eq!(total_length(&doc), Some(11));
    let empty = TextBuffer::from_text("");
    assert_eq!(total_length(&empty), Some(0));
    let trailing = TextBuffer::from_text("a\n");
    assert_eq!(trailing.lines.len(), 2);
    assert_eq!(total_length(&trailing), Some(2));
}
