use text_editor::buffer::TextBuffer;
use text_editor::editor::Editor;
use text_editor::keys::Key;

fn create_test_editor() -> Editor {
    Editor::new(None, None, 24, 80)
}

fn create_test_editor_with_content(content: &str) -> Editor {
    Editor::new(None, Some(content.to_string()), 24, 80)
}

#[test]
fn test_editor_creation_empty() {
    let editor = create_test_editor();
    assert_eq!(editor.content.lines.len(), 1);
    assert_eq!(editor.content.lines[0], "");
    assert_eq!(editor.cursor_x, 0);
    assert_eq!(editor.cursor_y, 0);
    assert_eq!(editor.modified, false);
}

#[test]
fn test_editor_creation_with_file() {
    let content = "Line 1\nLine 2\nLine 3";
    let editor = create_test_editor_with_content(content);

    assert_eq!(editor.content.lines.len(), 3);
    assert_eq!(editor.content.lines[0], "Line 1");
    assert_eq!(editor.content.lines[1], "Line 2");
    assert_eq!(editor.content.lines[2], "Line 3");
    assert_eq!(editor.cursor_x, 0);
    assert_eq!(editor.cursor_y, 0);
    assert_eq!(editor.modified, false);
}

#[test]
fn test_insert_char() {
    let mut editor = create_test_editor();

    // Insert first character
    let result = editor.insert_char('H');
    assert!(result);
    assert_eq!(editor.content.lines[0], "H");
    assert_eq!(editor.cursor_x, 1);
    assert_eq!(editor.modified, true);

    // Insert second character
    let result = editor.insert_char('i');
    assert!(result);
    assert_eq!(editor.content.lines[0], "Hi");
    assert_eq!(editor.cursor_x, 2);
}

#[test]
fn test_insert_newline() {
    let mut editor = create_test_editor_with_content("Hello World");
    editor.cursor_x = 5; // Position after "Hello"

    let result = editor.insert_newline();
    assert!(result);

    assert_eq!(editor.content.lines.len(), 2);
    assert_eq!(editor.content.lines[0], "Hello");
    assert_eq!(editor.content.lines[1], " World");
    assert_eq!(editor.cursor_x, 0);
    assert_eq!(editor.cursor_y, 1);
    assert_eq!(editor.modified, true);
}

#[test]
fn test_insert_then_backspace_restores_document() {
    // Inserting a character and deleting backward at the resulting
    // cursor leaves the document exactly as it was.
    let mut editor = create_test_editor_with_content("Hello\nWorld");
    editor.cursor_y = 1;
    editor.cursor_x = 3;

    assert!(editor.insert_char('Z'));
    assert_eq!(editor.content.lines[1], "WorZld");
    assert!(editor.delete_char());
    assert_eq!(editor.content.lines, vec!["Hello".to_string(), "World".to_string()]);
    assert_eq!(editor.cursor_y, 1);
    assert_eq!(editor.cursor_x, 3);
}

#[test]
fn test_delete_char_middle_of_line() {
    let mut editor = create_test_editor_with_content("Hello");
    editor.cursor_x = 3; // Position after "Hel"

    let result = editor.delete_char();
    assert!(result);

    assert_eq!(editor.content.lines[0], "Helo");
    assert_eq!(editor.cursor_x, 2);
    assert_eq!(editor.modified, true);
}

#[test]
fn test_delete_char_beginning_of_line() {
    let mut editor = create_test_editor_with_content("Line 1\nLine 2");
    editor.cursor_y = 1;
    editor.cursor_x = 0; // Beginning of second line

    let result = editor.delete_char();
    assert!(result);

    assert_eq!(editor.content.lines.len(), 1);
    assert_eq!(editor.content.lines[0], "Line 1Line 2");
    assert_eq!(editor.cursor_x, 6);
    assert_eq!(editor.cursor_y, 0);
    assert_eq!(editor.modified, true);
}

#[test]
fn test_delete_char_forward() {
    let mut editor = create_test_editor_with_content("Hello");
    editor.cursor_x = 2; // Position after "He"

    let result = editor.delete_char_forward();
    assert!(result);

    assert_eq!(editor.content.lines[0], "Helo");
    assert_eq!(editor.cursor_x, 2);
    assert_eq!(editor.modified, true);
}

#[test]
fn test_delete_char_forward_at_document_end() {
    let mut editor = create_test_editor_with_content("Hi");
    editor.cursor_x = 2;

    let result = editor.delete_char_forward();
    assert!(!result);
    assert_eq!(editor.content.lines[0], "Hi");
    assert_eq!(editor.modified, false);
}

#[test]
fn test_cursor_movement_up_down() {
    let mut editor = create_test_editor_with_content("Line 1\nLine 2\nLine 3");

    // Move down
    let result = editor.move_cursor_down();
    assert!(!result);
    assert_eq!(editor.cursor_y, 1);

    // Move down again
    let result = editor.move_cursor_down();
    assert!(!result);
    assert_eq!(editor.cursor_y, 2);

    // Try to move down past end (should not move)
    let result = editor.move_cursor_down();
    assert!(!result);
    assert_eq!(editor.cursor_y, 2);

    // Move up
    let result = editor.move_cursor_up();
    assert!(!result);
    assert_eq!(editor.cursor_y, 1);

    // Move to beginning
    let result = editor.move_cursor_up();
    assert!(!result);
    assert_eq!(editor.cursor_y, 0);

    // Try to move up past beginning (should not move)
    let result = editor.move_cursor_up();
    assert!(!result);
    assert_eq!(editor.cursor_y, 0);
}

#[test]
fn test_cursor_movement_left_right() {
    let mut editor = create_test_editor_with_content("Hello");

    // Move right
    let result = editor.move_cursor_right();
    assert!(!result);
    assert_eq!(editor.cursor_x, 1);

    // Move to end of line
    editor.cursor_x = 5; // End of "Hello"

    // Try to move right past end (should not move on single line)
    let result = editor.move_cursor_right();
    assert!(!result);
    assert_eq!(editor.cursor_x, 5);

    // Move left
    let result = editor.move_cursor_left();
    assert!(!result);
    assert_eq!(editor.cursor_x, 4);

    // Move to beginning
    editor.cursor_x = 0;

    // Try to move left past beginning (should not move)
    let result = editor.move_cursor_left();
    assert!(!result);
    assert_eq!(editor.cursor_x, 0);
}

#[test]
fn test_cursor_movement_across_lines() {
    let mut editor = create_test_editor_with_content("Hello\nWorld");
    editor.cursor_x = 5; // End of first line

    // Move right should go to beginning of next line
    let result = editor.move_cursor_right();
    assert!(!result);
    assert_eq!(editor.cursor_x, 0);
    assert_eq!(editor.cursor_y, 1);

    // Move left should go to end of previous line
    let result = editor.move_cursor_left();
    assert!(!result);
    assert_eq!(editor.cursor_x, 5);
    assert_eq!(editor.cursor_y, 0);
}

#[test]
fn test_save_file() {
    let mut editor = create_test_editor();
    editor.content = TextBuffer { lines: vec!["Hello".to_string(), "World".to_string()] };
    editor.modified = true;
    editor.filename = Some("notes.txt".to_string());

    let target = editor.request_save();
    assert_eq!(target, Some("notes.txt".to_string()));
    assert_eq!(editor.content.to_flat_text(), "Hello\nWorld");

    editor.finish_save(true, "Saved to notes.txt".to_string());
    assert_eq!(editor.modified, false);
    assert_eq!(editor.status_message, "Saved to notes.txt");
}

#[test]
fn test_save_without_filename_prompts() {
    let mut editor = create_test_editor();
    editor.modified = true;

    let target = editor.request_save();
    assert_eq!(target, None);
    assert_eq!(editor.status_message, "Enter filename: ");
    assert_eq!(editor.modified, true);
}

#[test]
fn test_save_failure_keeps_modified() {
    let mut editor = create_test_editor();
    editor.modified = true;
    editor.filename = Some("readonly.txt".to_string());

    assert_eq!(editor.request_save(), Some("readonly.txt".to_string()));
    editor.finish_save(false, "Error saving: permission denied".to_string());
    assert_eq!(editor.modified, true);
    assert_eq!(editor.status_message, "Error saving: permission denied");
}

#[test]
fn test_enter_key_splits_line() {
    // One line "Hello World", cursor at column 5, Enter pressed:
    // the line splits and the cursor lands at the new line's start.
    let mut editor = create_test_editor_with_content("Hello World");
    editor.cursor_x = 5;

    let outcome = editor.process_keypress(&Key::Enter);
    assert!(outcome.changed);
    assert_eq!(editor.content.lines, vec!["Hello".to_string(), " World".to_string()]);
    assert_eq!(editor.cursor_y, 1);
    assert_eq!(editor.cursor_x, 0);
}

#[test]
fn test_quit_combo_warns_then_quits() {
    let mut editor = create_test_editor();
    editor.insert_char('x');
    assert!(editor.modified);

    let outcome = editor.process_keypress(&Key::Ctrl(b'q'));
    assert!(!outcome.changed);
    assert!(!editor.should_quit);
    assert!(!editor.modified);
    assert_eq!(
        editor.status_message,
        "File has unsaved changes! Press Ctrl+Q again to quit."
    );

    let outcome = editor.process_keypress(&Key::Ctrl(b'q'));
    assert!(!outcome.changed);
    assert!(editor.should_quit);
}

#[test]
fn test_save_combo_requests_save() {
    let mut editor = create_test_editor();
    let outcome = editor.process_keypress(&Key::Ctrl(b's'));
    assert!(outcome.save_requested);
    assert!(!outcome.changed);
}

#[test]
fn test_home_and_end_keys() {
    let mut editor = create_test_editor_with_content("Hello");
    editor.cursor_x = 3;

    editor.process_keypress(&Key::Home);
    assert_eq!(editor.cursor_x, 0);

    editor.process_keypress(&Key::End);
    assert_eq!(editor.cursor_x, 5);
}

#[test]
fn test_scroll_follows_cursor() {
    // 4 terminal rows leave 2 content rows; moving to the fourth line
    // scrolls the window down, never the cursor.
    let mut editor = Editor::new(None, Some("a\nb\nc\nd\ne".to_string()), 4, 10);
    assert_eq!(editor.terminal_rows, 2);

    editor.process_keypress(&Key::Down);
    editor.process_keypress(&Key::Down);
    editor.process_keypress(&Key::Down);
    assert_eq!(editor.cursor_y, 3);
    assert_eq!(editor.offset_y, 2);

    editor.process_keypress(&Key::Up);
    editor.process_keypress(&Key::Up);
    editor.process_keypress(&Key::Up);
    assert_eq!(editor.cursor_y, 0);
    assert_eq!(editor.offset_y, 0);
}

#[test]
fn test_scroll_follows_cursor_columns() {
    // 3 visible columns: typing a fourth character scrolls the window
    // right while the cursor stays on its column.
    let mut editor = Editor::new(None, None, 24, 3);
    assert_eq!(editor.terminal_cols, 3);

    for c in ['a', 'b', 'c'] {
        editor.process_keypress(&Key::Char(c));
    }
    assert_eq!(editor.cursor_x, 3);
    assert_eq!(editor.offset_x, 1);

    editor.process_keypress(&Key::Char('d'));
    assert_eq!(editor.cursor_x, 4);
    assert_eq!(editor.offset_x, 2);

    editor.process_keypress(&Key::Home);
    assert_eq!(editor.cursor_x, 0);
    assert_eq!(editor.offset_x, 0);
}

#[test]
fn test_visible_rows_window() {
    // 4 terminal rows leave 2 content rows; 2 columns wide, scrolled one
    // column right and one line down.
    let mut editor = Editor::new(None, Some("abcd\nefgh\nijkl".to_string()), 4, 2);
    editor.offset_y = 1;
    editor.offset_x = 1;

    let rows = editor.visible_rows();
    assert_eq!(rows, vec!["fg".to_string(), "jk".to_string()]);

    editor.offset_y = 2;
    let rows = editor.visible_rows();
    assert_eq!(rows, vec!["jk".to_string(), "".to_string()]);
}

#[test]
fn test_unrecognized_control_key_is_inert() {
    let mut editor = create_test_editor_with_content("Hello");
    let outcome = editor.process_keypress(&Key::Ctrl(b'g'));
    assert!(!outcome.changed);
    assert!(!outcome.save_requested);
    assert_eq!(editor.content.lines, vec!["Hello".to_string()]);
    assert!(!editor.modified);
}

#[test]
fn test_flat_text_roundtrip() {
    // Saving and loading reproduces the line sequence exactly, a
    // trailing empty line included; the empty document is one empty line.
    let doc = TextBuffer { lines: vec!["Hello".to_string(), "World".to_string()] };
    let reloaded = TextBuffer::from_text(&doc.to_flat_text());
    assert_eq!(reloaded.lines, doc.lines);

    let with_trailing = TextBuffer { lines: vec!["a".to_string(), "".to_string()] };
    let reloaded = TextBuffer::from_text(&with_trailing.to_flat_text());
    assert_eq!(reloaded.lines, with_trailing.lines);

    let empty = TextBuffer { lines: vec!["".to_string()] };
    assert_eq!(empty.to_flat_text(), "");
    let reloaded = TextBuffer::from_text("");
    assert_eq!(reloaded.lines, vec!["".to_string()]);
}
