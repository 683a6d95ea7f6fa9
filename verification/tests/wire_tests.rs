use text_editor::editor::Editor;
use text_editor::keys::{decode_byte, decode_escape, Key};
use text_editor::wire::{encode_change, outbound_change, parse_change, TextChange};

#[test]
fn test_key_parsing() {
    // Test character key
    let key = Key::Char('a');
    assert_eq!(key, Key::Char('a'));

    // Test control key
    let key = Key::Ctrl(b'c');
    assert_eq!(key, Key::Ctrl(b'c'));

    // Test special keys
    assert_eq!(Key::Enter, Key::Enter);
    assert_eq!(Key::Backspace, Key::Backspace);
    assert_eq!(Key::Up, Key::Up);
}

#[test]
fn test_key_decoding_bytes() {
    assert_eq!(decode_byte(b'\r'), Key::Enter);
    assert_eq!(decode_byte(b'\n'), Key::Enter);
    assert_eq!(decode_byte(0x7f), Key::Backspace);
    assert_eq!(decode_byte(0x08), Key::Backspace);
    assert_eq!(decode_byte(0x04), Key::Delete);
    assert_eq!(decode_byte(17), Key::Ctrl(b'q'));
    assert_eq!(decode_byte(19), Key::Ctrl(b's'));
    assert_eq!(decode_byte(b'A'), Key::Char('A'));
    assert_eq!(decode_byte(b' '), Key::Char(' '));
    assert_eq!(decode_byte(200), Key::Ctrl(200));
}

#[test]
fn test_key_decoding_escape_sequences() {
    assert_eq!(decode_escape(b'[', b'A'), Key::Up);
    assert_eq!(decode_escape(b'[', b'B'), Key::Down);
    assert_eq!(decode_escape(b'[', b'C'), Key::Right);
    assert_eq!(decode_escape(b'[', b'D'), Key::Left);
    assert_eq!(decode_escape(b'[', b'H'), Key::Home);
    assert_eq!(decode_escape(b'[', b'F'), Key::End);
    assert_eq!(decode_escape(b'[', b'Z'), Key::Escape);
    assert_eq!(decode_escape(b'O', b'A'), Key::Escape);
}

#[test]
fn test_text_change_serialization() {
    let change = TextChange {
        text: "Hello".to_string(),
        start: 0,
        end: 5,
    };

    let json = encode_change(&change);
    let deserialized: TextChange = parse_change(&json).expect("Failed to deserialize");

    assert_eq!(change.text, deserialized.text);
    assert_eq!(change.start, deserialized.start);
    assert_eq!(change.end, deserialized.end);
}

#[test]
fn test_text_change_json_compatibility() {
    // The frame format matches what the remote editor side expects.
    let change = TextChange {
        text: "Hello, World!".to_string(),
        start: 10,
        end: 15,
    };

    let json = encode_change(&change);

    assert!(json.contains("\"text\":\"Hello, World!\""));
    assert!(json.contains("\"start\":10"));
    assert!(json.contains("\"end\":15"));

    let deserialized: TextChange = parse_change(&json).expect("Failed to deserialize");
    assert_eq!(deserialized.text, change.text);
    assert_eq!(deserialized.start, change.start);
    assert_eq!(deserialized.end, change.end);
}

#[test]
fn test_encode_exact_frames() {
    let insert = TextChange { text: "X".to_string(), start: 4, end: 5 };
    assert_eq!(encode_change(&insert), "{\"text\":\"X\",\"start\":4,\"end\":5}");

    let newline = TextChange { text: "\n".to_string(), start: 0, end: 1 };
    assert_eq!(encode_change(&newline), "{\"text\":\"\\n\",\"start\":0,\"end\":1}");

    let delete = TextChange { text: String::new(), start: 7, end: 8 };
    assert_eq!(encode_change(&delete), "{\"text\":\"\",\"start\":7,\"end\":8}");

    let quoted = TextChange { text: "a\"b\\c".to_string(), start: 0, end: 1 };
    assert_eq!(encode_change(&quoted), "{\"text\":\"a\\\"b\\\\c\",\"start\":0,\"end\":1}");

    let control = TextChange { text: "\u{1}".to_string(), start: 0, end: 1 };
    assert_eq!(encode_change(&control), "{\"text\":\"\\u0001\",\"start\":0,\"end\":1}");
}

#[test]
fn test_codec_roundtrip_special_characters() {
    for text in ["", "\n", "\r\n", "\t", "\u{1}", "crab \u{1f980}", "q\"b\\s", "\u{8}\u{c}"] {
        let change = TextChange { text: text.to_string(), start: 3, end: 4 };
        let back = parse_change(&encode_change(&change)).expect("frame should parse");
        assert_eq!(back.text, change.text);
        assert_eq!(back.start, change.start);
        assert_eq!(back.end, change.end);
    }
}

#[test]
fn test_parse_rejects_malformed_frames() {
    assert!(parse_change("").is_none());
    assert!(parse_change("not json").is_none());
    assert!(parse_change("{\"text\":\"a\"}").is_none());
    assert!(parse_change("{\"text\":\"a\",\"start\":1}").is_none());
    assert!(parse_change("{\"text\":\"a\",\"start\":1,\"end\":}").is_none());
    assert!(parse_change("{\"text\":\"a\",\"start\":01,\"end\":2}").is_none());
    assert!(parse_change("{\"text\":\"a\",\"start\":1,\"end\":2} ").is_none());
    assert!(parse_change("{\"text\":\"a,\"start\":1,\"end\":2}").is_none());
    assert!(parse_change("{\"text\":\"\\q\",\"start\":1,\"end\":2}").is_none());
    assert!(parse_change(
        "{\"text\":\"a\",\"start\":99999999999999999999999999,\"end\":2}"
    )
    .is_none());
}

#[test]
fn test_broadcast_change_char() {
    // A character insertion is announced as a one-character replacement
    // just before the new cursor offset.
    let key = Key::Char('H');
    let change = outbound_change(&key, 1);
    assert_eq!(change.text, "H");
    assert_eq!(change.start, 0);
    assert_eq!(change.end, 1);
}

#[test]
fn test_broadcast_change_enter() {
    let key = Key::Enter;
    let change = outbound_change(&key, 1);
    assert_eq!(change.text, "\n");
    assert_eq!(change.start, 0);
    assert_eq!(change.end, 1);
}

#[test]
fn test_broadcast_change_backspace() {
    // A backward deletion is announced as replacing the character range
    // at the cursor offset by nothing.
    let key = Key::Backspace;
    let change = outbound_change(&key, 1);
    assert_eq!(change.text, "");
    assert_eq!(change.start, 1);
    assert_eq!(change.end, 2);
}

#[test]
fn test_inbound_patch_insert() {
    let mut editor = Editor::new(None, Some("Hello".to_string()), 24, 80);
    let change = TextChange { text: "X".to_string(), start: 2, end: 3 };
    editor.apply_change(&change);
    assert_eq!(editor.content.lines, vec!["HeXllo".to_string()]);
    assert!(editor.modified);
}

#[test]
fn test_inbound_patch_newline_splits() {
    let mut editor = Editor::new(None, Some("Hello".to_string()), 24, 80);
    let change = TextChange { text: "\n".to_string(), start: 2, end: 3 };
    editor.apply_change(&change);
    assert_eq!(editor.content.lines, vec!["He".to_string(), "llo".to_string()]);
}

#[test]
fn test_inbound_patch_crlf_splits() {
    let mut editor = Editor::new(None, Some("Hello".to_string()), 24, 80);
    let change = TextChange { text: "\r\n".to_string(), start: 2, end: 3 };
    editor.apply_change(&change);
    assert_eq!(editor.content.lines, vec!["He".to_string(), "llo".to_string()]);
}

#[test]
fn test_inbound_patch_mixed_newline_dropped() {
    // A text that mixes a line break into other characters would break
    // the line structure; such a patch leaves the document unchanged.
    let mut editor = Editor::new(None, Some("Hello".to_string()), 24, 80);
    let change = TextChange { text: "a\nb".to_string(), start: 2, end: 3 };
    editor.apply_change(&change);
    assert_eq!(editor.content.lines, vec!["Hello".to_string()]);
}

#[test]
fn test_inbound_patch_delete() {
    let mut editor = Editor::new(None, Some("Hello".to_string()), 24, 80);
    let change = TextChange { text: String::new(), start: 1, end: 2 };
    editor.apply_change(&change);
    assert_eq!(editor.content.lines, vec!["Hllo".to_string()]);
}

#[test]
fn test_inbound_patch_boundary_deletion_is_noop() {
    // Deleting at offset 5 of ["Hello"] addresses the end of the only
    // line: a forward boundary with no next line to merge, so the
    // document is unchanged.
    let mut editor = Editor::new(None, Some("Hello".to_string()), 24, 80);
    let change = TextChange { text: String::new(), start: 5, end: 6 };
    editor.apply_change(&change);
    assert_eq!(editor.content.lines, vec!["Hello".to_string()]);
}

#[test]
fn test_inbound_patch_out_of_range_dropped() {
    let mut editor = Editor::new(None, Some("Hi".to_string()), 24, 80);
    let change = TextChange { text: "X".to_string(), start: 40, end: 41 };
    editor.apply_change(&change);
    assert_eq!(editor.content.lines, vec!["Hi".to_string()]);
}

#[test]
fn test_outbound_patches_replay_on_replica() {
    // Every local edit, announced through the wire, reproduces itself on
    // a peer holding an identical replica.
    let mut local = Editor::new(None, Some("Hello\nWorld".to_string()), 24, 80);
    let mut replica = Editor::new(None, Some("Hello\nWorld".to_string()), 24, 80);

    let mut replay = |editor: &mut Editor, key: Key| {
        let outcome = editor.process_keypress(&key);
        assert!(outcome.changed);
        let start = editor.cursor_offset().unwrap();
        encode_change(&outbound_change(&key, start))
    };

    // insert a character at (0,2)
    local.cursor_x = 2;
    let frame = replay(&mut local, Key::Char('X'));
    let change = parse_change(&frame).expect("frame should parse");
    replica.apply_change(&change);
    assert_eq!(replica.content.lines, local.content.lines);

    // split the line at the cursor
    let frame = replay(&mut local, Key::Enter);
    let change = parse_change(&frame).expect("frame should parse");
    replica.apply_change(&change);
    assert_eq!(replica.content.lines, local.content.lines);

    // delete backward across the fresh line boundary
    let frame = replay(&mut local, Key::Backspace);
    let change = parse_change(&frame).expect("frame should parse");
    replica.apply_change(&change);
    assert_eq!(replica.content.lines, local.content.lines);
}

#[test]
fn test_concurrent_local_and_remote_edits_stay_atomic() {
    // A local insert of 'X' at (0,0) and an inbound insert of 'Y' at
    // offset 0 on ["ab"]: either order leaves all four characters, none
    // dropped or duplicated.
    let remote = TextChange { text: "Y".to_string(), start: 0, end: 1 };

    // local first
    let mut editor = Editor::new(None, Some("ab".to_string()), 24, 80);
    editor.content.insert(0, 0, 'X');
    assert_eq!(editor.content.lines, vec!["Xab".to_string()]);
    editor.apply_change(&remote);
    assert_eq!(editor.content.lines, vec!["YXab".to_string()]);

    // remote first
    let mut editor = Editor::new(None, Some("ab".to_string()), 24, 80);
    editor.apply_change(&remote);
    assert_eq!(editor.content.lines, vec!["Yab".to_string()]);
    editor.content.insert(0, 0, 'X');
    assert_eq!(editor.content.lines, vec!["XYab".to_string()]);
}
