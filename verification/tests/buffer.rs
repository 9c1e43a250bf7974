use kwark::buffer::{Buffer, BufferError, Operation};

#[test]
pub fn test_basic_operations_at_start() {
    let mut buf = Buffer::new();

    buf.insert(0, 0, "hello, world").unwrap();
    assert_eq!(buf.rope().to_string(), "hello, world".to_string());

    buf.delete(0, 0, 5).unwrap();
    assert_eq!(buf.rope().to_string(), ", world".to_string());

    assert_eq!(buf.version(), 2);
}

#[test]
pub fn test_basic_operations_in_text() {
    let mut buf = Buffer::new();

    buf.insert(0, 0, "hello\nworld").unwrap();
    assert_eq!(buf.rope().to_string(), "hello\nworld".to_string());

    buf.delete(1, 1, 4).unwrap();
    assert_eq!(buf.rope().to_string(), "hello\nw".to_string());

    buf.insert(1, 1, "hi").unwrap();
    assert_eq!(buf.rope().to_string(), "hello\nwhi".to_string());

    assert_eq!(buf.version(), 3);
}

#[test]
pub fn test_undo_redo() {
    let mut buf = Buffer::new();

    buf.insert(0, 0, "hello, world").unwrap();
    assert_eq!(buf.rope().to_string(), "hello, world".to_string());

    buf.commit_change();

    buf.undo();
    assert_eq!(buf.rope().to_string(), "".to_string());

    buf.redo();
    assert_eq!(buf.rope().to_string(), "hello, world".to_string());

    assert_eq!(buf.version(), 3);
}

#[test]
pub fn test_multi_byte() {
    let mut buf = Buffer::new();

    buf.insert(0, 0, "héllo").unwrap();
    assert_eq!(buf.rope().to_string(), "héllo".to_string());

    buf.undo();
    assert_eq!(buf.rope().to_string(), "".to_string());
}

#[test]
pub fn test_change_clears_redo() {
    let mut buf = Buffer::new();

    buf.insert(0, 0, "hello").unwrap();
    assert_eq!(buf.rope().to_string(), "hello".to_string());

    buf.undo();
    assert_eq!(buf.rope().to_string(), "".to_string());

    buf.redo();
    assert_eq!(buf.rope().to_string(), "hello".to_string());

    buf.insert(0, 0, "hello").unwrap();
    assert_eq!(buf.rope().to_string(), "hellohello".to_string());

    buf.redo();
    assert_eq!(buf.rope().to_string(), "hellohello".to_string());
}

#[test]
pub fn test_multi_change_undo_redo() {
    let mut buf = Buffer::new();

    buf.insert(0, 0, "hello").unwrap();
    assert_eq!(buf.rope().to_string(), "hello".to_string());

    buf.insert(0, 5, ", world").unwrap();
    assert_eq!(buf.rope().to_string(), "hello, world".to_string());

    buf.undo();
    assert_eq!(buf.rope().to_string(), "");

    buf.redo();
    assert_eq!(buf.rope().to_string(), "hello, world");
}

#[test]
fn insert_past_the_last_line_fails() {
    let mut buf = Buffer::new();
    assert!(buf.insert(5, 0, "x").is_err());
    assert_eq!(buf.version(), 0);
}

#[test]
fn delete_past_the_end_fails() {
    let mut buf = Buffer::from_str("abc");
    assert!(buf.delete(0, 1, 5).is_err());
    assert_eq!(buf.rope().to_string(), "abc");
}

#[test]
fn undo_then_redo_restores_the_text() {
    let mut buf = Buffer::from_str("one\ntwo");
    buf.insert(1, 0, "2: ").unwrap();
    buf.commit_change();
    buf.delete(0, 0, 1).unwrap();
    let after = buf.rope().to_string();
    assert_eq!(after, "ne\n2: two");
    buf.undo();
    assert_eq!(buf.rope().to_string(), "one\n2: two");
    buf.undo();
    assert_eq!(buf.rope().to_string(), "one\ntwo");
    buf.redo();
    buf.redo();
    assert_eq!(buf.rope().to_string(), after);
}

#[test]
fn validate_version_reports_an_outdated_version() {
    let mut buf = Buffer::new();
    buf.insert(0, 0, "x").unwrap();
    assert!(buf.validate_version(1).is_ok());
    assert!(matches!(buf.validate_version(0), Err(BufferError::OutdatedVersion)));
}

#[test]
fn clamp_and_line_col_conversions() {
    let buf = Buffer::from_str("ab\ncde\n");
    assert_eq!(buf.len_chars(), 7);
    assert_eq!(buf.len_lines(), 3);
    assert_eq!(buf.clamp(10), 6);
    assert_eq!(buf.clamp(4), 4);
    assert_eq!(buf.char_to_line_col(4), (1, 1));
    assert_eq!(buf.char_to_line_col(100), (1, 3));
    assert_eq!(buf.line_col_to_char(1, 2), 5);
    assert_eq!(buf.line_col_to_char(1, 10), 6);
    assert_eq!(buf.line_col_to_char(0, 10), 2);
}

#[test]
fn viewport_gives_the_visible_lines() {
    let buf = Buffer::from_str("abc\ndefg\nhi");
    let spans = buf.viewport((0, 1), (2, 3));
    assert_eq!(spans.len(), 2);
    assert_eq!(spans[0].text, "bc");
    assert_eq!(spans[1].text, "ef");
    assert_eq!((spans[1].start_char, spans[1].end_char), (5, 7));
}

#[test]
fn operation_inverse_undoes_the_operation() {
    let op = Operation::Insert { line: 0, col: 1, text: "xy".to_string() };
    let mut buf = Buffer::from_str("abc");
    let inv = op.inverse(&buf).unwrap();
    assert!(matches!(inv, Operation::Delete { line: 0, col: 1, len: 2 }));
    op.apply(&mut buf).unwrap();
    assert_eq!(buf.rope().to_string(), "axybc");
    inv.apply(&mut buf).unwrap();
    assert_eq!(buf.rope().to_string(), "abc");
}

#[test]
fn redo_then_undo_goes_back() {
    let mut buf = Buffer::from_str("abc");
    buf.insert(0, 3, "def").unwrap();
    buf.commit_change();
    let v0 = buf.version();
    buf.undo();
    assert_eq!(buf.rope().to_string(), "abc");
    buf.redo();
    assert_eq!(buf.rope().to_string(), "abcdef");
    buf.undo();
    assert_eq!(buf.rope().to_string(), "abc");
    assert_eq!(buf.version(), v0 + 3);
}

#[test]
fn newer_changes_undo_after_an_edit_that_does_not_round_trip() {
    let mut buf = Buffer::from_str("a\rb");
    buf.insert(1, 0, "\n").unwrap();
    buf.commit_change();
    assert_eq!(buf.rope().to_string(), "a\r\nb");
    buf.insert(0, 0, "x").unwrap();
    buf.commit_change();
    buf.undo();
    assert_eq!(buf.rope().to_string(), "a\r\nb");
    buf.redo();
    assert_eq!(buf.rope().to_string(), "xa\r\nb");
}
