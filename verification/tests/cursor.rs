use kwark::buffer::Buffer;
use kwark::cursor::{Cursor, CursorOptions, CursorSet};

fn opts() -> CursorOptions {
    CursorOptions::new()
}

#[test]
fn new_set_has_one_cursor_at_the_start() {
    let set = CursorSet::new();
    let _ = set;
    let o = CursorOptions::new().extend(true).wrap(true).all(false);
    assert!(o.extend && o.wrap && !o.all);
}

#[test]
fn insert_moves_the_caret_past_the_text() {
    let mut buf = Buffer::from_str("abc");
    let mut set = CursorSet::new();
    set.insert(&mut buf, "xy", &opts());
    assert_eq!(buf.rope().to_string(), "xyabc");
    set.insert(&mut buf, "z", &opts());
    assert_eq!(buf.rope().to_string(), "xyzabc");
}

#[test]
fn moving_right_then_inserting() {
    let mut buf = Buffer::from_str("hello\nworld");
    let mut set = CursorSet::new();
    set.move_(&buf, 0, 2, &opts());
    set.insert(&mut buf, "_", &opts());
    assert_eq!(buf.rope().to_string(), "he_llo\nworld");
    set.move_(&buf, 1, 0, &opts());
    set.insert(&mut buf, "!", &opts());
    assert_eq!(buf.rope().to_string(), "he_llo\nwor!ld");
}

#[test]
fn moving_past_the_line_end_stops_without_wrap_and_crosses_with_it() {
    let mut buf = Buffer::from_str("ab\ncd");
    let mut set = CursorSet::new();
    set.move_(&buf, 0, 10, &opts());
    set.insert(&mut buf, "|", &opts());
    assert_eq!(buf.rope().to_string(), "ab|\ncd");

    let mut buf = Buffer::from_str("ab\ncd");
    let mut set = CursorSet::new();
    set.move_(&buf, 0, 4, &opts().wrap(true));
    set.insert(&mut buf, "|", &opts());
    assert_eq!(buf.rope().to_string(), "ab\nc|d");
}

#[test]
fn extending_selects_and_delete_removes_the_selection() {
    let mut buf = Buffer::from_str("hello world");
    let mut set = CursorSet::new();
    set.move_(&buf, 0, 5, &opts().extend(true));
    set.delete(&mut buf, &opts());
    assert_eq!(buf.rope().to_string(), " world");
}

#[test]
fn delete_of_an_empty_selection_does_nothing() {
    let mut buf = Buffer::from_str("abc");
    let mut set = CursorSet::new();
    set.delete(&mut buf, &opts());
    assert_eq!(buf.rope().to_string(), "abc");
    assert_eq!(buf.version(), 0);
}

#[test]
fn swap_exchanges_anchor_and_caret() {
    let mut buf = Buffer::from_str("hello world");
    let mut set = CursorSet::new();
    set.move_(&buf, 0, 5, &opts().extend(true));
    set.swap(&opts());
    set.insert(&mut buf, "[", &opts());
    assert_eq!(buf.rope().to_string(), "[hello world");
}

#[test]
fn set_places_the_primary_cursor() {
    let mut buf = Buffer::from_str("ab\ncdef");
    let mut set = CursorSet::new();
    set.set(&buf, 1, 2, &opts());
    set.insert(&mut buf, "*", &opts());
    assert_eq!(buf.rope().to_string(), "ab\ncd*ef");
    set.set(&buf, 9, 9, &opts());
    set.insert(&mut buf, "#", &opts());
    assert_eq!(buf.rope().to_string(), "ab\ncd*e#f");
}

#[test]
fn remove_and_remove_other_keep_a_cursor() {
    let mut set = CursorSet::new();
    set.remove();
    set.remove_other();
    let mut buf = Buffer::from_str("x");
    set.insert(&mut buf, "y", &opts());
    assert_eq!(buf.rope().to_string(), "yx");
}

#[test]
fn cursor_fields_are_plain() {
    let c = Cursor { anchor: 1, caret: 3, desired_col: 0 };
    let d = c;
    assert_eq!((d.anchor, d.caret, d.desired_col), (1, 3, 0));
}

#[test]
fn set_with_extend_grows_the_selection() {
    let mut buf = Buffer::from_str("ab\ncdef");
    let mut set = CursorSet::new();
    set.set(&buf, 1, 2, &opts().extend(true));
    set.delete(&mut buf, &opts());
    assert_eq!(buf.rope().to_string(), "ef");
}

#[test]
fn set_ignores_all() {
    let mut buf = Buffer::from_str("ab\ncdef");
    let mut set = CursorSet::new();
    set.set(&buf, 1, 1, &opts().all(true));
    set.insert(&mut buf, "*", &opts());
    assert_eq!(buf.rope().to_string(), "ab\nc*def");
}

#[test]
fn can_delete_only_selections_within_the_text() {
    let long = Buffer::from_str("ab\ncdef");
    let short = Buffer::from_str("ab");
    let mut set = CursorSet::new();
    assert!(set.can_delete(&short, &opts()));
    set.set(&long, 1, 2, &opts().extend(true));
    assert!(set.can_delete(&long, &opts()));
    assert!(set.can_delete(&long, &opts().all(true)));
    assert!(!set.can_delete(&short, &opts()));
    assert!(!set.can_delete(&short, &opts().all(true)));
}
