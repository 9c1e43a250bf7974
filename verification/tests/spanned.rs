use kwark::spanned::Spanned;

#[test]
fn test_point_at_single_line_span() {
    let span = Spanned::new(2, 4, "msg");
    assert_eq!(span.point_at("oops", "ab cdef"), "oops\n\nab cdef\n  ^^^");
}

#[test]
fn test_point_at_only_shows_the_starting_line() {
    // A span that runs past the end of its line (e.g. an unclosed
    // block comment spanning to EOF) must not pull later lines into
    // the rendered snippet or produce a caret run sized to the whole
    // multi-line span.
    let text = "1 /* never closed\nmore\nlines";
    let span = Spanned::new(2, text.len() - 1, "msg");
    assert_eq!(
        span.point_at("oops", text),
        "oops\n\n1 /* never closed\n  ^^^^^^^^^^^^^^^^ ..."
    );
}

#[test]
fn test_point_at_span_confined_to_its_line_has_no_ellipsis() {
    let text = "a\nbcd\ne";
    let span = Spanned::new(2, 4, "msg");
    assert_eq!(span.point_at("oops", text), "oops\n\nbcd\n^^^");
}

#[test]
fn point_at_clamps_a_span_past_the_text() {
    let span = Spanned::new(10, 12, ());
    assert_eq!(span.point_at("m", "abc"), "m\n\nabc\n   ^");
}

#[test]
fn into_inner_gives_the_value() {
    let span = Spanned::new(1, 2, 7u8);
    assert_eq!(span.start, 1);
    assert_eq!(span.end, 2);
    assert_eq!(span.into_inner(), 7);
}
