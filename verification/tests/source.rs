use wipple_compiler::source::{comment_text, span_source};
use wipple_compiler::syntax::range::Range;
use wipple_compiler::syntax::tokens::Comment;
use wipple_compiler::trace::Span;

fn span(start: usize, end: usize) -> Span {
    Span { path: String::from("input"), range: start..end, start_line_col: (1, 1), end_line_col: (2, 3) }
}

#[test]
fn source_skips_leading_comments_and_blank_lines() {
    let source = "-- note\n\nf x\r\n  y\n";
    let (s, text) = span_source(source, &span(0, source.len()));
    assert!(s == span(0, source.len()));
    assert_eq!(s.path, "input");
    assert_eq!(s.range, 0..source.len());
    assert_eq!(text, "f x\n  y");
}

#[test]
fn source_is_the_text_of_the_span() {
    let source = "a = 1\n-- c\nb = 2";
    let (_, text) = span_source(source, &span(6, 16));
    assert_eq!(text, "b = 2");
    let (_, first) = span_source(source, &span(0, 5));
    assert_eq!(first, "a = 1");
}

#[test]
fn source_keeps_comments_after_the_first_line_of_code() {
    let source = "é\n-- x\nü";
    let (_, text) = span_source(source, &span(0, source.len()));
    assert_eq!(text, "é\n-- x\nü");
}

#[test]
fn source_keeps_a_final_carriage_return() {
    let (_, text) = span_source("x\r", &span(0, 2));
    assert_eq!(text, "x\r");
}

#[test]
fn source_of_only_comments_is_empty() {
    let source = "-- a\n--b\n\n";
    let (_, text) = span_source(source, &span(0, source.len()));
    assert_eq!(text, "");
    let (_, none) = span_source(source, &span(3, 3));
    assert_eq!(none, "");
}

#[test]
fn comments_are_joined_by_line_breaks() {
    let comments = vec![
        Comment { range: Range::Unknown, value: String::from("first") },
        Comment { range: Range::Unknown, value: String::from("second") },
    ];
    assert_eq!(comment_text(&comments), "first\nsecond");
    assert_eq!(comment_text(&vec![]), "");
}
