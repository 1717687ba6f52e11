use wipple_compiler::lines::make_span;
use wipple_compiler::syntax::range::Range;
use wipple_compiler::text::decimal_string;
use wipple_compiler::trace::{Fact, NodeId, Span};

#[test]
fn root_span_is_empty_at_the_start() {
    let span = Span::root("main.wpl");
    assert_eq!(span.path, "main.wpl");
    assert_eq!(span.range, 0..0);
    assert_eq!(span.start_line_col, (0, 0));
    assert_eq!(span.end_line_col, (0, 0));
    assert_eq!(span.to_debug_string(), "main.wpl:0:0");
}

#[test]
fn span_debug_shows_path_line_and_column() {
    let span = Span {
        path: String::from("a/b.wpl"),
        range: 4..7,
        start_line_col: (2, 1),
        end_line_col: (2, 4),
    };
    assert_eq!(span.to_debug_string(), "a/b.wpl:2:1");
}

#[test]
fn node_id_debug() {
    assert_eq!(NodeId(0).to_debug_string(), "NodeId(0)");
    assert_eq!(NodeId(4294967295).to_debug_string(), "NodeId(4294967295)");
}

#[test]
fn decimal_strings() {
    assert_eq!(decimal_string(0), "0");
    assert_eq!(decimal_string(7), "7");
    assert_eq!(decimal_string(10), "10");
    assert_eq!(decimal_string(1234567890), "1234567890");
    assert_eq!(decimal_string(u64::MAX), u64::MAX.to_string());
}

#[test]
fn fact_constructors() {
    assert_eq!(Fact::marker("typed"), Fact::Marker(String::from("typed")));
    assert_eq!(Fact::with_str("name", "x"), Fact::Str(String::from("name"), String::from("x")));
    assert_eq!(Fact::with_node(NodeId(3), "parent"), Fact::Node(NodeId(3), String::from("parent")));
}

#[test]
fn facts_starting_with_underscore_are_ignored() {
    assert!(Fact::marker("_hidden").should_ignore());
    assert!(Fact::with_str("_source", "x").should_ignore());
    assert!(!Fact::marker("typed").should_ignore());
    assert!(!Fact::marker("").should_ignore());
    assert!(!Fact::with_str("name", "_x").should_ignore());
    assert!(!Fact::with_node(NodeId(1), "_relation").should_ignore());
}

#[test]
fn fact_display() {
    assert_eq!(Fact::marker("typed").to_display_string(), "typed");
    assert_eq!(Fact::with_str("name", "a \"b\"").to_display_string(), "name(\"a \\\"b\\\"\")");
    assert_eq!(Fact::with_node(NodeId(12), "input").to_display_string(), "NodeId(12) as \"input\"");
}

#[test]
fn spans_count_lines_and_columns_from_one() {
    let source = "One\nTwo";
    let span = make_span("input", source, Range::Known(4, 7));
    assert_eq!(span.path, "input");
    assert_eq!(span.range, 4..7);
    assert_eq!(span.start_line_col, (2, 1));
    assert_eq!(span.end_line_col, (2, 4));

    let span = make_span("input", source, Range::Known(0, 3));
    assert_eq!(span.start_line_col, (1, 1));
    assert_eq!(span.end_line_col, (1, 4));
}

#[test]
fn span_columns_count_bytes() {
    let source = "é\nab\n\ncd";
    let span = make_span("input", source, Range::Known(2, 6));
    assert_eq!(span.start_line_col, (1, 3));
    assert_eq!(span.end_line_col, (3, 1));
    let span = make_span("input", source, Range::Known(7, 9));
    assert_eq!(span.start_line_col, (4, 1));
    assert_eq!(span.end_line_col, (4, 3));
}
