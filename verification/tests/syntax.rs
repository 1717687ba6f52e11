use std::cmp::Ordering;
use wipple_compiler::syntax::expressions::{Expression, VariableNameExpression};
use wipple_compiler::syntax::patterns::{
    AnnotatePattern, Pattern, SetPattern, TuplePattern, VariablePattern, WildcardPattern,
};
use wipple_compiler::syntax::range::Range;
use wipple_compiler::syntax::statements::{ExpressionStatement, Statement};
use wipple_compiler::syntax::tokens::{trim_comment, trim_quotes, TypeName, VariableName};
use wipple_compiler::syntax::types::{NamedType, Type};
use wipple_compiler::syntax::{SourceFile, Statements};

#[test]
fn unknown_range_equals_every_range() {
    assert_eq!(Range::Unknown, Range::Known(0, 3));
    assert_eq!(Range::Known(5, 9), Range::Unknown);
    assert_eq!(Range::Unknown, Range::Unknown);
}

#[test]
fn known_ranges_compare_by_offsets() {
    assert_eq!(Range::Known(0, 3), Range::Known(0, 3));
    assert_ne!(Range::Known(0, 3), Range::Known(0, 4));
    assert_ne!(Range::Known(1, 3), Range::Known(0, 3));
}

#[test]
fn range_equality_is_not_transitive_through_unknown() {
    let a = Range::Known(0, 1);
    let b = Range::Unknown;
    let c = Range::Known(2, 3);
    assert!(a == b && b == c);
    assert!(a != c);
}

#[test]
fn range_order_is_by_start_then_end() {
    assert_eq!(Range::Known(0, 5).partial_cmp(&Range::Known(1, 2)), Some(Ordering::Less));
    assert_eq!(Range::Known(1, 2).partial_cmp(&Range::Known(0, 5)), Some(Ordering::Greater));
    assert_eq!(Range::Known(1, 2).partial_cmp(&Range::Known(1, 3)), Some(Ordering::Less));
    assert_eq!(Range::Known(1, 3).partial_cmp(&Range::Known(1, 2)), Some(Ordering::Greater));
    assert_eq!(Range::Known(1, 3).partial_cmp(&Range::Known(1, 3)), Some(Ordering::Equal));
    assert_eq!(Range::Unknown.partial_cmp(&Range::Known(1, 3)), Some(Ordering::Equal));
    assert_eq!(Range::Known(7, 8).partial_cmp(&Range::Unknown), Some(Ordering::Equal));
    assert!(Range::Known(0, 1) < Range::Known(0, 2));
}

#[test]
fn range_compares_equal_exactly_when_equal() {
    let ranges = [Range::Unknown, Range::Known(0, 1), Range::Known(0, 2), Range::Known(3, 4)];
    for a in ranges {
        for b in ranges {
            assert_eq!(a.partial_cmp(&b) == Some(Ordering::Equal), a == b);
            assert_eq!(a == b, b == a);
        }
    }
}

fn variable(name: &str, range: Range) -> VariableName {
    VariableName { range, value: String::from(name) }
}

#[test]
fn pattern_range_is_the_range_of_the_variant() {
    let wildcard = Pattern::Wildcard(WildcardPattern { range: Range::Known(3, 4) });
    assert_eq!(format!("{:?}", wildcard.range()), "Known(3, 4)");

    let variable_pattern = Pattern::Variable(VariablePattern {
        range: Range::Known(10, 11),
        variable: variable("x", Range::Known(10, 11)),
    });
    assert_eq!(format!("{:?}", variable_pattern.range()), "Known(10, 11)");

    let set = Pattern::SetVariable(SetPattern { range: Range::Known(0, 5), variable: variable("x", Range::Known(4, 5)) });
    assert_eq!(format!("{:?}", set.range()), "Known(0, 5)");

    let tuple = Pattern::Tuple(TuplePattern { range: Range::Unknown, elements: vec![wildcard] });
    assert_eq!(format!("{:?}", tuple.range()), "Unknown");

    let annotate = Pattern::Annotate(AnnotatePattern {
        range: Range::Known(1, 9),
        left: Box::new(variable_pattern),
        right: Type::Named(NamedType {
            range: Range::Known(6, 8),
            name: TypeName { range: Range::Known(6, 8), value: String::from("Number") },
            parameters: vec![],
        }),
    });
    assert_eq!(format!("{:?}", annotate.range()), "Known(1, 9)");
}

#[test]
fn trees_without_ranges_match_parsed_trees() {
    let parsed = SourceFile {
        range: Range::Known(0, 3),
        statements: Some(Statements(vec![Statement::Expression(ExpressionStatement {
            range: Range::Known(0, 3),
            expression: Expression::VariableName(VariableNameExpression {
                range: Range::Known(0, 3),
                variable: variable("abc", Range::Known(0, 3)),
            }),
        })])),
    };
    let written = SourceFile {
        range: Range::Known(0, 3),
        statements: Some(Statements(vec![Statement::Expression(ExpressionStatement {
            range: Range::Unknown,
            expression: Expression::VariableName(VariableNameExpression {
                range: Range::Unknown,
                variable: variable("abc", Range::Known(0, 3)),
            }),
        })])),
    };
    assert_eq!(parsed, written);
    let other = SourceFile {
        range: Range::Unknown,
        statements: Some(Statements(vec![Statement::Expression(ExpressionStatement {
            range: Range::Unknown,
            expression: Expression::VariableName(VariableNameExpression {
                range: Range::Unknown,
                variable: variable("abd", Range::Unknown),
            }),
        })])),
    };
    assert_ne!(parsed, other);
}

#[test]
fn trim_comment_drops_the_dashes() {
    assert_eq!(trim_comment(String::from("-- Documentation comment")), " Documentation comment");
    assert_eq!(trim_comment(String::from("--")), "");
    assert_eq!(trim_comment(String::from("--é")), "é");
}

#[test]
fn trim_quotes_drops_the_quotes() {
    assert_eq!(trim_quotes(String::from("\"abc\"")), "abc");
    assert_eq!(trim_quotes(String::from("\"\"")), "");
    assert_eq!(trim_quotes(String::from("\"héllo\"")), "héllo");
}
