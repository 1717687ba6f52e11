//! Patterns, which match values and bind variables.

use crate::syntax::range::Range;
use crate::syntax::tokens::{Number, Text, VariableName, VariantName};
use crate::syntax::types::Type;
use vstd::prelude::*;

verus! {

/// A pattern.
#[derive(Debug, PartialEq)]
pub enum Pattern {
    Unit(UnitPattern),
    Wildcard(WildcardPattern),
    Variable(VariablePattern),
    Number(NumberPattern),
    Text(TextPattern),
    Destructure(DestructurePattern),
    SetVariable(SetPattern),
    Variant(VariantPattern),
    Or(OrPattern),
    Tuple(TuplePattern),
    Annotate(AnnotatePattern),
}

/// A pattern written in parentheses.
#[derive(Debug, PartialEq)]
pub struct ParenthesizedPattern(pub Pattern);

impl Pattern {
    /// Where the pattern stands: the range of the pattern that the variant
    /// holds.
    pub open spec fn spec_range(self) -> Range {
        match self {
            Pattern::Unit(pattern) => pattern.range,
            Pattern::Wildcard(pattern) => pattern.range,
            Pattern::Variable(pattern) => pattern.range,
            Pattern::Number(pattern) => pattern.range,
            Pattern::Text(pattern) => pattern.range,
            Pattern::Destructure(pattern) => pattern.range,
            Pattern::SetVariable(pattern) => pattern.range,
            Pattern::Variant(pattern) => pattern.range,
            Pattern::Or(pattern) => pattern.range,
            Pattern::Tuple(pattern) => pattern.range,
            Pattern::Annotate(pattern) => pattern.range,
        }
    }

    /// Where the pattern stands in the source.
    pub fn range(&self) -> (r: Range)
        ensures
            r == self.spec_range(),
    {
        match self {
            Pattern::Unit(pattern) => pattern.range,
            Pattern::Wildcard(pattern) => pattern.range,
            Pattern::Variable(pattern) => pattern.range,
            Pattern::Number(pattern) => pattern.range,
            Pattern::Text(pattern) => pattern.range,
            Pattern::Destructure(pattern) => pattern.range,
            Pattern::SetVariable(pattern) => pattern.range,
            Pattern::Variant(pattern) => pattern.range,
            Pattern::Or(pattern) => pattern.range,
            Pattern::Tuple(pattern) => pattern.range,
            Pattern::Annotate(pattern) => pattern.range,
        }
    }
}

/// ```wipple
/// _
/// ```
#[derive(Debug, Clone, PartialEq)]
pub struct WildcardPattern {
    pub range: Range,
}

/// ```wipple
/// x
/// ```
#[derive(Debug, Clone, PartialEq)]
pub struct VariablePattern {
    pub range: Range,
    pub variable: VariableName,
}

/// ```wipple
/// 3.14
/// ```
#[derive(Debug, Clone, PartialEq)]
pub struct NumberPattern {
    pub range: Range,
    pub value: Number,
}

/// ```wipple
/// "abc"
/// ```
#[derive(Debug, Clone, PartialEq)]
pub struct TextPattern {
    pub range: Range,
    pub value: Text,
}

/// ```wipple
/// {x : y}
/// ```
#[derive(Debug, PartialEq)]
pub struct DestructurePattern {
    pub range: Range,
    pub fields: Vec<DestructurePatternField>,
}

/// One field of a destructuring pattern.
#[derive(Debug, PartialEq)]
pub struct DestructurePatternField {
    pub range: Range,
    pub name: VariableName,
    pub value: Pattern,
}

/// ```wipple
/// ()
/// ```
#[derive(Debug, Clone, PartialEq)]
pub struct UnitPattern {
    pub range: Range,
}

/// ```wipple
/// x ; y
/// ```
#[derive(Debug, PartialEq)]
pub struct TuplePattern {
    pub range: Range,
    pub elements: Vec<Pattern>,
}

/// ```wipple
/// x or y or z
/// ```
#[derive(Debug, PartialEq)]
pub struct OrPattern {
    pub range: Range,
    pub patterns: Vec<Pattern>,
}

/// ```wipple
/// set x
/// ```
#[derive(Debug, Clone, PartialEq)]
pub struct SetPattern {
    pub range: Range,
    pub variable: VariableName,
}

/// ```wipple
/// Some x y z
/// ```
#[derive(Debug, PartialEq)]
pub struct VariantPattern {
    pub range: Range,
    pub variant: VariantName,
    pub elements: Vec<VariantPatternElement>,
}

/// One element of a variant pattern.
#[derive(Debug, PartialEq)]
pub struct VariantPatternElement(pub Pattern);

/// ```wipple
/// (x :: Number)
/// ```
#[derive(Debug, PartialEq)]
pub struct AnnotatePattern {
    pub range: Range,
    pub left: Box<Pattern>,
    pub right: Type,
}

} // verus!
