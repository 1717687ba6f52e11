//! Expressions.

use crate::syntax::patterns::Pattern;
use crate::syntax::range::Range;
use crate::syntax::statements::Statement;
use crate::syntax::tokens::{Number, Text, TypeName, VariableName};
use crate::syntax::types::Type;
use vstd::prelude::*;

verus! {

/// An expression. The operators that take two operands share one shape,
/// `BinaryExpression`; the variant tells which operator it is.
#[derive(Debug, PartialEq)]
pub enum Expression {
    Placeholder(PlaceholderExpression),
    VariableName(VariableNameExpression),
    TypeName(TypeNameExpression),
    Number(NumberExpression),
    Text(TextExpression),
    FormattedText(FormattedTextExpression),
    Structure(StructureExpression),
    Block(BlockExpression),
    Unit(UnitExpression),
    Call(CallExpression),
    Do(DoExpression),
    When(WhenExpression),
    Intrinsic(IntrinsicExpression),
    Annotate(AnnotateExpression),
    As(AsExpression),
    To(BinaryExpression),
    By(BinaryExpression),
    Power(BinaryExpression),
    Multiply(BinaryExpression),
    Divide(BinaryExpression),
    Remainder(BinaryExpression),
    Add(BinaryExpression),
    Subtract(BinaryExpression),
    LessThan(BinaryExpression),
    LessThanOrEqual(BinaryExpression),
    GreaterThan(BinaryExpression),
    GreaterThanOrEqual(BinaryExpression),
    Equal(BinaryExpression),
    NotEqual(BinaryExpression),
    Is(IsExpression),
    And(BinaryExpression),
    Or(BinaryExpression),
    Apply(ApplyExpression),
    Tuple(TupleExpression),
    Collection(CollectionExpression),
    Function(FunctionExpression),
}

/// ```wipple
/// _
/// ```
#[derive(Debug, Clone, PartialEq)]
pub struct PlaceholderExpression {
    pub range: Range,
}

/// ```wipple
/// foo
/// ```
#[derive(Debug, Clone, PartialEq)]
pub struct VariableNameExpression {
    pub range: Range,
    pub variable: VariableName,
}

/// ```wipple
/// Foo
/// ```
#[derive(Debug, Clone, PartialEq)]
pub struct TypeNameExpression {
    pub range: Range,
    pub ty: TypeName,
}

/// ```wipple
/// 3.14
/// ```
#[derive(Debug, Clone, PartialEq)]
pub struct NumberExpression {
    pub range: Range,
    pub value: Number,
}

/// ```wipple
/// "abc"
/// ```
#[derive(Debug, Clone, PartialEq)]
pub struct TextExpression {
    pub range: Range,
    pub value: Text,
}

/// ```wipple
/// {
///     a : b
///     c : d
/// }
/// ```
#[derive(Debug, PartialEq)]
pub struct StructureExpression {
    pub range: Range,
    pub fields: Vec<StructureExpressionField>,
}

/// One field of a structure expression.
#[derive(Debug, PartialEq)]
pub struct StructureExpressionField {
    pub range: Range,
    pub name: VariableName,
    pub value: Expression,
}

/// ```wipple
/// {foo}
/// ```
#[derive(Debug, PartialEq)]
pub struct BlockExpression {
    pub range: Range,
    pub statements: Vec<Statement>,
}

/// ```wipple
/// ()
/// ```
#[derive(Debug, Clone, PartialEq)]
pub struct UnitExpression {
    pub range: Range,
}

/// ```wipple
/// "Hello, _!" name
/// ```
#[derive(Debug, PartialEq)]
pub struct FormattedTextExpression {
    pub range: Range,
    pub text: Text,
    pub input: Box<Expression>,
}

/// ```wipple
/// f x y
/// ```
#[derive(Debug, PartialEq)]
pub struct CallExpression {
    pub range: Range,
    pub function: Box<Expression>,
    pub inputs: Vec<Expression>,
}

/// ```wipple
/// do foo
/// ```
#[derive(Debug, PartialEq)]
pub struct DoExpression {
    pub range: Range,
    pub input: Box<Expression>,
}

/// ```wipple
/// when x {
///     a -> b
///     c -> d
/// }
/// ```
#[derive(Debug, PartialEq)]
pub struct WhenExpression {
    pub range: Range,
    pub input: Box<Expression>,
    pub arms: Vec<Arm>,
}

/// One arm of a `when` expression.
#[derive(Debug, PartialEq)]
pub struct Arm {
    pub range: Range,
    pub pattern: Pattern,
    pub value: Expression,
}

/// ```wipple
/// intrinsic "message" x y
/// ```
#[derive(Debug, PartialEq)]
pub struct IntrinsicExpression {
    pub range: Range,
    pub name: Text,
    pub inputs: Vec<Expression>,
}

/// ```wipple
/// (3.14 :: Number)
/// ```
#[derive(Debug, PartialEq)]
pub struct AnnotateExpression {
    pub range: Range,
    pub left: Box<Expression>,
    pub right: Type,
}

/// ```wipple
/// a b . c d
/// ```
#[derive(Debug, PartialEq)]
pub struct ApplyExpression {
    pub range: Range,
    pub left: Box<Expression>,
    pub right: Box<Expression>,
}

/// ```wipple
/// x as T
/// ```
#[derive(Debug, PartialEq)]
pub struct AsExpression {
    pub range: Range,
    pub left: Box<Expression>,
    pub right: Type,
}

/// ```wipple
/// x + y
/// ```
#[derive(Debug, PartialEq)]
pub struct BinaryExpression {
    pub range: Range,
    pub left: Box<Expression>,
    pub right: Box<Expression>,
}

/// ```wipple
/// x is Some 3.14
/// ```
#[derive(Debug, PartialEq)]
pub struct IsExpression {
    pub range: Range,
    pub left: Box<Expression>,
    pub right: Pattern,
}

/// ```wipple
/// (
///     a ;
///     b ;
///     c ;
/// )
/// ```
#[derive(Debug, PartialEq)]
pub struct TupleExpression {
    pub range: Range,
    pub elements: Vec<Expression>,
}

/// ```wipple
/// (
///     a ,
///     b ,
///     c ,
/// )
/// ```
#[derive(Debug, PartialEq)]
pub struct CollectionExpression {
    pub range: Range,
    pub elements: Vec<Expression>,
}

/// ```wipple
/// (X y) -> z
/// ```
#[derive(Debug, PartialEq)]
pub struct FunctionExpression {
    pub range: Range,
    pub inputs: Vec<Pattern>,
    pub output: Box<Expression>,
}

} // verus!
