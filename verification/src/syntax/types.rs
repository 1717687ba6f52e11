//! Types as they are written in the source.

use crate::syntax::range::Range;
use crate::syntax::tokens::{TypeName, TypeParameterName};
use vstd::prelude::*;

verus! {

/// A written type.
#[derive(Debug, PartialEq)]
pub enum Type {
    Placeholder(PlaceholderType),
    Unit(UnitType),
    Named(NamedType),
    Block(BlockType),
    Function(FunctionType),
    Parameter(ParameterType),
    Tuple(TupleType),
}

/// ```wipple
/// _
/// ```
#[derive(Debug, Clone, PartialEq)]
pub struct PlaceholderType {
    pub range: Range,
}

/// ```wipple
/// value
/// ```
#[derive(Debug, Clone, PartialEq)]
pub struct ParameterType {
    pub range: Range,
    pub name: TypeParameterName,
}

/// ```wipple
/// Maybe Number
/// ```
#[derive(Debug, PartialEq)]
pub struct NamedType {
    pub range: Range,
    pub name: TypeName,
    pub parameters: Vec<Type>,
}

/// ```wipple
/// (Maybe Number) Number -> ()
/// ```
#[derive(Debug, PartialEq)]
pub struct FunctionType {
    pub range: Range,
    pub inputs: Vec<Type>,
    pub output: Box<Type>,
}

/// ```wipple
/// {Number}
/// ```
#[derive(Debug, PartialEq)]
pub struct BlockType {
    pub range: Range,
    pub output: Box<Type>,
}

/// ```wipple
/// ()
/// ```
#[derive(Debug, Clone, PartialEq)]
pub struct UnitType {
    pub range: Range,
}

/// ```wipple
/// Number ; Text
/// ```
#[derive(Debug, PartialEq)]
pub struct TupleType {
    pub range: Range,
    pub elements: Vec<Type>,
}

} // verus!
