//! Constraints on type parameters, written after `where`.

use crate::syntax::range::Range;
use crate::syntax::tokens::{TypeName, TypeParameterName};
use crate::syntax::types::Type;
use vstd::prelude::*;

verus! {

/// A constraint on the type parameters of a definition.
#[derive(Debug, PartialEq)]
pub enum Constraint {
    Bound(BoundConstraint),
    Infer(InferConstraint),
    Default(DefaultConstraint),
}

/// ```wipple
/// (Foo value)
/// ```
#[derive(Debug, PartialEq)]
pub struct BoundConstraint {
    pub range: Range,
    pub tr: TypeName,
    pub parameters: Vec<Type>,
}

/// ```wipple
/// (infer value)
/// ```
#[derive(Debug, Clone, PartialEq)]
pub struct InferConstraint {
    pub range: Range,
    pub parameter: TypeParameterName,
}

/// ```wipple
/// (value : Number)
/// ```
#[derive(Debug, PartialEq)]
pub struct DefaultConstraint {
    pub range: Range,
    pub parameter: TypeParameterName,
    pub value: Type,
}

} // verus!
