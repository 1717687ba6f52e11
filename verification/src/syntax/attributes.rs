//! Attributes written in brackets before a definition.

use crate::syntax::range::Range;
use crate::syntax::tokens::{AttributeName, Text};
use vstd::prelude::*;

verus! {

/// An attribute of a definition.
#[derive(Debug, Clone, PartialEq)]
pub enum Attribute {
    Name(NameAttribute),
    Assign(AssignAttribute),
}

/// ```wipple
/// [foo]
/// ```
#[derive(Debug, Clone, PartialEq)]
pub struct NameAttribute {
    pub range: Range,
    pub name: AttributeName,
}

/// ```wipple
/// [foo : "bar"]
/// ```
#[derive(Debug, Clone, PartialEq)]
pub struct AssignAttribute {
    pub range: Range,
    pub name: AttributeName,
    pub value: AttributeValue,
}

/// The value given to an attribute.
#[derive(Debug, Clone, PartialEq)]
pub enum AttributeValue {
    Text(Text),
}

} // verus!
