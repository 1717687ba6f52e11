//! The syntax tree of a Wipple source file.

pub mod attributes;
pub mod constraints;
pub mod expressions;
pub mod patterns;
pub mod range;
pub mod statements;
pub mod tokens;
pub mod types;

use crate::syntax::range::Range;
use crate::syntax::statements::Statement;
use vstd::prelude::*;

verus! {

/// A whole source file.
#[derive(Debug, PartialEq)]
pub struct SourceFile {
    pub range: Range,
    pub statements: Option<Statements>,
}

/// The statements of a source file, in order.
#[derive(Debug, PartialEq)]
pub struct Statements(pub Vec<Statement>);

} // verus!
