//! Statements and definitions.

use crate::syntax::attributes::Attribute;
use crate::syntax::constraints::{BoundConstraint, Constraint};
use crate::syntax::expressions::Expression;
use crate::syntax::patterns::Pattern;
use crate::syntax::range::Range;
use crate::syntax::tokens::{Comment, TypeName, TypeParameterName, VariableName, VariantName};
use crate::syntax::types::Type;
use vstd::prelude::*;

verus! {

/// A statement of a block or of a source file.
#[derive(Debug, PartialEq)]
pub enum Statement {
    ConstantDefinition(ConstantDefinitionStatement),
    Expression(ExpressionStatement),
    Assignment(AssignmentStatement),
    TypeDefinition(TypeDefinitionStatement),
    TraitDefinition(TraitDefinitionStatement),
    InstanceDefinition(InstanceDefinitionStatement),
}

/// ```wipple
/// Foo : value => type
/// ```
#[derive(Debug, PartialEq)]
pub struct TypeDefinitionStatement {
    pub range: Range,
    pub comments: Vec<Comment>,
    pub attributes: Vec<Attribute>,
    pub name: TypeName,
    pub parameters: Option<TypeParameters>,
    pub representation: TypeRepresentation,
}

/// What a defined type is made of.
#[derive(Debug, PartialEq)]
pub enum TypeRepresentation {
    Structure(StructureTypeRepresentation),
    Enumeration(EnumerationTypeRepresentation),
    Marker(MarkerTypeRepresentation),
}

/// ```wipple
/// {
///     a :: A
///     b :: B
/// }
/// ```
#[derive(Debug, PartialEq)]
pub struct StructureTypeRepresentation {
    pub range: Range,
    pub fields: Vec<FieldDefinition>,
}

/// ```wipple
/// a :: A
/// ```
#[derive(Debug, PartialEq)]
pub struct FieldDefinition {
    pub range: Range,
    pub name: VariableName,
    pub ty: Type,
}

/// ```wipple
/// {
///     Some Number
///     None
/// }
/// ```
#[derive(Debug, PartialEq)]
pub struct EnumerationTypeRepresentation {
    pub range: Range,
    pub variants: Vec<VariantDefinition>,
}

/// ```wipple
/// Some Number
/// ```
#[derive(Debug, PartialEq)]
pub struct VariantDefinition {
    pub range: Range,
    pub name: VariantName,
    pub elements: Vec<VariantDefinitionElement>,
}

/// One element of a variant definition.
#[derive(Debug, PartialEq)]
pub struct VariantDefinitionElement(pub Type);

/// ```wipple
/// Foo : type
/// ```
#[derive(Debug, Clone, PartialEq)]
pub struct MarkerTypeRepresentation {
    pub range: Range,
}

/// ```wipple
/// Foo : value => trait (value -> Number)
/// ```
#[derive(Debug, PartialEq)]
pub struct TraitDefinitionStatement {
    pub range: Range,
    pub comments: Vec<Comment>,
    pub attributes: Vec<Attribute>,
    pub name: TypeName,
    pub parameters: Option<TypeParameters>,
    pub constraints: TraitConstraints,
}

/// The type of a trait and the constraints on its parameters.
#[derive(Debug, PartialEq)]
pub struct TraitConstraints {
    pub range: Range,
    pub ty: Type,
    pub constraints: Option<Constraints>,
}

/// ```wipple
/// show :: value -> Unit where (Show value)
/// ```
#[derive(Debug, PartialEq)]
pub struct ConstantDefinitionStatement {
    pub range: Range,
    pub comments: Vec<Comment>,
    pub attributes: Vec<Attribute>,
    pub name: VariableName,
    pub constraints: ConstantConstraints,
}

/// The type of a constant and the constraints on its parameters.
#[derive(Debug, PartialEq)]
pub struct ConstantConstraints {
    pub range: Range,
    pub ty: Type,
    pub constraints: Option<Constraints>,
}

/// ```wipple
/// instance (Foo (Maybe value)) where (Foo value) : 3.14
/// ```
#[derive(Debug, PartialEq)]
pub struct InstanceDefinitionStatement {
    pub range: Range,
    pub comments: Vec<Comment>,
    pub attributes: Vec<Attribute>,
    pub constraints: InstanceConstraints,
    pub value: Expression,
}

/// The bound that an instance satisfies and the constraints on its
/// parameters.
#[derive(Debug, PartialEq)]
pub struct InstanceConstraints {
    pub range: Range,
    pub bound: BoundConstraint,
    pub constraints: Option<Constraints>,
}

/// ```wipple
/// Some x y z : ()
/// ```
#[derive(Debug, PartialEq)]
pub struct AssignmentStatement {
    pub range: Range,
    pub pattern: Pattern,
    pub value: Expression,
}

/// An expression on a line of its own.
#[derive(Debug, PartialEq)]
pub struct ExpressionStatement {
    pub range: Range,
    pub expression: Expression,
}

/// The type parameters of a definition, before `=>`.
#[derive(Debug, Clone, PartialEq)]
pub struct TypeParameters(pub Vec<TypeParameterName>);

/// The constraints after `where`.
#[derive(Debug, PartialEq)]
pub struct Constraints(pub Vec<Constraint>);

} // verus!
