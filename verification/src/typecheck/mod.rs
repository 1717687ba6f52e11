//! Type checking: constraints between nodes, their solution by unification,
//! and the groups of nodes that share a type.

pub mod constraints;
pub mod display;
pub mod groups;
pub mod id;
pub mod nodes;
pub mod ordered;
pub mod unify;
pub mod checker;
pub mod debug;
pub mod facts;
