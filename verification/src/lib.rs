//! A verified core of the Wipple compiler front end: source locations and
//! facts about nodes, the syntax tree, and the type checker that groups
//! nodes by their types.

pub mod lines;
pub mod source;
pub mod syntax;
pub mod text;
pub mod trace;
pub mod typecheck;
