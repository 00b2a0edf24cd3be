//! A logic-programming database core: a fact/rule store together with a
//! unification-based query engine that enumerates variable bindings
//! satisfying a composite constraint expression.

pub mod backtracking;
pub mod database;
pub mod laws;
pub mod num;
pub mod text;
pub mod unification;
