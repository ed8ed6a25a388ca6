//! Unification of variable ids across CNF formulas in DIMACS form.
//!
//! Formulas that were made apart name their variables in comments of the
//! form `"<id> <name>"`. [`unify::unify_variable_mappings`] gives every name
//! one global id and rewrites each formula over the global ids, so that a
//! name means the same variable in all of them. [`dimacs`] reads and writes
//! the text form, [`cnf`] holds the formula, and [`theorems`],
//! [`semantics`] and [`round_trip`] state what all of this guarantees.
pub mod cnf;
pub mod dimacs;
pub mod round_trip;
pub mod semantics;
pub mod text;
pub mod theorems;
pub mod unify;
