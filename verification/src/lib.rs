//! A DPLL-style SAT solver for formulas in conjunctive normal form.
//!
//! A formula is a conjunction of clauses, each clause a disjunction of
//! literals; a literal is a nonzero integer whose sign is its polarity and
//! whose magnitude is its variable. The solver keeps a tri-state assignment
//! (undecided / true / false), runs a one-shot pure-literal pass, and then
//! searches depth-first with an explicit stack of deferred branches.

pub mod assignment;
pub mod cnf;
pub mod formula;
pub mod node;
pub mod search;
