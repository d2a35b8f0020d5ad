//! Compiles the search for a small network of three-input lookup tables into a
//! satisfiability problem in conjunctive normal form.
//!
//! The formula container and its algebra of variables, literals and clauses
//! live in [`cnf`]; what it means for an assignment to satisfy a formula is
//! defined in [`logic`]. The encoders of [`cardinality`] and [`comparator`]
//! add the constraints that exactly one of a list of variables is true, and
//! that one binary number is at most another. [`game_of_life`] builds the
//! whole problem from them, and says which networks satisfy it. [`dimacs`]
//! writes a formula out for a solver, and [`resolve`] reads the solver's
//! answer back into the names of the formula; [`round_trip`] shows that what
//! is written is read back.

use vstd::prelude::*;

pub mod cardinality;
pub mod cnf;
pub mod comparator;
pub mod dimacs;
pub mod game_of_life;
pub mod logic;
pub mod resolve;
pub mod round_trip;
pub mod text;
pub mod tuples;

verus! {

/// The size of the network that is looked for.
pub struct Args {
    /// How many inputs the network has.
    pub input_count: usize,
    /// How many lookup tables the network has.
    pub instruction_count: usize,
}

} // verus!
