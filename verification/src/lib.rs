use vstd::prelude::*;

pub mod arena;
pub mod assignment;
pub mod clause;
pub mod clause_allocator;
pub mod clause_database;
pub mod cube;
pub mod dimacs;
pub mod cref;
pub mod idx;
pub mod kissat;
pub mod lbool;
pub mod lit;
pub mod minisat;
pub mod partition;
pub mod solver;
pub mod trie;
pub mod var;
pub mod watch;

verus! {
} // verus!
