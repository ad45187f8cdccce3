//! Dependency resolution for Debian-style package indexes: versions are
//! parsed and ordered, dependency tokens are lexed, the transitive closure of
//! a root package is collected, and the closure is encoded as a CNF formula
//! that a SAT solver decides.
pub mod seqs;
pub mod stmt;
pub mod version;
pub mod closure;
pub mod cnf;
pub mod solve;
