//! A make-style build orchestrator: a task-file language with variables and
//! user-callable functions, pattern recipes, a typed dependency graph over
//! files, and a scheduling core that decides which external commands must run
//! and in what order.
//!
//! The crate holds the logic only: reading files, spawning subprocesses and
//! rendering progress live in the surrounding binary, which feeds plain values
//! (file listings, modification times, command outcomes) into the functions
//! here and carries their decisions out.

pub mod functions;
pub mod graph;
pub mod hooks;
pub mod once_fallible;
pub mod parser;
pub mod runner;
pub mod schedule;
pub mod util;
