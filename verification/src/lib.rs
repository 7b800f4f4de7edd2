//! A spreadsheet engine: cells hold values or expressions over other cells,
//! a dependency graph records which cell reads which, and setting a cell
//! recomputes what depends on it or marks what lies on a cycle.

pub mod cell;
pub mod command;
pub mod database;
pub mod dependency_chain;
pub mod engine;
pub mod graph;
pub mod laws;
pub mod lifting;
pub mod lists;
pub mod runner;
pub mod text;
pub mod walks;
