//! A reactive spreadsheet engine: a prefix-notation formula language over
//! cell references, a dependency graph with cycle detection, a cell store
//! that recomputes dependents in topological order, a modal input state
//! machine, and a compositor that turns engine state into drawable items.

pub mod compositor;
pub mod data;
pub mod graph;
pub mod parse;
pub mod planner;
pub mod posmap;
pub mod state;
pub mod viewer;
pub mod position;
pub mod text;

pub use position::CellPos;
