//! Exact cover with colored secondary items, solved by backtracking over a
//! doubly-linked mesh of items and subsets ("dancing links").
//!
//! A problem is a set of items, each primary or secondary, and a list of named
//! subsets; each subset covers some items, and may attach a color to a
//! secondary item. A solution selects subsets so that every primary item is
//! covered exactly once and all selected subsets agree on the color of every
//! secondary item they touch.

pub mod builder;
pub mod colors;
pub mod defs;
pub mod grid;
pub mod laws;
pub mod ops;
pub mod search;
pub mod solve;

pub use colors::ColoredDlxIterator;
pub use defs::{ColorItem, Constraint, DlxError, HeaderType};
pub use grid::Dlx;
pub use solve::{
    DlxIteratorImpl, MappedDlxIterator, NamedDlxIterator, NamedStepwiseDlxIterator,
    StepwiseDlxIterResult,
    StepwiseDlxIteratorImpl,
};
