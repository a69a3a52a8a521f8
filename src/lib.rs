//! The reactive state-computation core of an interactive document engine.
//!
//! A document is a tree of typed components whose values are derived lazily
//! from declared dependencies. This crate builds the dependency graph,
//! resolves requested values, invalidates them, and turns action requests
//! into writes on persisted essential values.

pub mod state;
pub mod essential_state;
pub mod catalog;
pub mod engine;
pub mod component;
