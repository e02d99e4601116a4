//! Core of an interactive launcher: candidate aggregation from several
//! sources, fuzzy ranking biased by usage history, an exact arithmetic
//! evaluator for transient calculator results, and the session state
//! machine that merges everything into one navigable list.

pub mod app;
pub mod calculator;
pub mod selection;
pub mod sources;
pub mod text;
