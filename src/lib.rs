//! Resolution of localization resources across overlapping sources: a
//! fallback solver that enumerates, in priority order, every assignment of
//! resources to sources whose files all exist, a per-source cache of fetch
//! outcomes, and a registry that holds the sources in priority order.
//!
//! - `search`: the assignments and their lexicographic order, as mathematics.
//! - `solution`: the solver's cursor, memo and backtracking steps.
//! - `serial`, `parallel`: the two solvers, which hand out the same sequence.
//! - `laws`: what holds of every sequence handed out.
//! - `source`: one source's path rule and cache of fetch outcomes.
//! - `registry`: the ordered sources.
//! - `generation`: bundle generation over a locale chain, step by step.
//! - `testing`: an in-memory fetcher and scenarios.
pub mod search;
pub mod solution;
pub mod serial;
pub mod parallel;
pub mod laws;
pub mod source;
pub mod registry;
pub mod testing;
pub mod generation;
