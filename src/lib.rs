//! A repetition macro engine over token trees.
//!
//! An invocation `N in 0..4 { body }` binds the placeholder `N` and repeats
//! `body` once per index, replacing the placeholder by the index.  When the
//! body holds a marker `#( X )*`, only `X` is repeated, in place of the marker.
pub mod token;
pub mod decimal;
pub mod substitute;
pub mod marker;
pub mod invocation;
pub mod expand;
