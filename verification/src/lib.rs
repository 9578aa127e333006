//! Unfurl: a JSON viewer's core. The data model of a parsed JSON document,
//! the search index over it, the structural diff of two documents, the
//! theme settings and the state machine of the viewer.

pub mod text;
pub mod theme;
pub mod json;
pub mod tree;
pub mod diff;
pub mod state;
