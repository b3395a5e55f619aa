//! Text-file operations for an agent working inside a directory tree: windowed
//! reads, style-preserving writes and edits, Markdown annotations, and glob and
//! regular-expression searches.

pub mod annotate;
pub mod block;
pub mod braces;
pub mod confinement;
pub mod edit;
pub mod endings;
pub mod error;
pub mod files;
pub mod findings;
pub mod globbing;
pub mod grep;
pub mod grepping;
pub mod guarantees;
pub mod host;
pub mod lines;
pub mod links;
pub mod listing;
pub mod matchers;
pub mod offsets;
pub mod outcomes;
pub mod outputs;
pub mod patch;
pub mod paths;
pub mod reports;
pub mod resolve;
pub mod scope;
pub mod search;
pub mod steps;
pub mod style;
pub mod text;
pub mod trace;
pub mod workspace;
