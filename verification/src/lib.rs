//! Shared plumbing for the `un*` document-extraction family: the markdown
//! shape-refinement pass, the AI-assisted passes' request and retry logic, and
//! the error-kind numbering the family shares.

pub mod text;
pub mod refine;
pub mod ai;
pub mod kind;
pub mod ffi;
