//! Workspace file-tree and live-watch support for a markdown note editor.
//!
//! The library discovers the tree of markdown files under a workspace
//! folder, keeps track of the single active filesystem watch, and frames
//! file content into bounded chunks for transfer to a presentation layer.
//! All decisions — filtering, ordering, watch replacement, chunking — are
//! verified here; the surrounding shell performs the actual I/O and hands
//! this library plain values.

pub mod chunk;
pub mod errors;
pub mod order;
pub mod path;
pub mod scan;
pub mod tree;
pub mod watch;
