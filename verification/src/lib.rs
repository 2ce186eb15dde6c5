//! A lazily populated, persistent local mirror of a remote file tree.
//!
//! Remote nodes are addressed by small integer handles. The tree cache
//! remembers, per node, whether its children or its local content have been
//! loaded, mirrors every change into a durable table, and decides each step
//! of the pipeline that turns a remote photo into a local file.

pub mod error;
pub mod text;
pub mod store;
pub mod remote;
pub mod index;
pub mod photo;
pub mod drive;
