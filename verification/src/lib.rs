//! Storage adapter mapping a version-control object model (commits, trees,
//! files, symlinks, first-class conflicts) onto a Git-shaped content-addressed
//! object store, with an auxiliary overlay table for metadata the native
//! commit format cannot hold.

pub mod hexfmt;
pub mod backend;
pub mod table;
pub mod extras;
pub mod gitops;
pub mod conflicts;
pub mod git_backend;

