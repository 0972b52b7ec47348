//! Picks a repository from a `root/host/owner/repo` tree: the pure parts of
//! the tool (spec parsing, root resolution, the tree walk's decisions, where
//! a repository goes and how it is cloned, the interactive selector's state
//! machine) with their contracts.

pub mod cli;
pub mod get;
pub mod root;
pub mod scan;
pub mod selector;
pub mod target;
pub mod text;
