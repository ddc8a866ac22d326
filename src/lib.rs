//! Renders a directory as a text tree with box-drawing connectors.
//!
//! - `entry`: the entries of a walk and the order a tree lists them in.
//! - `listing`: which entries are shown (within the depth bound; no `.git`
//!   directory at the root, no `.gitkeep` placeholder files) and their order.
//! - `render`: the lines of the diagram, drawn in one pass from the last
//!   line up, with the connector and continuation bars of each.
//! - `tree`: the whole diagram of a walk, and how the root is labelled.
//! - `request`: the root and depth bound that a command line asks for.
//!
//! Walking the file system, resolving the current directory's name and
//! deciding whether the terminal takes colour are left to the caller, which
//! hands the results in as plain values.
pub mod entry;
pub mod listing;
pub mod render;
pub mod request;
pub mod tree;

pub use entry::Entry;
pub use tree::tre;
