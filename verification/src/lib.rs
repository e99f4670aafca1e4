//! Path-addressed, read-only queries over an in-memory credential tree.
//!
//! A tree of named groups and entries is held by a [`State`]. A path string
//! is split into segments by [`resolve`]; [`State::list`] names the nodes at
//! a path, entering every group that answers to a segment, and
//! [`State::get`] fetches one attribute of the one entry that a path
//! addresses by first match. [`list`] and [`get_attr`] answer the two
//! requests of the query interface from a path string.

pub mod api;
pub mod fan_out;
pub mod instance;
pub mod listing;
pub mod path;
pub mod state;
pub mod tree;
pub mod walk;

pub use crate::api::{get_attr, list, Request};
pub use crate::instance::parse_pid;
pub use crate::listing::Lister;
pub use crate::path::resolve;
pub use crate::state::{Method, State};
pub use crate::tree::{Entry, Group, Node, NodeRef};
pub use crate::walk::Visitor;
