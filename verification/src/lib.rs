//! Content-addressed Merkle hashing of directory trees.
//!
//! The crate holds the data model (hashes, object ids, relative paths, tree
//! entries), the tree-object text format, and the decision logic of the build,
//! diff, garbage-collection and cache components.  All file-system and
//! database access is left to the caller, which hands the library plain values.

pub mod builder;
pub mod cache;
pub mod context;
pub mod data;
pub mod diff;
pub mod error;
pub mod expr;
pub mod filesystem;
pub mod filter;
pub mod gc;
pub mod hash;
pub mod merkle;
pub mod order;
pub mod path;
pub mod target;
pub mod text;
pub mod tree;
pub mod update;

pub use crate::data::{Object, ObjectID, ObjectKind, ObjectRef};
pub use crate::error::{ParseError, ParseHashError, ReadContentError};
pub use crate::expr::ObjectExpr;
pub use crate::path::RelativePath;
