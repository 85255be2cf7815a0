//! Reading, normalising and re-emitting package lock records, and deriving
//! the dependency graph they imply.
//!
//! A document is a sequence of sections. `Lockfile::from_document` reads it
//! into the record model and tells the revision of the format it is in;
//! `Lockfile::to_document` writes the record back in the layout of its
//! revision. `Lockfile::dependency_tree` resolves the references of the
//! packages against each other, and the tree that results can be walked
//! from any package in either direction.

pub mod command;
pub mod dependency;
pub mod error;
pub mod lockfile;
pub mod metadata;
pub mod package;
pub mod text;

pub use crate::dependency::graph::EdgeDirection;
pub use crate::dependency::tree::Tree;
pub use crate::dependency::Dependency;
pub use crate::error::Error;
pub use crate::lockfile::version::ResolveVersion;
pub use crate::lockfile::{Lockfile, Patch, Section};
pub use crate::metadata::Metadata;
pub use crate::package::{Name, Package, PackageId, SourceId, Version};
