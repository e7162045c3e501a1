//! Deepterra: discovers a tree of Terraform configuration files, classifies
//! each file's blocks into resources and module references, folds the files
//! into a manifest tree that mirrors the directory structure, and reduces
//! the tree to a deduplicated dependency graph with occurrence weights,
//! ready for a rendering consumer.

use vstd::prelude::*;

pub mod blocks;
pub mod cli;
pub mod discovery;
pub mod graph;
pub mod manifest;
pub mod modref;
pub mod parser;
pub mod strings;

pub use blocks::{RawBlock, Resource, Terraform, TerraformFile};
pub use cli::Args;
pub use discovery::{DiscoveryError, DiscoveryOptions, File, IgnorePattern, LocalDiscoverer};
pub use graph::{Category, GraphCategory, GraphData, GraphLink, GraphNode};
pub use manifest::TerraformManifest;
pub use modref::{GitModuleRef, LocalModuleRef, ModuleRef};
pub use parser::{DirectoryParser, FileEntry, ParseError, Parser, ParserOptions};

verus! {

} // verus!
