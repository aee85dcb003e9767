//! The package graph: the package table, the range of each package name, the
//! dependency edges and the bitmap of removed packages, with the filtering
//! passes that work on them.

pub mod account;
pub mod admission;
pub mod architecture;
pub mod build_prune;
pub mod compatible;
pub mod graph;
pub mod growth;
pub mod laws;
pub mod model;
pub mod policy;
pub mod rounds;
pub mod select;
pub mod unresolved;
pub mod user;

pub use graph::PackageRelations;
