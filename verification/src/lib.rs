//! Curation of a package channel's index.
//!
//! Given the packages that a channel offers for an architecture, with their
//! versions, builds and dependencies, the library decides which of them go:
//! those that the user's constraints rule out, superseded builds, banned
//! features, development versions and release candidates, packages that
//! need another operating system, packages whose dependencies can no longer
//! be met, and packages that fit no variant of a chosen root package.
//!
//! The packages are held in a graph (`packagerelations`); each decision is a
//! pass over it that marks packages as removed and hands back a record of
//! each removal (`logs`). `pipeline` runs the passes in their order.

pub mod bitmap;
pub mod conda;
pub mod depends;
pub mod ledger;
pub mod logs;
pub mod matchspeccache;
pub mod matchspecyaml;
pub mod noarch;
pub mod order;
pub mod packagerelations;
pub mod pattern;
pub mod pipeline;
pub mod pipeline_laws;
pub mod rawrepodata;
pub mod record;
pub mod settings;
pub mod text;
