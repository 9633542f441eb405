//! Workspace-state engine for a multi-repository workspace.
//!
//! A workspace is a root directory holding many independently
//! version-controlled projects declared in a manifest.  This crate is the
//! verified core that reasons about such a workspace as a unit: a dependency
//! graph over declared project relations (impact analysis and
//! dependency-respecting execution order), a query evaluator over live
//! repository facts, a snapshot/restore subsystem, and an atomic batch
//! executor built on top of it.  Subprocess invocation and file I/O are left
//! to the embedding program, which hands the engine plain values.

pub mod batch;
pub mod clock;
pub mod graph;
pub mod project;
pub mod query;
pub mod server;
pub mod snapshot;
pub mod text;
pub mod workspace;
