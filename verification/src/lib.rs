//! Feature activation for a resolved package graph.
//!
//! Given a dependency graph, the feature tables of its packages and the
//! features requested for the root packages, the crate computes which
//! features are active for every compiled unit, and decides which declared
//! artifacts can be built with them.
//!
//! - [`graph`], [`request`] and [`platform`] hold the input: packages,
//!   edges, feature tables, requests and platform restrictions.
//! - [`context`] holds the configuration, the platform filter and the
//!   classifier of compilation contexts.
//! - [`expand`] is the feature table resolver of a single package.
//! - [`rules`] says what a resolution is: the least table that holds the
//!   root requests and obeys the rules of propagation.
//! - [`engine`] computes that table with a work list, [`resolve`] checks
//!   the root requests first, and [`activation`] is the table itself.
//! - [`gate`] decides on required features, [`env`] shows active
//!   features to build scripts.
//! - [`laws`] states what holds of every resolution.
//! - [`progress`] and [`universe`] carry the proof that the engine is
//!   right and comes to an end.
//! - [`hasher`] is a stable hasher, [`text`] orders and upper-cases
//!   strings.

pub mod activation;
pub mod context;
pub mod engine;
pub mod env;
pub mod expand;
pub mod gate;
pub mod graph;
pub mod hasher;
pub mod laws;
pub mod platform;
pub mod progress;
pub mod request;
pub mod resolve;
pub mod rules;
pub mod text;
pub mod universe;
