//! Incremental, cache-reusing evaluation engine for discrete-event simulation plans.
//!
//! A plan is a set of timed operations that read and write named resources. Each
//! resource has a timeline of writers; a query for a resource at a time walks back
//! through the writers it depends on, reusing any output whose structural hash is
//! already recorded in the history store, and runs only the bodies it must. An
//! operation happens at a fixed offset from its activity's start, or somewhere in
//! a window, at a delay that another resource holds; readers of such a writer
//! wait for its time to be known and then choose the latest writer before them.
//!
//! - [`time`]: durations and instants on one integer scale.
//! - [`timeline`]: the per-resource index of grounded and ungrounded writers.
//! - [`ungrounded`]: the choice among writers whose times are only known late.
//! - [`history`]: the content-addressed store of past outputs.
//! - [`hashing`]: structural hashes and initial-value hashes.
//! - [`body`]: operation bodies, described as sums of reads and constants.
//! - [`graph`]: nodes, the evaluation of reads, and its specification.
//! - [`plan`]: sessions and plans: inserting, removing, sampling and viewing.
//! - [`semantics`]: evaluation from scratch, and what caching preserves.
//! - [`operation`], [`exec`], [`activity`]: statuses, failures, request depth and ids.

pub mod time;
pub mod hashing;
pub mod history;
pub mod timeline;
pub mod activity;
pub mod body;
pub mod exec;
pub mod graph;
pub mod operation;
pub mod ungrounded;
pub mod plan;
pub mod semantics;
