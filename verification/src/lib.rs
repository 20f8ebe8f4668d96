//! Anchor chaining and path reconstruction for aligning a query against a
//! colored reference DAG.
//!
//! The reference is a directed acyclic graph of seeds in which every node
//! and edge carries a color, the set of genomes that run through it. A
//! query is a sequence of seeds. The crate turns the matches between the
//! two into chains and a chain into the paths of the graph that it fits:
//!
//! - [`index`] lists the seeds of an array by k-mer;
//! - [`anchor`] pairs reference and query seeds into anchors and chooses
//!   the strand;
//! - [`fine`] scores the anchors against their possible predecessors, with
//!   a window or over all of them through the range-maximum store of
//!   [`rmq`];
//! - [`extract`] follows the pointers back from the best anchors, which
//!   [`rank`] puts in order;
//! - [`chainer`] runs both for one strand or for both;
//! - [`coarse`] does the same over landmark nodes;
//! - [`path`] reconstructs the color-pure paths of a chain;
//! - [`graph`] measures distances in the graph;
//! - [`laws`] proves what holds of every chain.
//!
//! Scores are fixed-point integers, a thousand units to the point: see
//! [`score`].
//!
//! Verus proves the contract of every function but those that call into
//! the `fxhash` and `smallvec` crates and the sorts of the standard
//! library. Those are in [`fx`], [`graph`], [`rank`] and [`sorting`], each
//! marked `external_body`; their contracts are believed.

pub mod anchor;
pub mod chainer;
pub mod coarse;
pub mod extract;
pub mod fine;
pub mod fx;
pub mod graph;
pub mod index;
pub mod laws;
pub mod path;
pub mod rank;
pub mod rmq;
pub mod score;
pub mod seed;
pub mod sorting;
