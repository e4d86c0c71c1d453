//! A dependency resolver: given a node of a requirement graph, find every
//! consistent selection of nodes as a path through the graph, or the set of
//! nodes to blame when there is none.
//!
//! A [`node::Node`] has an identity and may require something: another node,
//! any one of several nodes, or an OR of ANDs of nodes
//! ([`node::resolvable::Resolvable`]). Solving a node walks what it requires,
//! depth first, along a [`path::Path`]; a path on which an identity occurs
//! twice is a conflict, which ends the branch and stops every cycle. The
//! outcome is a [`node::resolved::Resolved`]: the paths that were found, and
//! the [`node::cause::Cause`] of the failure where none was.
//!
//! What the resolver computes is defined in [`node::model`], as a function of
//! the mathematical models of nodes and paths; [`node::laws`] proves what
//! holds of every outcome. [`package`] holds identities, packages, and the
//! raw graph of the packages that one package needs.

pub mod node;
pub mod package;
pub mod path;
pub mod utils;
