//! Synthesis of a calibrated, topology-aware stream of network flows for a
//! datacenter-network simulator: an empirical rack-to-rack traffic matrix is
//! placed onto a multi-plane Clos fabric, next hops between any two nodes are
//! computed by closed-form arithmetic over the canonical node numbering, and
//! an ordered flow stream is generated at a rate calibrated to a target link
//! utilization.

use vstd::prelude::*;

pub mod cluster;
pub mod ecdf;
pub mod entry;
pub mod flowgen;
pub mod rng;
pub mod routing;
pub mod seqs;
pub mod spatial;

verus! {

/// Nodes of a canonical Clos fabric are numbered tier by tier: hosts first,
/// then top-of-rack switches, then pod-local fabric switches, then spines.
pub type NodeId = usize;

} // verus!
