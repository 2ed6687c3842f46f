//! Control-plane core of a mesh network client: the topology model, the
//! containment tree of address blocks, the reconciliation of a desired peer
//! list against a live interface, and the local snapshot of the topology.

pub mod association;
pub mod cidr_tree;
pub mod cycle;
pub mod display;
pub mod model;
pub mod peer;
pub mod reconcile;
pub mod store;
