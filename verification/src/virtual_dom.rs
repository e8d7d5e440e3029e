//! The virtual tree: its nodes, the reconciliation of one tree with the next,
//! and what the patches of a reconciliation do to the live nodes of the host.

pub mod attributes;
pub mod classes;
pub mod diff;
pub mod host;
pub mod laws;
pub mod patch;
pub mod reconcile;
pub mod vcomp;
pub mod vnode;
