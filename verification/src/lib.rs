//! A convergent last-writer-wins key/value register map for gossip-style
//! state replication: replicas accept conflicting concurrent writes and
//! reconcile them with a deterministic ordering rule, so that exchanging
//! full snapshots makes all replicas agree.

pub mod order;
pub mod report;
pub mod store;
