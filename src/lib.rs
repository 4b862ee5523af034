//! A Raft consensus core: the replicated log, the node's role and replication rules, the
//! binary wire and snapshot formats, and an in-memory key-value state machine.

pub mod codec;
pub mod log;
pub mod rpc;
pub mod snapshot;
pub mod state_machine;
pub mod types;
pub mod node;
