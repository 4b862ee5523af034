use vstd::prelude::*;

verus! {

/// Where a node of the cluster listens.
#[derive(Debug, Clone)]
pub struct NodeAddress {
    pub host: String,
    pub port: u16,
    pub node_id: String,
}

/// The static description of a cluster.
#[derive(Debug, Clone)]
pub struct ClusterConfig {
    pub nodes: Vec<NodeAddress>,
    /// Equals the number of nodes.
    pub replication_factor: usize,
    pub election_timeout_ms: u64,
    /// Must be below the election timeout.
    pub heartbeat_interval_ms: u64,
}

impl ClusterConfig {
    /// Whether the configuration is usable: the replication factor equals the number of nodes
    /// and heartbeats come more often than the election timeout.
    pub fn is_valid(&self) -> (r: bool)
        ensures
            r == (self.replication_factor == self.nodes@.len() && self.heartbeat_interval_ms
                < self.election_timeout_ms),
    {
        self.replication_factor == self.nodes.len() && self.heartbeat_interval_ms < self.election_timeout_ms
    }
}

} // verus!
