//! The values exchanged between the controller, the workers and clients.
//! Timestamps are nanoseconds since the Unix epoch.

use vstd::prelude::*;

verus! {

/// Health of a registered node, as judged by the controller.
#[derive(Clone, Copy, Debug, PartialEq, Eq, Structural)]
pub enum NodeStatus {
    Alive,
    Suspect,
    Dead,
}

/// A physical node: its id, where it listens, and its health.
#[derive(Debug, PartialEq)]
pub struct NodeInfo {
    pub node_id: String,
    pub node_port: u16,
    pub status: NodeStatus,
    pub host: String,
    /// Time of the last heartbeat, in nanoseconds since the epoch.
    pub last_heartbeat: Option<i64>,
}

impl Clone for NodeInfo {
    fn clone(&self) -> (copy: Self)
        ensures
            copy == *self,
    {
        NodeInfo {
            node_id: self.node_id.clone(),
            node_port: self.node_port,
            status: self.status,
            host: self.host.clone(),
            last_heartbeat: self.last_heartbeat,
        }
    }
}

/// A snapshot of the ring that the controller hands out.
#[derive(Debug)]
pub struct RingState {
    pub nodes: Vec<NodeInfo>,
    pub virtual_nodes: Vec<(u64, String)>,
    pub replication_factor: u8,
    pub ring_version: u64,
}

#[derive(Debug)]
pub struct PutRequest {
    pub value: String,
}

#[derive(Debug)]
pub struct PutResponse {
    pub key: String,
    pub success: bool,
    pub replicas_confirmed: u8,
}

#[derive(Debug)]
pub struct GetResponse {
    pub key: String,
    pub value: Option<String>,
    pub served_by: String,
}

#[derive(Debug)]
pub struct HeartbeatRequest {
    pub node_id: String,
    /// Send time, in nanoseconds since the epoch.
    pub timestamp: i64,
    pub ring_version: u64,
}

#[derive(Debug)]
pub struct HeartbeatResponse {
    pub acknowledged: bool,
    pub ring_changed: bool,
}

#[derive(Debug)]
pub struct NodeRegisterRequest {
    pub node_id: String,
    pub host: String,
    pub port: u16,
}

#[derive(Debug)]
pub struct NodeRegisterResponse {
    pub success: bool,
    pub ring_state: RingState,
}

#[derive(Debug)]
pub struct ReplicateRequest {
    pub key: String,
    pub value: String,
    pub origin_node_id: String,
}

#[derive(Debug)]
pub struct ReplicateToRequest {
    pub key: String,
    pub target_node_addr: String,
}

/// Every key-value pair that a worker holds.
#[derive(Debug)]
pub struct KeyDumpResponse {
    pub node_id: String,
    pub keys: Vec<(String, String)>,
}

/// Counts that the controller reports about the cluster.
#[derive(Debug, Clone, Copy, PartialEq, Eq, Structural)]
pub struct ControllerMetrics {
    pub total_nodes: u64,
    pub alive_nodes: u64,
    pub suspect_nodes: u64,
    pub dead_nodes: u64,
    pub ring_version: u64,
    pub re_replication_count: u64,
    pub uptime_seconds: u64,
}

/// The result of the last re-replication: the node that died, when the
/// run finished, and how many copies were confirmed or failed.
#[derive(Debug)]
pub struct ReplicationStatus {
    pub last_replication_node: Option<String>,
    pub last_replication_at: Option<i64>,
    pub last_replication_keys_success: u64,
    pub last_replication_keys_failed: u64,
    pub re_replication_count: u64,
}

} // verus!
