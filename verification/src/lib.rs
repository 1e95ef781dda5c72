//! Verified core of a consistent-hashing key-value store: the hash ring with
//! virtual nodes, replica selection, the controller's node registry and
//! failure detector, the worker's quorum write protocol and the planning of
//! re-replication after a node failure.

pub mod hashing;
pub mod strmap;
pub mod models;
pub mod error;
pub mod ring;
pub mod controller;
pub mod store;
pub mod address;
pub mod worker;
pub mod replication;
