//! Verified core of a sharded multiplayer game cluster.
pub mod wire;
pub mod broker_protocol;
pub mod orchestrator_protocol;
pub mod util;
pub mod geometry;
pub mod quadtree;
pub mod spatial;
pub mod handoff;
pub mod topic_table;
pub mod broker;
pub mod services;
pub mod chat;
pub mod shard_net;
pub mod shard_registry;
