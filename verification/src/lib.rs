pub mod raft;
pub mod raft_model;
pub mod store;
pub mod rpc;
pub mod wal;
pub mod raft_laws;
pub mod node;
pub mod peers;
pub mod client;
pub mod cluster;
