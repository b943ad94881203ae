pub mod apply;
pub mod clock;
pub mod log;
pub mod message;
pub mod raft_service;
pub mod rpc;
pub mod state;
pub mod command;
pub mod node;
pub mod laws;
pub mod cluster;
pub mod testing;
