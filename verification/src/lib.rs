pub mod raft;
pub mod kv;
pub mod text;
pub mod operation;
pub mod agent;
pub mod etcd;
pub mod etcd_rpc;
pub mod rpc;
pub mod server;
