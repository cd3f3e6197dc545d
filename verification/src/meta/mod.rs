//! The replicated catalog: consensus, persistence and the request protocol.
pub mod catalog;
pub mod client;
pub mod conduct;
pub mod config;
pub mod exchange;
pub mod laws;
pub mod message;
pub mod node;
pub mod persist;
pub mod raft;
