//! The core of a practical Byzantine fault tolerant (PBFT) consensus node.

pub mod agreement_laws;
pub mod ballot;
pub mod block;
pub mod block_laws;
pub mod byte_string;
pub mod change_laws;
pub mod commit_laws;
pub mod config;
pub mod error;
pub mod evidence;
pub mod frame;
pub mod hash;
pub mod header;
pub mod hex_text;
pub mod laws;
pub mod message;
pub mod message_log;
pub mod message_type;
pub mod model;
pub mod node;
pub mod proof_laws;
pub mod proto;
pub mod quorum;
pub mod replay;
pub mod seal_laws;
pub mod service;
pub mod settings_laws;
pub mod state;
pub mod timing;
pub mod view_laws;
pub mod vote;
pub mod wire;
