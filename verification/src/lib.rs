//! A simulated Byzantine-fault-tolerant consensus protocol in the Streamlet
//! family: a fixed set of validators drive a chain forward in discrete epochs,
//! electing a per-epoch leader by hash-of-epoch modulo n, voting on proposed
//! blocks, notarizing any block that collects more than 2n/3 votes, and
//! finalizing a block when it sits in a run of three consecutive notarized
//! epochs.

pub mod utils;
pub mod blockchain;
pub mod node;
pub mod attacker_node;
pub mod network;
pub mod oracle;
