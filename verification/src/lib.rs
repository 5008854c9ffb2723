//! Consensus core of a small replicated database: a configuration record,
//! an operation journal, the election and replication state machine, the
//! datagram encoding of its messages and the deadline queue of its timer.

pub mod cli;
pub mod config;
pub mod consensus;
pub mod counter;
pub mod endian;
pub mod event_loop;
pub mod journal;
pub mod message;
pub mod quorum;
pub mod safety;
pub mod timer;
pub mod wire;
