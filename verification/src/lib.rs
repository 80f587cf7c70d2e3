//! `cattail` tails multiple files and glob patterns with live discovery.
//!
//! This crate holds the verified core: line splitting and buffering, the
//! backward backlog scan, the per-file follow state machine, source labels,
//! path handling, input resolution and the watch coordinator's decisions.

pub mod cli;
pub mod lines;
pub mod path;
pub mod tail;
pub mod follow;
pub mod output;
pub mod resolve;
pub mod watch;
