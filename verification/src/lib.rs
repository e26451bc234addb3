//! Edge synchronisation client: the decisions of the client as verified functions.

pub mod bus;
pub mod cold_start;
pub mod config;
pub mod crypto;
pub mod file_events;
pub mod ipc;
pub mod ledger;
pub mod numbers;
pub mod paths;
pub mod platform;
pub mod segment;
pub mod segment_events;
pub mod slicer;
pub mod scanner;
pub mod table;
pub mod text;
pub mod tracker;
