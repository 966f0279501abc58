//! The decision core of a directory synchroniser.

pub mod address;
pub mod basis;
pub mod digest;
pub mod executor;
pub mod filter;
pub mod handshake;
pub mod host;
pub mod inflight;
pub mod linkpolicy;
pub mod order;
pub mod path;
pub mod planner;
pub mod protocol;
pub mod receiver;
pub mod scan;
pub mod scanner;
pub mod sender;
pub mod serve;
pub mod session;
pub mod sigcache;
pub mod spans;
pub mod sparse;
pub mod stats;
pub mod strategy;
pub mod test_fuzz;
pub mod text;
pub mod transfer;
pub mod verify;
pub mod watcher;
pub mod wire;
