//! The daemon: one process that watches, reconciles, updates and merges every
//! root, and that clients reach over a local transport.

pub mod actor;
pub mod client;
pub mod config;
pub mod laws;
pub mod paths;
pub mod place_laws;
pub mod protocol;
pub mod run;
pub mod server;
pub mod transport;
