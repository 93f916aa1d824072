//! Epoch-versioned in-memory write layer of a streaming storage engine.
//!
//! The crate holds two cooperating pieces of state and the rules that govern
//! them:
//!
//! * the registry of immutable memtables and the uploader that turns queued
//!   memtables into one ordered stream of entries for the table builder;
//! * the bounded, ordered, write-buffered cache behind top-N operators.
//!
//! Every function carries a contract over a mathematical model of the data;
//! I/O, tasks and channels are left to the caller.

pub mod buf;
pub mod error;
pub mod flush_status;
pub mod key;
pub mod manager;
pub mod memtable;
pub mod ordered;
pub mod pg_response;
pub mod range;
pub mod top_n_state;
pub mod uploader;
pub mod value;
