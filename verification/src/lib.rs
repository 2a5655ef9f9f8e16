//! Comb: immutable binary data and ordered event feeds on object storage.
use vstd::prelude::*;

pub mod ancestry;
pub mod append;
pub mod appending;
pub mod bits;
pub mod bridge;
pub mod bytes;
pub mod catalog;
pub mod chain;
pub mod chaos;
pub mod commit;
pub mod complete;
pub mod config;
pub mod conformance;
pub mod digest;
pub mod envelope;
pub mod error;
pub mod failpoint;
pub mod fault;
pub mod feed;
pub mod foreign;
pub mod group;
pub mod hamt;
pub mod json;
pub mod log;
pub mod object;
pub mod operation;
pub mod plans;
pub mod publication;
pub mod publish;
pub mod refs;
pub mod report;
pub mod retry;
pub mod session;
pub mod store;
pub mod sweep;
pub mod table;
pub mod text;
pub mod time;

verus! {

} // verus!
