//! The process bridge: its JSON-lines protocol, its limits, what it answers,
//! and its framing.
use vstd::prelude::*;

pub mod errors;
pub mod handler;
pub mod limits;
pub mod protocol;
pub mod stdio;

verus! {

} // verus!
