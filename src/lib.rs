//! A shared, stored sequence of integers that many connections append to,
//! with every append pushed to all connected clients.
//!
//! - `document`: the stored document's text, written and read back exactly.
//! - `store`: the read-modify-write step that one append makes.
//! - `protocol`: a client's submission and the update messages.
//! - `registry`: the connected clients and the fan-out to them.
//! - `handler`: what one connection does, step by step.
use vstd::prelude::*;

pub mod decimal;
pub mod document;
pub mod handler;
pub mod protocol;
pub mod registry;
pub mod store;
