//! A schema-driven binary codec with path-addressed change logging.
//!
//! Values are framed as tagged fields of two wire types (varint and sized);
//! stateful records carry a handle into an arena of addresses whose size
//! caches are invalidated up to the root on every mutation, and whose
//! mutations are appended to a change log.
use vstd::prelude::*;

pub mod varint;
pub mod wire;
pub mod decode;
pub mod ser;
pub mod runtime;
pub mod schema;
pub mod object;

verus! {

} // verus!
