//! Round-trip admission validation for JSON-shaped resources.
//!
//! The library decides whether a submitted resource survives a schema
//! decode/encode cycle without losing information: the re-encoded value is
//! compared structurally against the submitted value, field by field, and
//! the verdict is wrapped into an admission response envelope.
//!
//! `json` holds the value model, `compare` the structural comparator,
//! `admission` the validator and the envelope handler, and `laws` the
//! proofs of the properties the comparator keeps.

use vstd::prelude::*;

pub mod admission;
pub mod compare;
pub mod json;
pub mod laws;

verus! {

} // verus!
