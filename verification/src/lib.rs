//! Host-side bridge between a capability-restricted guest and a database
//! engine: a binary value codec, a deterministic parameter pipeline,
//! per-statement query outcomes, and the live-subscription lifecycle
//! (registry, task state machine, stream adapter).

use vstd::prelude::*;

pub mod adapter;
pub mod config;
pub mod errors;
pub mod live;
pub mod outcomes;
pub mod params;
pub mod query;
pub mod record_id;
pub mod registry;
pub mod value;
pub mod wire;

verus! {

/// Whether a double-precision float, given by its raw bit pattern, is finite
/// (neither an infinity nor a NaN): its exponent bits are not all ones.
pub open spec fn spec_float_bits_finite(bits: u64) -> bool {
    (bits >> 52) & 0x7ff != 0x7ff
}

/// Finiteness test on raw double-precision bits.
pub fn float_bits_finite(bits: u64) -> (r: bool)
    ensures
        r == spec_float_bits_finite(bits),
{
    (bits >> 52) & 0x7ff != 0x7ff
}

} // verus!
