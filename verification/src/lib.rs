//! Model of an ERC-7562 validation trace: the call-frame tree that an EVM
//! tracer builds while a transaction's validation code runs, the per-frame
//! storage-access ledger, the tracer configuration, and a wire codec for the
//! finished tree.

use vstd::prelude::*;

pub mod assoc;
pub mod builder;
pub mod codec;
pub mod config;
pub mod frame;
pub mod slots;
pub mod wire;

verus! {

/// Failures of this library itself. EVM-level failures of a traced call
/// (`error`, `revert_reason`, `out_of_gas`) are captured data, not errors here.
#[derive(Clone, Copy, Debug, PartialEq, Eq, Structural)]
pub enum TraceError {
    /// The event stream broke the builder contract: an exit or a record
    /// without a matching live frame.
    InvalidTraceSequence,
    /// A wire value does not decode: a shape mismatch, a missing required
    /// field, or a duplicate key in a map.
    MalformedWireData,
}

} // verus!
