//! A schema-driven binary serialization and RPC runtime.
//!
//! Records are described by runtime schemas (field name, id, wire type,
//! value kind); one generic engine walks a schema to encode a record as a
//! self-describing tagged event stream and to decode such a stream back,
//! skipping unrecognized fields. A dispatcher routes call messages to a
//! bound service implementation and frames replies; a client stub frames
//! calls and extracts reply results.
//!
//! The byte layout of each event is left to a pluggable protocol; the codec
//! is verified against the event stream any protocol must realize.

use vstd::prelude::*;

pub mod schema;
pub mod value;
pub mod events;
pub mod codec;
pub mod protocol;
pub mod decode;
pub mod service;
pub mod laws;

verus! {

/// Everything that can go wrong while encoding, decoding or dispatching.
#[derive(Clone, Copy, PartialEq, Eq, Structural, Debug)]
pub enum Error {
    /// Malformed or semantically inconsistent wire data.
    ProtocolViolation,
    /// A call message named a method the dispatcher does not know.
    UnknownMethod,
    /// The underlying byte transport failed.
    TransportError,
    /// A wire type the decoder cannot safely discard had to be skipped.
    UnsupportedSkip,
}

} // verus!
