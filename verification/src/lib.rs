//! A multiplexed RPC framing library: many concurrently outstanding calls,
//! distinguished by a correlation id, share one ordered byte stream.
//!
//! The crate has three parts. [`envelope`] defines the unit of correlation
//! and dispatch, an [`envelope::Envelope`] carrying a correlation id, a
//! method name, an opaque payload and an optional status code. [`codec`]
//! turns an envelope into its wire frame and back: a length-prefixed
//! metadata segment followed by a length-prefixed raw payload segment, with
//! variable-length integers for both prefixes. [`server`] holds the handler
//! registry and the dispatch loop that answers every decoded request with
//! exactly one correlated reply.

use vstd::prelude::*;

pub mod codec;
pub mod envelope;
pub mod server;

use crate::envelope::{Envelope, EnvelopeData};

verus! {

/// A framed message: something that can hand out its metadata (the envelope
/// with the payload cleared) and its raw payload bytes.
pub trait Message {
    /// The abstract value of the metadata this message would hand out.
    spec fn metadata_model(&self) -> EnvelopeData;

    /// The abstract value of the payload this message carries.
    spec fn payload_model(&self) -> Seq<u8>;

    /// Returns the metadata (without the payload).
    fn get_metadata(&self) -> (md: Envelope)
        ensures
            md@ == self.metadata_model(),
    ;

    /// Returns the raw payload bytes.
    fn get_message(&self) -> (msg: &Vec<u8>)
        ensures
            msg@ == self.payload_model(),
    ;
}

} // verus!
