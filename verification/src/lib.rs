//! The decoding core of a lossless image codec: an adaptive binary range
//! coder, the bounded-integer decoder built on it, and the reversible
//! pixel-space transforms whose parameters are read from the same stream.

use vstd::prelude::*;

pub mod components;
pub mod error;
pub mod info;
pub mod numbers;
pub mod pixels;

pub use error::{Corruption, Error};

verus! {

/// The message carried by the error that [`encode`] returns.
pub const ENCODING_UNSUPPORTED: &'static str = "flif.rs does not currently support encoding";

/// Encoding is not implemented: the call fails at once and does no work.
pub fn encode() -> (r: Result<(), Error>)
    ensures
        r == Err::<(), Error>(Error::Unimplemented(ENCODING_UNSUPPORTED)),
{
    Err(Error::Unimplemented(ENCODING_UNSUPPORTED))
}

} // verus!
