//! The transport abstraction: anything that can carry a serialized request
//! to a server and hand back the bytes of the response.

use vstd::prelude::*;

verus! {

/// Carries one request to a server.
///
/// The codec hands `transmit` a complete, already-serialized XML document;
/// the transport must return the complete response body, or fail with an
/// opaque message. Whether the transport checks status codes or headers is
/// its own concern; the codec never inspects them.
pub trait Transport {
    /// Transmits the request bytes and returns the response bytes, or an
    /// opaque error message.
    fn transmit(&mut self, request: &[u8]) -> Result<Vec<u8>, Vec<u8>>;
}

} // verus!
