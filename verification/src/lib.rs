//! Core of a minimal TLS-terminated HTTP/1.x static file server.
//!
//! The library holds the verified request-handling pipeline: parsing a raw
//! request buffer into a structured request, mapping a request path to file
//! content or a fallback, and serializing a structured response back to wire
//! form. Listening, TLS handshakes and file reads happen outside the library,
//! which only ever works on plain values handed to it.

pub mod decode;
pub mod headers;
pub mod request;
pub mod resolve;
pub mod response;
pub mod text;

use vstd::prelude::*;

verus! {

} // verus!
