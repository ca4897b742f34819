//! Global JavaScript functions: URI encoding and decoding, `escape` and
//! `unescape`.

use vstd::prelude::*;

pub mod decode_uri;
pub mod encode_uri;
pub mod escape;
pub mod unescape;
pub mod utils;

pub use decode_uri::{decode_uri, decode_uri_component, decode_uri_inner};
pub use encode_uri::{encode_inner, encode_uri, encode_uri_component};
pub use escape::escape;
pub use unescape::unescape;

verus! {

/// An error when encoding or decoding a URI.
#[derive(Debug, Copy, Clone, Hash, PartialEq, Eq, Structural)]
pub enum UriError {
    /// The provided URI was malformed.
    InvalidUri,
    /// An unexpected character was encountered.
    InvalidUtf8Character,
}

} // verus!
