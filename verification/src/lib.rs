//! Utilities for number formatting, URI and base64 codecs, and a small
//! pseudorandom number generator.

pub mod base64;
pub mod bytes;
pub mod globals;
pub mod number;
pub mod rng;
