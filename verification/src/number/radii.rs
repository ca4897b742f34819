//! Commonly used radii.

use vstd::prelude::*;

verus! {

/// The radix used for converting to binary.
pub const BINARY_RADIX: u8 = 2;

/// The radix used for converting to octal.
pub const OCTAL_RADIX: u8 = 8;

/// The radix used for converting to decimal.
pub const DECIMAL_RADIX: u8 = 10;

/// The radix used for converting to hexadecimal.
pub const HEXADECIMAL_RADIX: u8 = 16;

/// The radix used for converting to hexatridecimal.
pub const HEXATRIDECIMAL_RADIX: u8 = 36;

} // verus!
