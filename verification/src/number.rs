//! Number related utilities.

pub mod custom_radix_float;
pub mod digit_buffer;
pub mod magnitude;
pub mod radii;
pub mod rounding;
pub mod utils;
pub mod whole;

pub use custom_radix_float::float_to_custom_radix;
pub use utils::{
    floating_point_parts,
    from_character_byte,
    from_floating_point_parts,
    next_floating_point,
    to_character_byte,
};
