//! Low-level routines on little-endian limb sequences.

pub mod euclid;
pub mod gcd;
pub mod limb_count;
pub mod limb_value;
pub mod limbs;

pub use self::gcd::gcd;


