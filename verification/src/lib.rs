//! Multi-limb natural-number routines, verified with Verus.
//!
//! A natural number is held as a little-endian sequence of 64-bit limbs; the
//! `ll` module holds the low-level routines on such sequences, among them the
//! binary greatest common divisor.

pub mod ll;
