//! A dense, bit-packed fixed-width array.
//!
//! The array stores `n` unsigned elements using exactly `width` bits per
//! element (`1 <= width <= 32`, not necessarily a power of two), packed
//! little-endian and back to back into a flat vector of 32-bit words, with
//! no padding between elements. Reads and writes address a single element's
//! bit range, which may straddle a word boundary; a write never disturbs the
//! bits of any other element.

pub mod bits;
pub mod fixed;
