//! Variable-width little-endian codec primitives.
//!
//! Two families of operations on growable buffers:
//! - a byte-buffer family that writes and reads 64-bit values using an
//!   explicit width of 1 to 8 bytes, little-endian, never reading past the
//!   buffer's logical length;
//! - a word-buffer family that appends one or eight 64-bit words, intended
//!   for tight encoding loops that reserve capacity up front.

pub mod endian;
pub mod byteutils;
