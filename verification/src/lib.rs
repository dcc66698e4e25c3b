//! Brute-force travelling-salesman solving for small point sets.
//!
//! The library enumerates every visiting order of a fixed set of 2-D points
//! and tracks the cyclic tour of minimal total edge length.  All numeric
//! reasoning is carried out on the 32-bit IEEE 754 encodings of the
//! coordinates and distances, so the ordering and successor logic is exact;
//! the caller performs the floating-point edge-length arithmetic and hands
//! each total back as its bit pattern.

pub mod float_bits;
pub mod grid;
pub mod perm;
pub mod tour;
