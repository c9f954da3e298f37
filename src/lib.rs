//! Balanced partition of a slice into at most `n` contiguous parts whose
//! lengths differ by at most one.
pub mod laws;
pub mod layout;
pub mod parts;

pub use layout::Layout;
pub use parts::Parts;
