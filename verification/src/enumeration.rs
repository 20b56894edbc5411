//! Enumeration of the piece space.
//!
//! The raw space holds all `2^16 = 65536` encodings; the reduced space keeps
//! one canonical representative per symmetry class.

pub mod piece;
