//! hcube: the combinatorial core of a Happy Cube puzzle generator.
//!
//! A Happy Cube piece is a square of 5x5 sub-cubes whose interior is always
//! present and whose 16 border positions may or may not be filled. The border
//! positions form a ring, so a piece is encoded as a 16-bit word: bit `b` is
//! set iff ring position `b` is part of the piece.
//!
//! The crate provides the ring bit-permutation algebra (rotation and
//! reflection), the [`piece::Piece`] value type built on it, and the
//! enumeration of the piece space: all 65536 raw encodings, and the reduction
//! of that space to one canonical representative per symmetry class.

pub mod enumeration;
pub mod piece;
