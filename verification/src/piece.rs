//! A single puzzle piece and the ring bit-permutation algebra acting on it.
//!
//! A piece is a connected part of the puzzle, forming one of the sides of the
//! cube, or that which will be placed in the receptacle.
//!
//! We will address sub-cubes by index. Use the following chart to relate an
//! index to a sub-cube, and vice versa.
//!
//! ```text
//! +----+----+----+----+----+
//! | 00 | 01 | 02 | 03 | 04 |
//! +----+----+----+----+----+
//! | 15 |              | 05 |
//! +----+              +----+
//! | 14 |              | 06 |
//! +----+              +----+
//! | 13 |              | 07 |
//! +----+----+----+----+----+
//! | 12 | 11 | 10 | 09 | 08 |
//! +----+----+----+----+----+
//! ```
//!
//! This tells us that there are a maximum of `2^16 = 65536` number of pieces.
//! In reality this number is lower due to symmetry: the 16 positions form a
//! ring, and rotating or reflecting the ring yields a piece of the same shape.
//!
//! The algebra below implements that symmetry group as permutations of the 16
//! bit positions: `rotate` moves every bit `i` to bit `(i + k) % 16`, and
//! `reflect` moves every bit `i` to bit `(16 - i) % 16` (the mirror image
//! about the axis through position 0).

use vstd::prelude::*;

verus! {

/// True iff bit `i` of `n` is set.
pub open spec fn bit_at(n: u16, i: u16) -> bool
    recommends
        i < 16,
{
    (n >> i) & 1 == 1
}

/// The 16-bit ring rotated clockwise by `k` positions: bit `i` of `n` becomes
/// bit `(i + k) % 16` of the result. This is a cyclic permutation of the bit
/// positions, not an arithmetic shift: nothing falls off either end.
pub open spec fn rotate_spec(n: u16, k: u16) -> u16
    recommends
        k < 16,
{
    if k == 0 {
        n
    } else {
        (n << k) | (n >> (16 - k) as u16)
    }
}

/// The 16-bit ring mirrored about the axis through position 0: bit `i` of `n`
/// becomes bit `(16 - i) % 16` of the result.
pub open spec fn reflect_spec(n: u16) -> u16 {
    (n & 0x0001) | ((n & 0x0002) << 14) | ((n & 0x0004) << 12) | ((n & 0x0008) << 10) | ((n
        & 0x0010) << 8) | ((n & 0x0020) << 6) | ((n & 0x0040) << 4) | ((n & 0x0080) << 2) | (n
        & 0x0100) | ((n & 0x0200) >> 2) | ((n & 0x0400) >> 4) | ((n & 0x0800) >> 6) | ((n & 0x1000)
        >> 8) | ((n & 0x2000) >> 10) | ((n & 0x4000) >> 12) | ((n & 0x8000) >> 14)
}

/// Rotation moves bit `i` to bit `(i + k) % 16`; read backwards, bit `j` of
/// the result came from bit `(j + 16 - k) % 16` of the input.
pub proof fn lemma_rotate_spec_bits(n: u16, k: u16, i: u16, j: u16)
    requires
        k < 16,
        i < 16,
        j < 16,
    ensures
        bit_at(rotate_spec(n, k), ((i + k) % 16) as u16) == bit_at(n, i),
        bit_at(rotate_spec(n, k), j) == bit_at(n, ((j + 16 - k) % 16) as u16),
{
    assert(bit_at(rotate_spec(n, k), ((i + k) % 16) as u16) == bit_at(n, i) && bit_at(
        rotate_spec(n, k),
        j,
    ) == bit_at(n, ((j + 16 - k) % 16) as u16)) by (bit_vector)
        requires
            k < 16,
            i < 16,
            j < 16,
    ;
}

/// Reflection moves bit `i` to bit `(16 - i) % 16`; the position map is its
/// own inverse, so bit `j` of the result came from bit `(16 - j) % 16`.
pub proof fn lemma_reflect_spec_bits(n: u16, i: u16)
    requires
        i < 16,
    ensures
        bit_at(reflect_spec(n), ((16 - i) % 16) as u16) == bit_at(n, i),
        bit_at(reflect_spec(n), i) == bit_at(n, ((16 - i) % 16) as u16),
{
    assert(bit_at(reflect_spec(n), ((16 - i) % 16) as u16) == bit_at(n, i) && bit_at(
        reflect_spec(n),
        i,
    ) == bit_at(n, ((16 - i) % 16) as u16)) by (bit_vector)
        requires
            i < 16,
    ;
}

/// Two 16-bit words with the same bits are the same word.
pub proof fn lemma_bit_ext(a: u16, b: u16)
    requires
        forall|j: u16| j < 16 ==> bit_at(a, j) == bit_at(b, j),
    ensures
        a == b,
{
    assert(bit_at(a, 0) == bit_at(b, 0));
    assert(bit_at(a, 1) == bit_at(b, 1));
    assert(bit_at(a, 2) == bit_at(b, 2));
    assert(bit_at(a, 3) == bit_at(b, 3));
    assert(bit_at(a, 4) == bit_at(b, 4));
    assert(bit_at(a, 5) == bit_at(b, 5));
    assert(bit_at(a, 6) == bit_at(b, 6));
    assert(bit_at(a, 7) == bit_at(b, 7));
    assert(bit_at(a, 8) == bit_at(b, 8));
    assert(bit_at(a, 9) == bit_at(b, 9));
    assert(bit_at(a, 10) == bit_at(b, 10));
    assert(bit_at(a, 11) == bit_at(b, 11));
    assert(bit_at(a, 12) == bit_at(b, 12));
    assert(bit_at(a, 13) == bit_at(b, 13));
    assert(bit_at(a, 14) == bit_at(b, 14));
    assert(bit_at(a, 15) == bit_at(b, 15));
    assert(a == b) by (bit_vector)
        requires
            bit_at(a, 0) == bit_at(b, 0),
            bit_at(a, 1) == bit_at(b, 1),
            bit_at(a, 2) == bit_at(b, 2),
            bit_at(a, 3) == bit_at(b, 3),
            bit_at(a, 4) == bit_at(b, 4),
            bit_at(a, 5) == bit_at(b, 5),
            bit_at(a, 6) == bit_at(b, 6),
            bit_at(a, 7) == bit_at(b, 7),
            bit_at(a, 8) == bit_at(b, 8),
            bit_at(a, 9) == bit_at(b, 9),
            bit_at(a, 10) == bit_at(b, 10),
            bit_at(a, 11) == bit_at(b, 11),
            bit_at(a, 12) == bit_at(b, 12),
            bit_at(a, 13) == bit_at(b, 13),
            bit_at(a, 14) == bit_at(b, 14),
            bit_at(a, 15) == bit_at(b, 15),
    ;
}

/// Moving a ring position up by `k` and back down by `k` (each modulo 16)
/// lands on the original position, whichever direction goes first.
pub proof fn lemma_ring_index_roundtrip(i: u16, k: u16)
    requires
        i < 16,
        k < 16,
    ensures
        (((i + k) % 16) + 16 - k) % 16 == i,
        (((i + 16 - k) % 16) + k) % 16 == i,
{
    assert((((i + k) % 16) + 16 - k) % 16 == i && (((i + 16 - k) % 16) + k) % 16 == i)
        by (bit_vector)
        requires
            i < 16,
            k < 16,
    ;
}

/// The reflection position map `i -> (16 - i) % 16` is its own inverse.
pub proof fn lemma_reflect_index_roundtrip(i: u16)
    requires
        i < 16,
    ensures
        (16 - ((16 - i) % 16)) % 16 == i,
{
    assert((16 - ((16 - i) % 16)) % 16 == i) by (bit_vector)
        requires
            i < 16,
    ;
}

/// Read bit `bit_index` of `n`.
pub fn get_bit(n: u16, bit_index: u16) -> (b: bool)
    requires
        bit_index < 16,
    ensures
        b == bit_at(n, bit_index),
{
    (n >> bit_index) & 1 == 1
}

/// Write `b` into bit `bit_index` of `n`, leaving every other bit alone.
pub fn set_bit(n: u16, bit_index: u16, b: bool) -> (r: u16)
    requires
        bit_index < 16,
    ensures
        bit_at(r, bit_index) == b,
        forall|j: u16| j < 16 && j != bit_index ==> bit_at(r, j) == bit_at(n, j),
{
    let r = if b {
        n | (1u16 << bit_index)
    } else {
        n & !(1u16 << bit_index)
    };
    proof {
        assert(bit_at(r, bit_index) == b && forall|j: u16|
            j < 16 && j != bit_index ==> bit_at(r, j) == bit_at(n, j)) by (bit_vector)
            requires
                bit_index < 16,
                r == if b {
                    n | (1u16 << bit_index)
                } else {
                    n & !(1u16 << bit_index)
                },
        ;
    }
    r
}

/// Rotate the ring clockwise by `k` positions: bit `i` of `n` becomes bit
/// `(i + k) % 16` of the result. Every bit is relocated individually, so
/// nothing falls off either end of the word.
pub fn rotate(n: u16, k: u16) -> (r: u16)
    requires
        k < 16,
    ensures
        r == rotate_spec(n, k),
{
    let mut result: u16 = 0;
    let mut bit_index: u16 = 0;
    proof {
        assert(forall|j: u16| j < 16 ==> #[trigger] bit_at(0u16, j) == false) by (bit_vector);
    }
    while bit_index < 16
        invariant
            k < 16,
            bit_index <= 16,
            forall|j: u16|
                j < 16 ==> #[trigger] bit_at(result, j) == ((j + 16 - k) % 16 < bit_index && bit_at(
                    n,
                    ((j + 16 - k) % 16) as u16,
                )),
        decreases 16 - bit_index,
    {
        let bit = get_bit(n, bit_index);
        let target_index = (bit_index + k) % 16;
        let prev = result;
        result = set_bit(result, target_index, bit);
        proof {
            lemma_ring_index_roundtrip(bit_index, k);
            assert forall|j: u16|
                j < 16 implies #[trigger] bit_at(result, j) == ((j + 16 - k) % 16 < bit_index + 1
                && bit_at(n, ((j + 16 - k) % 16) as u16)) by {
                if j == target_index {
                    assert((j + 16 - k) % 16 == bit_index);
                } else {
                    assert(bit_at(result, j) == bit_at(prev, j));
                    if (j + 16 - k) % 16 == bit_index {
                        lemma_ring_index_roundtrip(j, k);
                        assert(j == target_index);
                    }
                }
            }
        }
        bit_index = bit_index + 1;
    }
    proof {
        assert forall|j: u16| j < 16 implies bit_at(result, j) == bit_at(rotate_spec(n, k), j) by {
            lemma_rotate_spec_bits(n, k, 0, j);
        }
        lemma_bit_ext(result, rotate_spec(n, k));
    }
    result
}

/// Reflect the ring about the axis through position 0: bit `i` of `n` becomes
/// bit `(16 - i) % 16` of the result.
pub fn reflect(n: u16) -> (r: u16)
    ensures
        r == reflect_spec(n),
{
    let mut result: u16 = 0;
    let mut bit_index: u16 = 0;
    proof {
        assert(forall|j: u16| j < 16 ==> #[trigger] bit_at(0u16, j) == false) by (bit_vector);
    }
    while bit_index < 16
        invariant
            bit_index <= 16,
            forall|j: u16|
                j < 16 ==> #[trigger] bit_at(result, j) == ((16 - j) % 16 < bit_index && bit_at(
                    n,
                    ((16 - j) % 16) as u16,
                )),
        decreases 16 - bit_index,
    {
        let bit = get_bit(n, bit_index);
        let target_index = (16 - bit_index) % 16;
        let prev = result;
        result = set_bit(result, target_index, bit);
        proof {
            lemma_reflect_index_roundtrip(bit_index);
            assert forall|j: u16|
                j < 16 implies #[trigger] bit_at(result, j) == ((16 - j) % 16 < bit_index + 1
                && bit_at(n, ((16 - j) % 16) as u16)) by {
                if j == target_index {
                    assert((16 - j) % 16 == bit_index);
                } else {
                    assert(bit_at(result, j) == bit_at(prev, j));
                    if (16 - j) % 16 == bit_index {
                        lemma_reflect_index_roundtrip(j);
                        assert(j == target_index);
                    }
                }
            }
        }
        bit_index = bit_index + 1;
    }
    proof {
        assert forall|j: u16| j < 16 implies bit_at(result, j) == bit_at(reflect_spec(n), j) by {
            lemma_reflect_spec_bits(n, j);
        }
        lemma_bit_ext(result, reflect_spec(n));
    }
    result
}

/// The identity element of the symmetry group: a rotation by zero positions.
pub fn r0(n: u16) -> (r: u16)
    ensures
        r == n,
        r == rotate_spec(n, 0),
{
    n
}

/// Rotate 90 degrees clockwise: four ring positions.
pub fn r1(n: u16) -> (r: u16)
    ensures
        r == rotate_spec(n, 4),
{
    rotate(n, 4)
}

/// Rotate 180 degrees: eight ring positions.
pub fn r2(n: u16) -> (r: u16)
    ensures
        r == rotate_spec(n, 8),
{
    rotate(n, 8)
}

/// Rotate 270 degrees clockwise: twelve ring positions.
pub fn r3(n: u16) -> (r: u16)
    ensures
        r == rotate_spec(n, 12),
{
    rotate(n, 12)
}

/// Reflect about the axis through position 0.
pub fn t(n: u16) -> (r: u16)
    ensures
        r == reflect_spec(n),
{
    reflect(n)
}

/// Rotate 90 degrees clockwise, then reflect.
pub fn r1t(n: u16) -> (r: u16)
    ensures
        r == reflect_spec(rotate_spec(n, 4)),
{
    t(r1(n))
}

/// Rotate 180 degrees, then reflect.
pub fn r2t(n: u16) -> (r: u16)
    ensures
        r == reflect_spec(rotate_spec(n, 8)),
{
    t(r2(n))
}

/// Rotate 270 degrees clockwise, then reflect.
pub fn r3t(n: u16) -> (r: u16)
    ensures
        r == reflect_spec(rotate_spec(n, 12)),
{
    t(r3(n))
}

/// Rotating by zero positions returns the word unchanged: the algebra has an
/// identity element.
pub proof fn lemma_rotate_identity(n: u16)
    ensures
        rotate_spec(n, 0) == n,
{
}

/// Reflecting twice gives back the original word: reflection is an
/// involution.
pub proof fn lemma_reflect_involution(n: u16)
    ensures
        reflect_spec(reflect_spec(n)) == n,
{
    assert(reflect_spec(reflect_spec(n)) == n) by (bit_vector);
}

/// Two rotations compose into the rotation by the sum of the two amounts,
/// taken around the ring.
pub proof fn lemma_rotate_compose(n: u16, a: u16, b: u16)
    requires
        a < 16,
        b < 16,
    ensures
        rotate_spec(rotate_spec(n, a), b) == rotate_spec(n, ((a + b) % 16) as u16),
{
    assert(rotate_spec(rotate_spec(n, a), b) == rotate_spec(n, ((a + b) % 16) as u16))
        by (bit_vector)
        requires
            a < 16,
            b < 16,
    ;
}

/// The exchange law of the dihedral group: rotating a reflected word by `b`
/// equals reflecting the word rotated by `b` the opposite way, so a rotation
/// by `a` followed by a reflection followed by a rotation by `b` is the
/// reflection of a single rotation, by `(a - b)` taken around the ring.
pub proof fn lemma_rotate_after_reflect(n: u16, a: u16, b: u16)
    requires
        a < 16,
        b < 16,
    ensures
        rotate_spec(reflect_spec(rotate_spec(n, a)), b) == reflect_spec(
            rotate_spec(n, ((a + 16 - b) % 16) as u16),
        ),
{
    assert(rotate_spec(reflect_spec(rotate_spec(n, a)), b) == reflect_spec(
        rotate_spec(n, ((a + 16 - b) % 16) as u16),
    )) by (bit_vector)
        requires
            a < 16,
            b < 16,
    ;
}

/// Four clockwise quarter turns give back the original word: the rotation has
/// order four.
pub proof fn lemma_rotate_order_four(n: u16)
    ensures
        rotate_spec(rotate_spec(rotate_spec(rotate_spec(n, 4), 4), 4), 4) == n,
{
    lemma_rotate_compose(n, 4, 4);
    lemma_rotate_compose(n, 8, 4);
    lemma_rotate_compose(n, 12, 4);
}

/// A quarter turn clockwise and a quarter turn counter-clockwise cancel, in
/// either order.
pub proof fn lemma_rotate_inverse(n: u16)
    ensures
        rotate_spec(rotate_spec(n, 4), 12) == n,
        rotate_spec(rotate_spec(n, 12), 4) == n,
{
    lemma_rotate_compose(n, 4, 12);
    lemma_rotate_compose(n, 12, 4);
}

/// A representation of a piece: a 16-bit word whose set bits name the ring
/// positions that belong to the piece's footprint. Any bit pattern is a valid
/// piece; physical realizability is not this type's concern.
#[derive(PartialEq, Eq, Structural, Debug, Clone, Copy)]
pub struct Piece {
    index: u16,
}

impl View for Piece {
    type V = u16;

    closed spec fn view(&self) -> u16 {
        self.index
    }
}

impl Piece {
    /// Create a `Piece` from an index. The piece will have a corresponding
    /// sub-cube for each bit set in the `u16` index.
    pub fn from_index(index: u16) -> (p: Piece)
        ensures
            p@ == index,
    {
        Piece { index }
    }

    /// Return a `Piece` which is similar as this piece, but rotated 90
    /// degrees clockwise.
    pub fn rotate_clockwise(&self) -> (p: Piece)
        ensures
            p@ == rotate_spec(self@, 4),
    {
        Piece::from_index(r1(self.index))
    }

    /// Return a `Piece` which is similar as this piece, but rotated 90
    /// degrees counter-clockwise. This inverts `rotate_clockwise`.
    pub fn rotate_counter_clockwise(&self) -> (p: Piece)
        ensures
            p@ == rotate_spec(self@, 12),
    {
        Piece::from_index(r3(self.index))
    }

    /// Return a `Piece` which is similar as this piece, but flipped.
    pub fn flip(&self) -> (p: Piece)
        ensures
            p@ == reflect_spec(self@),
    {
        Piece::from_index(t(self.index))
    }

    /// The raw 16-bit encoding of this piece.
    pub fn index(&self) -> (i: u16)
        ensures
            i == self@,
    {
        self.index
    }
}

} // verus!

