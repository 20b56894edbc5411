//! Enumerators for `Piece`.
//!
//! Two traversals of the piece space are offered. The raw traversal yields
//! every one of the 65536 encodings exactly once, in ascending index order.
//! The reduced traversal groups the raw space into orbits under the
//! eight-element symmetry group (four rotations, each with or without a
//! reflection) and yields one canonical representative per orbit: the
//! numerically smallest index of the orbit.

use vstd::prelude::*;

use crate::piece::{
    Piece, lemma_reflect_involution, lemma_rotate_after_reflect, lemma_rotate_compose,
    lemma_rotate_identity, r1, r1t, r2, r2t, r3, r3t, reflect_spec, rotate_spec, t,
};
use vstd::arithmetic::div_mod::lemma_mod_multiples_vanish;

verus! {

/// Element `e` of the eight-element symmetry group applied to `n`: elements
/// 0 to 3 are the rotations by 0, 4, 8 and 12 positions; elements 4 to 7 are
/// the same rotations followed by the reflection.
pub open spec fn transform(n: u16, e: int) -> u16
    recommends
        0 <= e < 8,
{
    if e < 4 {
        rotate_spec(n, (4 * e) as u16)
    } else {
        reflect_spec(rotate_spec(n, (4 * (e - 4)) as u16))
    }
}

/// `m` lies in the orbit of `n`: some symmetry element maps `n` to `m`.
pub open spec fn in_orbit(m: u16, n: u16) -> bool {
    exists|e: int| 0 <= e < 8 && transform(n, e) == m
}

/// `c` is the canonical representative of the orbit of `n`: it lies in that
/// orbit and is no larger than any of the orbit's members.
pub open spec fn is_canonical_rep(c: u16, n: u16) -> bool {
    in_orbit(c, n) && forall|e: int| 0 <= e < 8 ==> c <= #[trigger] transform(n, e)
}

/// Index arithmetic of the dihedral group: applying element `e1` and then
/// element `e2` acts as the single element `compose(e1, e2)`.
pub open spec fn compose(e1: int, e2: int) -> int
    recommends
        0 <= e1 < 8,
        0 <= e2 < 8,
{
    if e1 < 4 {
        if e2 < 4 {
            (e1 + e2) % 4
        } else {
            4 + (e1 + e2) % 4
        }
    } else {
        if e2 < 4 {
            4 + (e1 - e2) % 4
        } else {
            (e1 - e2) % 4
        }
    }
}

/// Four times a ring quarter-index, reduced around the ring, is four times
/// the quarter-index reduced around the four quarters.
proof fn lemma_mul4_mod16(s: int)
    requires
        0 <= s < 8,
    ensures
        (4 * s) % 16 == 4 * (s % 4),
{
    if s < 4 {
        assert(s % 4 == s);
        assert((4 * s) % 16 == 4 * s);
    } else {
        assert(s % 4 == s - 4);
        assert((4 * s) % 16 == 4 * s - 16);
    }
}

/// A full turn of four quarters changes no quarter-index.
proof fn lemma_mod4_shift(x: int)
    ensures
        (x + 4) % 4 == x % 4,
{
    lemma_mod_multiples_vanish(1, x, 4);
}

/// The symmetry group is closed under composition: applying `e1` and then
/// `e2` is the same as applying `compose(e1, e2)`.
pub proof fn lemma_transform_compose(n: u16, e1: int, e2: int)
    requires
        0 <= e1 < 8,
        0 <= e2 < 8,
    ensures
        0 <= compose(e1, e2) < 8,
        transform(transform(n, e1), e2) == transform(n, compose(e1, e2)),
{
    if e1 < 4 && e2 < 4 {
        lemma_rotate_compose(n, (4 * e1) as u16, (4 * e2) as u16);
        lemma_mul4_mod16(e1 + e2);
    } else if e1 < 4 {
        lemma_rotate_compose(n, (4 * e1) as u16, (4 * (e2 - 4)) as u16);
        lemma_mul4_mod16(e1 + e2 - 4);
        lemma_mod4_shift(e1 + e2 - 4);
    } else if e2 < 4 {
        lemma_rotate_after_reflect(n, (4 * (e1 - 4)) as u16, (4 * e2) as u16);
        lemma_mul4_mod16(e1 - e2);
    } else {
        let a = (4 * (e1 - 4)) as u16;
        let b = (4 * (e2 - 4)) as u16;
        lemma_rotate_after_reflect(n, a, b);
        let s = ((a + 16 - b) % 16) as u16;
        lemma_reflect_involution(rotate_spec(n, s));
        lemma_mul4_mod16(e1 - e2 + 4);
        lemma_mod4_shift(e1 - e2);
        assert(s == 4 * ((e1 - e2) % 4));
    }
}

/// The identity element leaves every word unchanged.
pub proof fn lemma_transform_identity(n: u16)
    ensures
        transform(n, 0) == n,
{
    lemma_rotate_identity(n);
}

/// The group element that undoes `e`: the opposite rotation for a rotation,
/// and `e` itself for a reflected element.
pub open spec fn inverse(e: int) -> int
    recommends
        0 <= e < 8,
{
    if e == 0 {
        0
    } else if e < 4 {
        4 - e
    } else {
        e
    }
}

/// Every group element has an inverse: applying `e` and then `inverse(e)`
/// returns the original word.
pub proof fn lemma_transform_inverse(n: u16, e: int)
    requires
        0 <= e < 8,
    ensures
        0 <= inverse(e) < 8,
        transform(transform(n, e), inverse(e)) == n,
{
    lemma_transform_compose(n, e, inverse(e));
    assert(compose(e, inverse(e)) == 0);
    lemma_transform_identity(n);
}

/// Every word lies in its own orbit.
pub proof fn lemma_in_orbit_refl(n: u16)
    ensures
        in_orbit(n, n),
{
    lemma_transform_identity(n);
    assert(0 <= 0 < 8 && transform(n, 0) == n);
}

/// Orbit membership is symmetric.
pub proof fn lemma_in_orbit_symm(m: u16, n: u16)
    requires
        in_orbit(m, n),
    ensures
        in_orbit(n, m),
{
    let e = choose|e: int| 0 <= e < 8 && transform(n, e) == m;
    lemma_transform_inverse(n, e);
    assert(transform(m, inverse(e)) == n);
}

/// Orbit membership is transitive.
pub proof fn lemma_in_orbit_trans(a: u16, b: u16, c: u16)
    requires
        in_orbit(b, a),
        in_orbit(c, b),
    ensures
        in_orbit(c, a),
{
    let e1 = choose|e: int| 0 <= e < 8 && transform(a, e) == b;
    let e2 = choose|e: int| 0 <= e < 8 && transform(b, e) == c;
    lemma_transform_compose(a, e1, e2);
    assert(transform(a, compose(e1, e2)) == c);
}

/// Two words of one orbit have the same orbit.
pub proof fn lemma_orbit_same(m: u16, n: u16)
    requires
        in_orbit(m, n),
    ensures
        forall|x: u16| in_orbit(x, m) <==> in_orbit(x, n),
{
    assert forall|x: u16| in_orbit(x, m) <==> in_orbit(x, n) by {
        if in_orbit(x, m) {
            lemma_in_orbit_trans(n, m, x);
        }
        if in_orbit(x, n) {
            lemma_in_orbit_symm(m, n);
            lemma_in_orbit_trans(m, n, x);
        }
    }
}

/// The orbits partition the raw piece space: every index lies in its own
/// orbit, and two orbits that share a member are the same orbit.
pub proof fn lemma_orbit_partition(n1: u16, n2: u16, m: u16)
    ensures
        in_orbit(n1, n1),
        in_orbit(m, n1) && in_orbit(m, n2) ==> (forall|x: u16|
            in_orbit(x, n1) <==> in_orbit(x, n2)),
{
    lemma_in_orbit_refl(n1);
    if in_orbit(m, n1) && in_orbit(m, n2) {
        lemma_orbit_same(m, n1);
        lemma_orbit_same(m, n2);
    }
}

/// The canonical representative of the orbit of `n` is also the canonical
/// representative of its own orbit.
pub proof fn lemma_canonical_rep_self(c: u16, n: u16)
    requires
        is_canonical_rep(c, n),
    ensures
        is_canonical_rep(c, c),
{
    lemma_in_orbit_refl(c);
    let e0 = choose|e: int| 0 <= e < 8 && transform(n, e) == c;
    assert forall|e: int| 0 <= e < 8 implies c <= #[trigger] transform(c, e) by {
        lemma_transform_compose(n, e0, e);
    }
}

/// An orbit has exactly one canonical representative.
pub proof fn lemma_canonical_rep_unique(c1: u16, c2: u16, n: u16)
    requires
        is_canonical_rep(c1, n),
        is_canonical_rep(c2, n),
    ensures
        c1 == c2,
{
    let e1 = choose|e: int| 0 <= e < 8 && transform(n, e) == c1;
    let e2 = choose|e: int| 0 <= e < 8 && transform(n, e) == c2;
    assert(c1 <= transform(n, e2));
    assert(c2 <= transform(n, e1));
}

/// Every orbit has a canonical representative: one of the eight images of `n`
/// is no larger than all of them.
pub proof fn lemma_canonical_rep_exists(n: u16)
    ensures
        exists|c: u16| is_canonical_rep(c, n),
{
    lemma_transform_identity(n);
    let v0 = transform(n, 0);
    let v1 = transform(n, 1);
    let v2 = transform(n, 2);
    let v3 = transform(n, 3);
    let v4 = transform(n, 4);
    let v5 = transform(n, 5);
    let v6 = transform(n, 6);
    let v7 = transform(n, 7);
    let mut c = v0;
    if v1 < c {
        c = v1;
    }
    if v2 < c {
        c = v2;
    }
    if v3 < c {
        c = v3;
    }
    if v4 < c {
        c = v4;
    }
    if v5 < c {
        c = v5;
    }
    if v6 < c {
        c = v6;
    }
    if v7 < c {
        c = v7;
    }
    assert(in_orbit(c, n));
    assert forall|e: int| 0 <= e < 8 implies c <= #[trigger] transform(n, e) by {
        if e == 0 {
        } else if e == 1 {
        } else if e == 2 {
        } else if e == 3 {
        } else if e == 4 {
        } else if e == 5 {
        } else if e == 6 {
        } else {
        }
    }
    assert(is_canonical_rep(c, n));
}

/// Distinct canonical representatives lie in distinct orbits: no raw index
/// belongs to the orbit of two different representatives.
pub proof fn lemma_reps_distinct_orbits(c1: u16, c2: u16, x: u16)
    requires
        is_canonical_rep(c1, c1),
        is_canonical_rep(c2, c2),
        c1 != c2,
    ensures
        !(in_orbit(x, c1) && in_orbit(x, c2)),
{
    if in_orbit(x, c1) && in_orbit(x, c2) {
        lemma_in_orbit_symm(x, c1);
        lemma_in_orbit_trans(c2, x, c1);
        assert forall|e: int| 0 <= e < 8 implies c1 <= #[trigger] transform(c2, e) by {
            assert(in_orbit(transform(c2, e), c2));
            lemma_in_orbit_symm(c1, c2);
            lemma_in_orbit_trans(c1, c2, transform(c2, e));
            let e1 = choose|e1: int| 0 <= e1 < 8 && transform(c1, e1) == transform(c2, e);
            assert(c1 <= transform(c1, e1));
        }
        assert(is_canonical_rep(c1, c2));
        lemma_canonical_rep_unique(c1, c2, c2);
        assert(false);
    }
}

/// The orbit of `m` is represented among the pieces of `s`.
pub open spec fn orbit_covered(s: Seq<Piece>, m: u16) -> bool {
    exists|j: int| 0 <= j < s.len() && in_orbit(m, s[j]@)
}

/// A sequence that holds every self-canonical index represents every orbit:
/// each raw index lies in the orbit of one of the entries.
pub proof fn lemma_reduced_covers(s: Seq<Piece>, n: u16)
    requires
        forall|m: u16| is_canonical_rep(m, m) ==> exists|j: int| 0 <= j < s.len() && s[j]@ == m,
    ensures
        orbit_covered(s, n),
{
    lemma_canonical_rep_exists(n);
    let c = choose|c: u16| is_canonical_rep(c, n);
    lemma_canonical_rep_self(c, n);
    lemma_in_orbit_symm(c, n);
    let j = choose|j: int| 0 <= j < s.len() && s[j]@ == c;
    assert(0 <= j < s.len() && in_orbit(n, s[j]@));
}

/// The canonical representative of the orbit of `n`: the numerically smallest
/// of the eight images of `n` under the symmetry group.
pub fn canonical_index(n: u16) -> (c: u16)
    ensures
        is_canonical_rep(c, n),
{
    let v1 = r1(n);
    let v2 = r2(n);
    let v3 = r3(n);
    let v4 = t(n);
    let v5 = r1t(n);
    let v6 = r2t(n);
    let v7 = r3t(n);
    let mut c = n;
    if v1 < c {
        c = v1;
    }
    if v2 < c {
        c = v2;
    }
    if v3 < c {
        c = v3;
    }
    if v4 < c {
        c = v4;
    }
    if v5 < c {
        c = v5;
    }
    if v6 < c {
        c = v6;
    }
    if v7 < c {
        c = v7;
    }
    proof {
        lemma_rotate_identity(n);
        assert(transform(n, 0) == n);
        assert(transform(n, 1) == rotate_spec(n, 4));
        assert(transform(n, 2) == rotate_spec(n, 8));
        assert(transform(n, 3) == rotate_spec(n, 12));
        assert(transform(n, 4) == reflect_spec(n));
        assert(transform(n, 5) == reflect_spec(rotate_spec(n, 4)));
        assert(transform(n, 6) == reflect_spec(rotate_spec(n, 8)));
        assert(transform(n, 7) == reflect_spec(rotate_spec(n, 12)));
        assert(in_orbit(c, n));
        assert forall|e: int| 0 <= e < 8 implies c <= #[trigger] transform(n, e) by {
            if e == 0 {
            } else if e == 1 {
            } else if e == 2 {
            } else if e == 3 {
            } else if e == 4 {
            } else if e == 5 {
            } else if e == 6 {
            } else {
            }
        }
    }
    c
}

/// The symmetry-reduced enumeration: one `Piece` per orbit, namely the orbit's
/// canonical representative, in ascending index order. The result holds every
/// index that is canonical for its own orbit, each exactly once, and nothing
/// else; the orbits of the entries cover the whole raw space and are pairwise
/// disjoint.
pub fn reduced() -> (r: Vec<Piece>)
    ensures
        forall|j: int| 0 <= j < r@.len() ==> is_canonical_rep(#[trigger] (r@[j]@), r@[j]@),
        forall|j1: int, j2: int| 0 <= j1 < j2 < r@.len() ==> r@[j1]@ < r@[j2]@,
        forall|m: u16| is_canonical_rep(m, m) ==> exists|j: int| 0 <= j < r@.len() && r@[j]@ == m,
        forall|m: u16| #[trigger] orbit_covered(r@, m),
        forall|j1: int, j2: int, x: u16|
            #![trigger in_orbit(x, r@[j1]@), in_orbit(x, r@[j2]@)]
            0 <= j1 < j2 < r@.len() ==> !(in_orbit(x, r@[j1]@) && in_orbit(x, r@[j2]@)),
{
    let mut v: Vec<Piece> = Vec::new();
    let mut n: u32 = 0;
    while n < 65536
        invariant
            n <= 65536,
            forall|j: int| 0 <= j < v@.len() ==> is_canonical_rep(#[trigger] (v@[j]@), v@[j]@),
            forall|j: int| 0 <= j < v@.len() ==> #[trigger] (v@[j]@) < n,
            forall|j1: int, j2: int| 0 <= j1 < j2 < v@.len() ==> v@[j1]@ < v@[j2]@,
            forall|m: u16|
                m < n && #[trigger] is_canonical_rep(m, m) ==> exists|j: int|
                    0 <= j < v@.len() && v@[j]@ == m,
        decreases 65536 - n,
    {
        let idx = n as u16;
        proof {
            assert(idx == n) by (bit_vector)
                requires
                    n < 65536u32,
                    idx == n as u16,
            ;
        }
        let c = canonical_index(idx);
        if c == idx {
            let ghost old_v = v@;
            v.push(Piece::from_index(idx));
            proof {
                assert forall|m: u16|
                    m < n + 1 && #[trigger] is_canonical_rep(m, m) implies exists|j: int|
                    0 <= j < v@.len() && v@[j]@ == m by {
                    if m < n {
                        let j = choose|j: int| 0 <= j < old_v.len() && old_v[j]@ == m;
                        assert(0 <= j < v@.len() && v@[j]@ == m);
                    } else {
                        assert(v@[old_v.len() as int]@ == m);
                    }
                }
            }
        } else {
            proof {
                let e = choose|e: int| 0 <= e < 8 && transform(idx, e) == c;
                lemma_transform_identity(idx);
                assert(c <= transform(idx, 0));
                if is_canonical_rep(idx, idx) {
                    assert(idx <= transform(idx, e));
                    assert(false);
                }
            }
        }
        n = n + 1;
    }
    proof {
        assert forall|m: u16| #[trigger] orbit_covered(v@, m) by {
            lemma_reduced_covers(v@, m);
        }
        assert forall|j1: int, j2: int, x: u16|
            0 <= j1 < j2 < v@.len() implies !(in_orbit(x, v@[j1]@) && in_orbit(
            x,
            v@[j2]@,
        )) by {
            lemma_reps_distinct_orbits(v@[j1]@, v@[j2]@, x);
        }
    }
    v
}

/// Returns all `Piece`s, regardless whether they be used in a puzzle.
pub fn all() -> (it: AllPieces)
    ensures
        it.remaining() == Seq::new(65536, |j: int| j as u16),
{
    AllPieces::new()
}

/// Iterator structure for all pieces: a cursor over the raw space that yields
/// each of the 65536 encodings exactly once, in ascending index order.
pub struct AllPieces {
    next_index: Option<u16>,
}

impl AllPieces {
    /// The indices this cursor has yet to yield, in the order it will yield
    /// them.
    pub closed spec fn remaining(self) -> Seq<u16> {
        match self.next_index {
            Some(i) => Seq::new((65536 - i) as nat, |j: int| (i + j) as u16),
            None => Seq::empty(),
        }
    }

    fn new() -> (it: AllPieces)
        ensures
            it.remaining() == Seq::new(65536, |j: int| j as u16),
    {
        let it = AllPieces { next_index: Some(0) };
        proof {
            assert(it.remaining() =~= Seq::new(65536, |j: int| j as u16));
        }
        it
    }

    /// Yield the next piece: the head of `remaining`, or `None` once the
    /// whole raw space has been yielded.
    pub fn next(&mut self) -> (p: Option<Piece>)
        ensures
            old(self).remaining().len() == 0 ==> p is None && final(self).remaining() == old(
                self,
            ).remaining(),
            old(self).remaining().len() > 0 ==> (p matches Some(q) && q@ == old(
                self,
            ).remaining()[0] && final(self).remaining() == old(self).remaining().skip(1)),
    {
        match self.next_index {
            Some(index) => {
                self.next_index = if index != 65535 {
                    Some(index + 1)
                } else {
                    None
                };
                proof {
                    assert(self.remaining() =~= old(self).remaining().skip(1));
                }
                Some(Piece::from_index(index))
            },
            None => None,
        }
    }
}

} // verus!
