use hcube::enumeration::piece::{all, canonical_index, reduced};
use hcube::piece::{r0, r1, r1t, r2, r2t, r3, r3t, t, Piece};

#[test]
fn it_works() {
    assert!(true)
}

#[test]
fn raw_enumeration_yields_every_index_once_ascending() {
    let mut it = all();
    let mut expected: u32 = 0;
    while let Some(p) = it.next() {
        assert!(expected <= 65535);
        assert_eq!(p, Piece::from_index(expected as u16));
        expected += 1;
    }
    assert_eq!(expected, 65536);
    assert!(it.next().is_none());
}

#[test]
fn reduced_count_matches_burnside_count() {
    // Burnside's lemma gives the orbit count of the eight-element group
    // independently of the enumeration: the identity fixes all 2^16 words,
    // the quarter turns fix 2^4 words each, the half turn fixes 2^8, and each
    // of the four reflections has two fixed ring positions and seven swapped
    // pairs, so it fixes 2^9 words.
    let expected = (65536 + 16 + 256 + 16 + 4 * 512) / 8;
    assert_eq!(reduced().len(), expected);
    assert_eq!(reduced().len(), 8484);
}

#[test]
fn reduced_entries_are_canonical_and_strictly_ascending() {
    let reps = reduced();
    let mut prev: i32 = -1;
    for p in &reps {
        let i = p.index();
        assert!((i as i32) > prev);
        assert_eq!(canonical_index(i), i);
        prev = i as i32;
    }
    assert_eq!(reps[0], Piece::from_index(0));
    assert_eq!(reps[reps.len() - 1], Piece::from_index(0xFFFF));
}

#[test]
fn canonical_representative_examples() {
    assert_eq!(canonical_index(0), 0);
    assert_eq!(canonical_index(0xFFFF), 0xFFFF);
    // The orbit of the piece with only bit 1 set: rotations give bits 5, 9
    // and 13, reflections give bits 15, 11, 7 and 3; bit 1 is the smallest.
    assert_eq!(canonical_index(0b10), 0b10);
    assert_eq!(canonical_index(0b10_0000), 0b10);
    assert_eq!(canonical_index(0b1000_0000_0000_0000), 0b10);
}

#[test]
fn orbit_members_share_one_canonical_representative() {
    for &n in &[0u16, 1, 0b10, 0b11, 12345, 0x0F0F, 0xFFFF] {
        let c = canonical_index(n);
        let images = [r0(n), r1(n), r2(n), r3(n), t(n), r1t(n), r2t(n), r3t(n)];
        assert!(images.contains(&c));
        for &m in &images {
            assert!(m >= c);
            assert_eq!(canonical_index(m), c);
        }
    }
}

#[test]
fn orbits_cover_the_raw_space() {
    let mut is_rep = vec![false; 65536];
    for p in reduced() {
        is_rep[p.index() as usize] = true;
    }
    for n in 0..=65535u16 {
        let c = canonical_index(n);
        // every raw index belongs to an orbit whose representative is emitted
        assert!(is_rep[c as usize]);
    }
}
