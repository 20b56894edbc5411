use hcube::piece::{get_bit, r0, r1, r1t, r2, r2t, r3, r3t, reflect, rotate, set_bit, t, Piece};

#[test]
fn pieces_should_rotate_clockwise() {
    let start = Piece::from_index(0b10);
    let mut transformed = start;

    transformed = transformed.rotate_clockwise();
    assert_eq!(transformed, Piece::from_index(0b10_0000));

    transformed = transformed.rotate_clockwise();
    assert_eq!(transformed, Piece::from_index(0b10_0000_0000));

    transformed = transformed.rotate_clockwise();
    assert_eq!(transformed, Piece::from_index(0b10_0000_0000_0000));

    transformed = transformed.rotate_clockwise();
    assert_eq!(transformed, Piece::from_index(0b10));
}

#[test]
fn pieces_should_rotate_counter_clockwise() {
    let start = Piece::from_index(0b10);
    let mut transformed = start;

    transformed = transformed.rotate_counter_clockwise();
    assert_eq!(transformed, Piece::from_index(0b10_0000_0000_0000));

    transformed = transformed.rotate_counter_clockwise();
    assert_eq!(transformed, Piece::from_index(0b10_0000_0000));

    transformed = transformed.rotate_counter_clockwise();
    assert_eq!(transformed, Piece::from_index(0b10_0000));

    transformed = transformed.rotate_counter_clockwise();
    assert_eq!(transformed, Piece::from_index(0b10));
}

#[test]
fn pieces_should_flip_clockwise() {
    let start = Piece::from_index(0b10);
    let mut transformed = start;

    transformed = transformed.flip();
    assert_eq!(transformed, Piece::from_index(0b1000_0000_0000_0000));

    transformed = transformed.flip();
    assert_eq!(transformed, Piece::from_index(0b10));
}

#[test]
fn rotating_one_position_moves_bit_one_to_bit_five() {
    // The concrete reference example for the rotate-by-4 and reflection maps.
    let p = Piece::from_index(0b10);
    assert_eq!(p.rotate_clockwise(), Piece::from_index(0b10_0000));
    assert_eq!(p.flip(), Piece::from_index(0b1000_0000_0000_0000));
}

#[test]
fn rotate_by_zero_is_the_identity_exhaustive() {
    for n in 0..=65535u16 {
        assert_eq!(r0(n), n);
        assert_eq!(rotate(n, 0), n);
    }
}

#[test]
fn reflect_twice_is_the_identity_exhaustive() {
    for n in 0..=65535u16 {
        assert_eq!(reflect(reflect(n)), n);
        assert_eq!(t(t(n)), n);
    }
}

#[test]
fn four_clockwise_rotations_return_the_original_exhaustive() {
    for n in 0..=65535u16 {
        let p = Piece::from_index(n);
        let q = p
            .rotate_clockwise()
            .rotate_clockwise()
            .rotate_clockwise()
            .rotate_clockwise();
        assert_eq!(q, p);
    }
}

#[test]
fn clockwise_and_counter_clockwise_rotations_cancel_exhaustive() {
    for n in 0..=65535u16 {
        let p = Piece::from_index(n);
        assert_eq!(p.rotate_clockwise().rotate_counter_clockwise(), p);
        assert_eq!(p.rotate_counter_clockwise().rotate_clockwise(), p);
    }
}

#[test]
fn flip_twice_returns_the_original_exhaustive() {
    for n in 0..=65535u16 {
        let p = Piece::from_index(n);
        assert_eq!(p.flip().flip(), p);
    }
}

#[test]
fn reflected_rotations_match_their_definitions() {
    for &n in &[0u16, 0b10, 0b1100_0011, 12345, 0xFFFF] {
        assert_eq!(r1t(n), t(r1(n)));
        assert_eq!(r2t(n), t(r2(n)));
        assert_eq!(r3t(n), t(r3(n)));
        assert_eq!(r2(n), r1(r1(n)));
        assert_eq!(r3(n), r1(r2(n)));
    }
}

#[test]
fn bits_can_be_read_back_after_writing() {
    let mut n: u16 = 0;
    for i in 0..16u16 {
        assert!(!get_bit(n, i));
    }
    n = set_bit(n, 3, true);
    n = set_bit(n, 15, true);
    assert_eq!(n, 0b1000_0000_0000_1000);
    assert!(get_bit(n, 3));
    assert!(get_bit(n, 15));
    n = set_bit(n, 3, false);
    assert_eq!(n, 0b1000_0000_0000_0000);
    assert!(!get_bit(n, 3));
}
