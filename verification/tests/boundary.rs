use wfc::boundary::{Boundary, BoundaryError, Direction};

const ALL: [Direction; 8] = Direction::ALL_DIRECTIONS;

#[test]
fn boundaries_match() {
    let n = Boundary::from_str("010|000|000").unwrap();
    let s = Boundary::from_str("000|000|010").unwrap();
    let n_e = Boundary::from_str("010|001|000").unwrap();
    let s_e = Boundary::from_str("000|001|010").unwrap();
    let e_w = Boundary::from_str("000|101|000").unwrap();

    let ne = Boundary::from_str("001|000|000").unwrap();
    let sw = Boundary::from_str("000|000|100").unwrap();

    let nw_e = Boundary::from_str("100|001|000").unwrap();
    let se_e_w = Boundary::from_str("000|101|001").unwrap();

    assert!(n.fits(&s, Direction::North));
    assert!(!n.fits(&n, Direction::South));

    assert!(n_e.fits(&e_w, Direction::East));
    assert!(!n_e.fits(&e_w, Direction::North));

    assert!(e_w.fits(&e_w, Direction::East));
    assert!(e_w.fits(&n_e, Direction::West));

    assert!(n_e.fits(&s_e, Direction::North));
    assert!(!n_e.fits(&s_e, Direction::East));

    assert!(ne.fits(&sw, Direction::NorthEast));
    assert!(!ne.fits(&nw_e, Direction::NorthEast));

    assert!(nw_e.fits(&e_w, Direction::East));
    assert!(e_w.fits(&nw_e, Direction::West));

    assert!(se_e_w.fits(&nw_e, Direction::SouthEast));
}

#[test]
fn build_from_str_north() {
    let source = "010|000|000";

    let boundary = Boundary::from_str(source).unwrap();
    assert!(boundary.connects(Direction::North));
    assert!(!boundary.connects(Direction::South));
    assert!(!boundary.connects(Direction::East));
    assert!(!boundary.connects(Direction::West));
}

#[test]
fn build_from_str_south() {
    let source = "000|000|010";

    let boundary = Boundary::from_str(source).unwrap();
    assert!(!boundary.connects(Direction::North));
    assert!(boundary.connects(Direction::South));
    assert!(!boundary.connects(Direction::East));
    assert!(!boundary.connects(Direction::West));
}

#[test]
fn build_from_str_east() {
    let source = "000|001|000";

    let boundary = Boundary::from_str(source).unwrap();
    assert!(!boundary.connects(Direction::North));
    assert!(!boundary.connects(Direction::South));
    assert!(boundary.connects(Direction::East));
    assert!(!boundary.connects(Direction::West));
}

#[test]
fn build_from_str_west() {
    let source = "000|100|000";

    let boundary = Boundary::from_str(source).unwrap();
    assert!(!boundary.connects(Direction::North));
    assert!(!boundary.connects(Direction::South));
    assert!(!boundary.connects(Direction::East));
    assert!(boundary.connects(Direction::West));
}

#[test]
fn build_from_str_multi() {
    let source = "010|100|010";

    let boundary = Boundary::from_str(source).unwrap();
    assert!(boundary.connects(Direction::North));
    assert!(boundary.connects(Direction::South));
    assert!(!boundary.connects(Direction::East));
    assert!(boundary.connects(Direction::West));
}

#[test]
#[should_panic(expected = "10")]
fn build_from_str_fails_short() {
    let source = "010|00|000";

    let boundary = Boundary::from_str(source).unwrap();
    println!("Built boundary:\n{:?}", boundary);
}

#[test]
#[should_panic(expected = "12")]
fn build_from_str_fails_long() {
    let source = "0100|000|000";

    let boundary = Boundary::from_str(source).unwrap();
    println!("Built boundary:\n{:?}", boundary);
}

#[test]
fn build_succeeds_different_boundary() {
    let source = "010?001%010";

    let boundary = Boundary::from_str(source).unwrap();
    assert!(boundary.connects(Direction::North));
    assert!(boundary.connects(Direction::East));
    assert!(boundary.connects(Direction::South));
}

#[test]
fn build_succeeds_different_center() {
    let source = "010|0*1|010";

    let boundary = Boundary::from_str(source).unwrap();
    assert!(boundary.connects(Direction::North));
    assert!(boundary.connects(Direction::East));
    assert!(boundary.connects(Direction::South));
}

#[test]
fn wrong_length_is_reported_with_the_length() {
    assert_eq!(Boundary::from_str("010|00|000").err(), Some(BoundaryError::WrongLength(10)));
    assert_eq!(Boundary::from_str("0100|000|000").err(), Some(BoundaryError::WrongLength(12)));
    assert_eq!(Boundary::from_str("").err(), Some(BoundaryError::WrongLength(0)));
}

#[test]
fn length_is_counted_in_bytes() {
    // Ten characters, eleven bytes: the length is right, the byte at the
    // west position is not a flag.
    let r = Boundary::from_str("010\u{e9}00|010");
    assert!(matches!(r, Err(BoundaryError::InvalidCharacter(_))));
    // Eleven characters, twelve bytes.
    assert_eq!(Boundary::from_str("010|000|01\u{e9}").err(), Some(BoundaryError::WrongLength(12)));
}

#[test]
fn invalid_character_is_reported() {
    assert_eq!(Boundary::from_str("010|00b|000").err(), Some(BoundaryError::InvalidCharacter('b')));
    assert_eq!(Boundary::from_str("2101001|010").err(), Some(BoundaryError::InvalidCharacter('2')));
}

#[test]
fn first_invalid_character_wins() {
    assert_eq!(Boundary::from_str("01x|0y0|z00").err(), Some(BoundaryError::InvalidCharacter('x')));
    assert_eq!(Boundary::from_str("010|0y0|z00").err(), Some(BoundaryError::InvalidCharacter('z')));
    assert_eq!(Boundary::from_str("010|y00|z00").err(), Some(BoundaryError::InvalidCharacter('y')));
}

#[test]
fn ignored_positions_take_anything() {
    let b = Boundary::from_str("000x0y0z000").unwrap();
    for d in ALL {
        assert!(!b.connects(d));
    }
    let b = Boundary::from_str("1111111111 ").err();
    assert_eq!(b, Some(BoundaryError::InvalidCharacter(' ')));
}

#[test]
fn literal_round_trip() {
    // Each direction with the place of its flag in the literal.
    let places = [
        (Direction::NorthWest, 0usize),
        (Direction::North, 1),
        (Direction::NorthEast, 2),
        (Direction::West, 4),
        (Direction::East, 6),
        (Direction::SouthWest, 8),
        (Direction::South, 9),
        (Direction::SouthEast, 10),
    ];
    for bits in 0u32..256 {
        let mut literal = vec![b'0'; 11];
        literal[3] = b'|';
        literal[7] = b'|';
        for (k, (_, place)) in places.iter().enumerate() {
            if bits & (1 << k) != 0 {
                literal[*place] = b'1';
            }
        }
        let text = String::from_utf8(literal.clone()).unwrap();
        let b = Boundary::from_str(&text).unwrap();
        for (d, place) in places.iter() {
            assert_eq!(b.connects(*d), literal[*place] == b'1');
        }
    }
}

#[test]
fn direction_indices_run_clockwise_from_north_west() {
    for (i, d) in ALL.iter().enumerate() {
        assert_eq!(d.to_index(), i);
        assert_eq!(d.to_opposite_index(), (i + 4) % 8);
        assert_eq!(Direction::from_index(i), *d);
    }
}

#[test]
fn fits_is_symmetric() {
    let literals = ["010|000|000", "000|101|000", "100|001|000", "000|101|001", "111|101|111", "000|000|000"];
    for a in literals {
        for b in literals {
            let x = Boundary::from_str(a).unwrap();
            let y = Boundary::from_str(b).unwrap();
            for d in ALL {
                let back = Direction::from_index(d.to_opposite_index());
                assert_eq!(x.fits(&y, d), y.fits(&x, back));
                assert_eq!(x.fits(&y, d), x.connects(d) == y.connects(back));
            }
        }
    }
}

#[test]
fn default_boundary_connects_nowhere() {
    let b = Boundary::default();
    for d in ALL {
        assert!(!b.connects(d));
    }
}
