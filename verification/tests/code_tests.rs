//! Tests of the 13-bit pattern canonicalization.

use topcodes::code::{checksum, rotate_lowest};
use topcodes::topcode::TopCode;

/// One left rotation of a 13-bit word.
fn rot(b: u16) -> u16 {
    (b % 4096) * 2 + b / 4096
}

#[test]
fn known_codes_are_canonical() {
    for code in [55u16, 31, 93] {
        assert!(checksum(code));
        assert_eq!(rotate_lowest(code), (code, 0));
    }
}

#[test]
fn every_rotation_canonicalizes_to_the_same_code() {
    let mut b = 55u16;
    for k in 1..13u16 {
        b = rot(b);
        let (canonical, rotation) = rotate_lowest(b);
        assert_eq!(canonical, 55);
        assert_eq!((rotation + k) % 13, 0);
    }
}

#[test]
fn checksum_requires_exactly_five_bits() {
    assert!(checksum(0b0000000110111));
    assert!(!checksum(0b0000000000111));
    assert!(!checksum(0b1111110000000));
    assert!(!checksum(0));
    assert!(!checksum(8191));
}

#[test]
fn the_code_dictionary_has_99_entries() {
    let mut count = 0;
    for b in 0u16..8192 {
        if checksum(b) && rotate_lowest(b).0 == b {
            count += 1;
        }
    }
    assert_eq!(count, 99);
}

#[test]
fn bullseye_membership_is_a_distance_test() {
    let mut tc = TopCode::new();
    tc.code = Some(55);
    tc.unit_q = 1600; // unit = 10 pixels, bullseye radius 30 pixels
    tc.x_q = 600; // center (100, 100)
    tc.y_q = 600;
    assert!(tc.in_bullseye(100, 100));
    assert!(tc.in_bullseye(100, 129));
    assert!(tc.in_bullseye(100, 130)); // exactly on the rim
    assert!(!tc.in_bullseye(100, 131));
    assert!(!tc.in_bullseye(131, 131));
}
