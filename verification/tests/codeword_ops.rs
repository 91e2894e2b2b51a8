use hamming_dict::Codeword;

fn word(bytes: &[u8]) -> Codeword {
    Codeword::from_bytes(bytes.to_vec())
}

#[test]
fn zeros_has_requested_width_and_zero_bytes() {
    let w = Codeword::zeros(5);
    assert_eq!(w.width(), 5);
    for i in 0..5 {
        assert_eq!(w.byte(i), 0);
    }
}

#[test]
fn flip_bit_sets_exactly_one_bit() {
    let mut w = word(&[0b0000_0000]);
    w.flip_bit(0, 3);
    assert_eq!(w.byte(0), 0b0000_1000);
    w.flip_bit(0, 3);
    assert_eq!(w.byte(0), 0);
}

#[test]
fn distance_counts_differing_bits() {
    let a = word(&[0xFF]);
    let b = word(&[0x00]);
    assert_eq!(a.distance(&b), 8);
    let c = word(&[0xF0, 0x0F]);
    let d = word(&[0x00, 0x00]);
    assert_eq!(c.distance(&d), 8);
    let e = word(&[0b1010_1010, 0b0101_0101]);
    assert_eq!(e.distance(&e), 0);
    let f = word(&[0b1010_1010, 0b0101_0100]);
    assert_eq!(e.distance(&f), 1);
}

#[test]
fn distance_is_symmetric() {
    let a = word(&[0x3C, 0x81, 0x00]);
    let b = word(&[0xC3, 0x18, 0xFF]);
    assert_eq!(a.distance(&b), b.distance(&a));
}

#[test]
fn duplicate_is_independent() {
    let a = word(&[1, 2, 3]);
    let mut b = a.duplicate();
    assert!(a.same_bytes(&b));
    b.set_byte(0, 9);
    assert_eq!(a.byte(0), 1);
    assert_eq!(b.byte(0), 9);
    assert!(!a.same_bytes(&b));
}
