use beam_kit::bits::Bits;

#[test]
fn bits_test_new() {
    let bits = Bits::new();
    assert_eq!(bits.bits, 0);
}

#[test]
fn bits_test_set_get() {
    let mut bits = Bits::new();
    assert!(!bits.get(0));
    assert!(!bits.get(1));
    bits.set(1, true);
    assert!(!bits.get(0));
    assert!(bits.get(1));
    bits.set(1, false);
    assert!(!bits.get(0));
    assert!(!bits.get(1));
}

#[test]
fn bits_test_multiple_bits() {
    let mut bits = Bits::new();
    bits.set(0, true);
    bits.set(2, true);
    bits.set(4, true);
    assert!(bits.get(0));
    assert!(!bits.get(1));
    assert!(bits.get(2));
    assert!(!bits.get(3));
    assert!(bits.get(4));
}

#[test]
fn bits_test_bit_ops() {
    let mut a = Bits::new();
    let mut b = Bits::new();
    a.set(1, true);
    a.set(3, true);
    b.set(3, true);
    b.set(5, true);

    // AND
    let c = a & b;
    assert!(!c.get(1));
    assert!(c.get(3));
    assert!(!c.get(5));

    // OR
    let d = a | b;
    assert!(d.get(1));
    assert!(d.get(3));
    assert!(d.get(5));

    // NOT
    let e = !a;
    assert!(e.get(0));
    assert!(!e.get(1));
    assert!(e.get(2));
    assert!(!e.get(3));
}

#[test]
fn bits_test_count_ones() {
    let mut bits = Bits::new();
    assert_eq!(bits.count_ones(), 0);
    bits.set(1, true);
    bits.set(3, true);
    bits.set(5, true);
    assert_eq!(bits.count_ones(), 3);
}

#[test]
fn bits_test_default() {
    let bits: Bits = Default::default();
    assert_eq!(bits.bits, 0);
}
