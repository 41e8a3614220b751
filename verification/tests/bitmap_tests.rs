use codesearch::BitMap;

#[test]
fn new_rounds_up_to_bytes() {
    assert_eq!(BitMap::new(0).as_bytes().len(), 0);
    assert_eq!(BitMap::new(1).as_bytes().len(), 1);
    assert_eq!(BitMap::new(8).as_bytes().len(), 1);
    assert_eq!(BitMap::new(9).as_bytes().len(), 2);
    assert_eq!(BitMap::new(16).as_bytes().len(), 2);
}

#[test]
fn get_after_set_returns_the_value() {
    let mut b = BitMap::new(16);
    b.set(3, true);
    assert!(b.get(3));
    assert!(!b.get(2));
    assert!(!b.get(4));
    b.set(3, false);
    assert!(!b.get(3));
    b.set(15, true);
    assert!(b.get(15));
    assert_eq!(b.as_bytes(), &[0x00, 0x80]);
}

#[test]
fn bits_are_lsb_first_within_a_byte() {
    let mut b = BitMap::new(8);
    b.set(0, true);
    assert_eq!(b.as_bytes(), &[0x01]);
    b.set(7, true);
    assert_eq!(b.as_bytes(), &[0x81]);
}

#[test]
fn and_with_itself_is_identity() {
    let a = BitMap::from_bytes(vec![0xa5, 0x3c]);
    assert_eq!(a.and(&a).as_bytes(), &[0xa5, 0x3c]);
}

#[test]
fn or_with_itself_is_identity() {
    let a = BitMap::from_bytes(vec![0xa5, 0x3c]);
    assert_eq!(a.or(&a).as_bytes(), &[0xa5, 0x3c]);
}

#[test]
fn xor_with_itself_is_zero() {
    let a = BitMap::from_bytes(vec![0xa5, 0x3c]);
    assert_eq!(a.xor(&a).as_bytes(), &[0x00, 0x00]);
}

#[test]
fn and_or_xor_are_commutative() {
    let a = BitMap::from_bytes(vec![0xa5, 0x3c]);
    let b = BitMap::from_bytes(vec![0x0f]);
    assert_eq!(a.and(&b).as_bytes(), b.and(&a).as_bytes());
    assert_eq!(a.or(&b).as_bytes(), b.or(&a).as_bytes());
    assert_eq!(a.xor(&b).as_bytes(), b.xor(&a).as_bytes());
}

#[test]
fn shorter_operand_is_zero_extended() {
    let a = BitMap::from_bytes(vec![0xff, 0xff]);
    let b = BitMap::from_bytes(vec![0x0f]);
    assert_eq!(a.and(&b).as_bytes(), &[0x0f, 0x00]);
    assert_eq!(a.or(&b).as_bytes(), &[0xff, 0xff]);
    assert_eq!(a.xor(&b).as_bytes(), &[0xf0, 0xff]);
}

#[test]
fn in_place_ops_grow_the_receiver() {
    let mut a = BitMap::from_bytes(vec![0x01]);
    a.or_assign(&BitMap::from_bytes(vec![0x02, 0x40]));
    assert_eq!(a.as_bytes(), &[0x03, 0x40]);
    let mut b = BitMap::from_bytes(vec![0x0f]);
    b.and_assign(&BitMap::from_bytes(vec![0x03, 0xff]));
    assert_eq!(b.as_bytes(), &[0x03, 0x00]);
    let mut c = BitMap::from_bytes(vec![0x0f]);
    c.xor_assign(&BitMap::from_bytes(vec![0x03, 0x88]));
    assert_eq!(c.as_bytes(), &[0x0c, 0x88]);
}

#[test]
fn shl_moves_bits_to_higher_indices() {
    let mut a = BitMap::new(16);
    a.set(0, true);
    a.set(7, true);
    let b = a.shl(1);
    assert!(b.get(1));
    assert!(b.get(8));
    assert!(!b.get(0));
    assert!(!b.get(7));
}

#[test]
fn shl_round_trip_on_aligned_positions() {
    let mut a = BitMap::new(16);
    a.set(3, true);
    let b = a.shl(9);
    assert!(b.get(12));
    // a bit shifted past the last position disappears
    let c = a.shl(13);
    for i in 0..16 {
        assert!(!c.get(i));
    }
}

#[test]
fn shr_is_the_mirror_shift() {
    let mut a = BitMap::new(16);
    a.set(12, true);
    let b = a.shr(9);
    assert!(b.get(3));
    let c = a.shr(13);
    for i in 0..16 {
        assert!(!c.get(i));
    }
}

#[test]
fn shifts_preserve_byte_length() {
    let a = BitMap::from_bytes(vec![0xff, 0xff, 0xff]);
    assert_eq!(a.shl(11).as_bytes().len(), 3);
    assert_eq!(a.shr(11).as_bytes().len(), 3);
    let mut b = BitMap::from_bytes(vec![0x01]);
    b.shl_assign(4);
    assert_eq!(b.as_bytes(), &[0x10]);
    b.shr_assign(4);
    assert_eq!(b.as_bytes(), &[0x01]);
}

#[test]
fn iteration_yields_one_boolean_per_bit() {
    let b = BitMap::from_bytes(vec![0x05]);
    let mut it = b.into_iter();
    let mut got = Vec::new();
    while let Some(v) = it.next() {
        got.push(v);
    }
    assert_eq!(got, vec![true, false, true, false, false, false, false, false]);
}

#[test]
fn binary_string_prints_msb_first_per_byte() {
    let b = BitMap::from_bytes(vec![0x01, 0x80]);
    assert_eq!(b.binary_string(), "0000000110000000");
    assert_eq!(BitMap::from_bytes(vec![]).binary_string(), "");
    assert_eq!(BitMap::from_bytes(vec![0xa5]).binary_string(), "10100101");
}
