//! The 32-byte word: integer windows, sub-range reads and writes, ordering.

use woss::bytes32::Bytes32;

#[test]
fn test_integer_windows_are_little_endian() {
    let b = Bytes32::from_u64(0x0102_0304_0506_0708);
    assert_eq!(b.to_u8(), 0x08);
    assert_eq!(b.to_u16(), 0x0708);
    assert_eq!(b.to_u32(), 0x0506_0708);
    assert_eq!(b.to_u64(), 0x0102_0304_0506_0708);
    let v = b.to_vec();
    assert_eq!(v.len(), 32);
    assert_eq!(&v[0..8], &[0x08, 0x07, 0x06, 0x05, 0x04, 0x03, 0x02, 0x01]);
    assert!(v[8..].iter().all(|x| *x == 0));
}

#[test]
fn test_from_u8_fills_first_byte() {
    let b = Bytes32::from_u8(0xab);
    assert_eq!(b.to_u8(), 0xab);
    assert_eq!(b.to_u64(), 0xab);
    assert_eq!(Bytes32::zero().to_u64(), 0);
}

#[test]
fn test_read_u64_at_offset() {
    let mut b = Bytes32::zero();
    b.write_value(&0xdead_beef_0102_0304u64.to_le_bytes(), 16);
    assert_eq!(b.read_u64(16), 0xdead_beef_0102_0304);
    assert_eq!(b.read_u64(8), 0);
}

#[test]
fn test_read_and_write_value_sub_ranges() {
    let mut c = Bytes32::zero();
    c.write_value(&[9, 8, 7], 29);
    let mut buf = vec![0u8; 8];
    c.read_value(&mut buf, 2, 28, 4);
    assert_eq!(buf, vec![0, 0, 0, 9, 8, 7, 0, 0]);
}

#[test]
fn test_new_refuses_wrong_lengths() {
    assert!(Bytes32::new(vec![0u8; 31]).is_none());
    assert!(Bytes32::new(vec![0u8; 33]).is_none());
    let b = Bytes32::new((0..32u8).collect()).unwrap();
    assert_eq!(b.to_u8(), 0);
    assert_eq!(b.to_u16(), 0x0100);
}

#[test]
fn test_lexicographic_order() {
    let a = Bytes32::new([&[1u8][..], &[0u8; 31][..]].concat()).unwrap();
    let b = Bytes32::new([&[2u8][..], &[0u8; 31][..]].concat()).unwrap();
    assert!(a.lt(&b));
    assert!(!b.lt(&a));
    assert!(!a.lt(&a));
    assert!(a == a.clone());
    assert!(a != b);
}
