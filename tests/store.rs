use matrix_multiply::{i32_from_le, i32_to_le, GrowError, Store};

#[test]
fn grow_returns_previous_size_and_respects_ceiling() {
    let mut s = Store::new(3);
    assert_eq!(s.size(), 0);
    assert_eq!(s.grow(2), Ok(0));
    assert_eq!(s.size(), 2);
    assert_eq!(s.grow(2), Err(GrowError));
    assert_eq!(s.size(), 2);
    assert_eq!(s.grow(1), Ok(2));
    assert_eq!(s.size(), 3);
    assert_eq!(s.read(3 * 65536 - 4, 4), vec![0, 0, 0, 0]);
}

#[test]
fn write_then_read_bytes() {
    let mut s = Store::new(1);
    s.grow(1).unwrap();
    s.write(10, &[1, 2, 3]);
    assert_eq!(s.read(9, 5), vec![0, 1, 2, 3, 0]);
}

#[test]
fn words_are_little_endian() {
    let mut s = Store::new(1);
    s.grow(1).unwrap();
    s.write_i32(4, -2);
    s.write_i32(8, 0x0102_0304);
    assert_eq!(s.read(4, 8), vec![0xfe, 0xff, 0xff, 0xff, 4, 3, 2, 1]);
    assert_eq!(s.read_i32x4(0), [0, -2, 0x0102_0304, 0]);
}

#[test]
fn word_conversions() {
    assert_eq!(i32_to_le(0x0102_0304), vec![4, 3, 2, 1]);
    assert_eq!(i32_to_le(-1), vec![0xff; 4]);
    assert_eq!(i32_from_le(&[4, 3, 2, 1]), 0x0102_0304);
    assert_eq!(i32_from_le(&[0, 0, 0, 0x80]), i32::MIN);
}
