use toy_sqlite::varint::read_varint;

#[test]
fn serialisation_test_read_varint() {
    let buf = vec![0b0000_0001u8, 0b0000_0001];
    assert_eq!(read_varint(&buf, 0).unwrap(), (1, 1));
    assert_eq!(read_varint(&buf, 1).unwrap(), (1, 1));
}

#[test]
fn serialisation_test_read_varint_reading_zero() {
    let buf = vec![0b0000u8];
    assert_eq!(read_varint(&buf, 0).unwrap(), (0, 1));
}

#[test]
fn serialisation_test_read_varint_reading_continuation_bits() {
    let buf = vec![0b10000111u8, 0b01101000];
    assert_eq!(read_varint(&buf, 0).unwrap(), (1000, 2));
}

#[test]
fn utils_test_read_varint() {
    let buf = vec![0b0000_0001u8, 0b0000_0001];
    assert_eq!(read_varint(&buf, 0).unwrap(), (1, 1));
    assert_eq!(read_varint(&buf, 1).unwrap(), (1, 1));
}

#[test]
fn utils_test_read_varint_reading_zero() {
    let buf = vec![0b0000u8];
    assert_eq!(read_varint(&buf, 0).unwrap(), (0, 1));
}

#[test]
fn utils_test_read_varint_reading_continuation_bits() {
    let buf = vec![0b10000111u8, 0b01101000];
    assert_eq!(read_varint(&buf, 0).unwrap(), (1000, 2));
}

#[test]
fn read_varint_nine_byte_cap() {
    // eight continuation bytes followed by a ninth that contributes all
    // eight of its bits
    let buf = vec![0x81u8, 0x80, 0x80, 0x80, 0x80, 0x80, 0x80, 0x80, 0xff];
    let (v, n) = read_varint(&buf, 0).unwrap();
    assert_eq!(n, 9);
    assert_eq!(v, (1u64 << 57) | 0xff);
}

#[test]
fn read_varint_truncated_fails() {
    let buf = vec![0x87u8];
    assert!(read_varint(&buf, 0).is_err());
    assert!(read_varint(&buf, 5).is_err());
}
