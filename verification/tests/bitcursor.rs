use alac::bitcursor::BitCursor;

#[test]
fn skip_to_byte() {
    let data = &[0xde, 0xad];
    let mut reader = BitCursor::new(data).unwrap();
    reader.read_u8(5).unwrap();
    reader.skip_to_byte().unwrap();
    assert_eq!(reader.read_u8(8).unwrap(), 0xad);
}

#[test]
fn skip_to_byte_on_boundary_is_a_no_op() {
    let data = &[0xde, 0xad];
    let mut reader = BitCursor::new(data).unwrap();
    reader.read_u8(8).unwrap();
    reader.skip_to_byte().unwrap();
    assert_eq!(reader.read_u8(8).unwrap(), 0xad);
}

#[test]
fn read_equals_peek_then_skip() {
    let data = &[0b1011_0010, 0xc4, 0x7f];
    let mut a = BitCursor::new(data).unwrap();
    let mut b = BitCursor::new(data).unwrap();
    a.skip(3).unwrap();
    b.skip(3).unwrap();

    let peeked = b.peek_u32(13).unwrap();
    b.skip(13).unwrap();
    let read = a.read_u32(13).unwrap();
    assert_eq!(read, peeked);

    // Both cursors are now at the same position.
    assert_eq!(a.read_u8(8).unwrap(), b.read_u8(8).unwrap());
}

#[test]
fn peek_does_not_advance() {
    let data = &[0xa5, 0x3c];
    let mut reader = BitCursor::new(data).unwrap();
    assert_eq!(reader.peek_u16(9).unwrap(), reader.peek_u16(9).unwrap());
    let p = reader.peek_u32(12).unwrap();
    let r = reader.read_u32(12).unwrap();
    assert_eq!(p, r);
}

#[test]
fn clones_advance_independently() {
    let data = &[0x12, 0x34, 0x56];
    let mut a = BitCursor::new(data).unwrap();
    a.skip(4).unwrap();
    let mut b = a.clone();
    assert_eq!(b.read_u8(8).unwrap(), 0x23);
    assert_eq!(b.read_u8(8).unwrap(), 0x45);
    // The original cursor did not move while its clone advanced.
    assert_eq!(a.read_u8(8).unwrap(), 0x23);
}

#[test]
fn reads_fail_cleanly_at_the_end() {
    let data = &[0xff];
    let mut reader = BitCursor::new(data).unwrap();
    assert!(reader.read_u16(9).is_err());
    // The failed read did not consume anything.
    assert_eq!(reader.read_u8(8).unwrap(), 0xff);
    assert!(reader.read_bit().is_err());
}

#[test]
fn reads_are_big_endian_msb_first() {
    let data = &[0b1100_0001, 0b0111_1111];
    let mut reader = BitCursor::new(data).unwrap();
    assert_eq!(reader.read_bit().unwrap(), true);
    assert_eq!(reader.read_bit().unwrap(), true);
    assert_eq!(reader.read_u16(9).unwrap(), 0b000001011);
    assert_eq!(reader.read_u8(5).unwrap(), 0b11111);
}
