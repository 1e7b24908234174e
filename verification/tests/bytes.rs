use qor_os::bytes::{read_u16, read_u32, read_u64, write_u16, write_u32};

#[test]
fn little_endian_reads() {
    let b = [0x01u8, 0x02, 0x03, 0x04, 0x05, 0x06, 0x07, 0x08, 0x09];
    assert_eq!(read_u16(&b, 1), 0x0302);
    assert_eq!(read_u32(&b, 0), 0x04030201);
    assert_eq!(read_u64(&b, 1), 0x0908070605040302);
}

#[test]
fn writes_read_back_and_keep_the_rest() {
    let mut b = [0xAAu8; 8];
    write_u32(&mut b, 2, 0xDEADBEEF);
    assert_eq!(read_u32(&b, 2), 0xDEADBEEF);
    assert_eq!(b[1], 0xAA);
    assert_eq!(b[6], 0xAA);
    write_u16(&mut b, 0, 0x1234);
    assert_eq!(b[0], 0x34);
    assert_eq!(b[1], 0x12);
}
