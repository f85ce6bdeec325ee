use gcm_bcrypt::cryptoutil::{copy_memory, read_u32_be, write_u32_be};

#[test]
fn big_endian_words() {
    assert_eq!(read_u32_be(&[0x12, 0x34, 0x56, 0x78]), 0x1234_5678);
    let mut buf = [0u8; 8];
    write_u32_be(&mut buf, 2, 0xdead_beef);
    assert_eq!(buf, [0, 0, 0xde, 0xad, 0xbe, 0xef, 0, 0]);
    assert_eq!(read_u32_be(&buf[2..6]), 0xdead_beef);
}

#[test]
fn copy_memory_writes_at_offset() {
    let mut dst = [9u8; 6];
    copy_memory(&[1, 2, 3], &mut dst, 2);
    assert_eq!(dst, [9, 9, 1, 2, 3, 9]);
    copy_memory(&[], &mut dst, 6);
    assert_eq!(dst, [9, 9, 1, 2, 3, 9]);
}
