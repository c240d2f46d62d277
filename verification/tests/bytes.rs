use fatfs::bytes::{
    append_range, copy_range, get_le16, get_le32, holds_at, put_bytes, put_le16, put_le32, zero_bytes,
};

#[test]
fn numbers_are_stored_low_byte_first() {
    let mut buf = vec![0xEEu8; 8];
    put_le16(&mut buf, 1, 0x1234);
    assert_eq!(buf, vec![0xEE, 0x34, 0x12, 0xEE, 0xEE, 0xEE, 0xEE, 0xEE]);
    put_le32(&mut buf, 4, 0x89AB_CDEF);
    assert_eq!(buf, vec![0xEE, 0x34, 0x12, 0xEE, 0xEF, 0xCD, 0xAB, 0x89]);
    assert_eq!(get_le16(&buf, 1), 0x1234);
    assert_eq!(get_le16(&buf, 6), 0x89AB);
    assert_eq!(get_le32(&buf, 4), 0x89AB_CDEF);
    assert_eq!(get_le32(&buf, 0), 0xEE12_34EE);
    put_le32(&mut buf, 0, 0);
    put_le16(&mut buf, 6, 0xFFFF);
    assert_eq!(buf, vec![0, 0, 0, 0, 0xEF, 0xCD, 0xFF, 0xFF]);
}

#[test]
fn ranges_of_bytes_are_copied_and_compared() {
    let mut buf = zero_bytes(6);
    assert_eq!(buf, vec![0u8; 6]);
    assert_eq!(zero_bytes(0), Vec::<u8>::new());
    put_bytes(&mut buf, 2, &vec![7, 8, 9]);
    assert_eq!(buf, vec![0, 0, 7, 8, 9, 0]);
    put_bytes(&mut buf, 6, &vec![]);
    assert_eq!(buf, vec![0, 0, 7, 8, 9, 0]);
    assert_eq!(copy_range(&buf, 1, 3), vec![0, 7, 8]);
    assert_eq!(copy_range(&buf, 6, 0), Vec::<u8>::new());
    let mut out = vec![1u8];
    append_range(&mut out, &buf, 3, 3);
    assert_eq!(out, vec![1, 8, 9, 0]);
    assert!(holds_at(&buf, 2, &vec![7, 8]));
    assert!(!holds_at(&buf, 2, &vec![7, 9]));
    assert!(holds_at(&buf, 6, &vec![]));
}
