use unpac::bytes::append_bytes;
use unpac::bytes::append_zeros;
use unpac::bytes::read_u32_le;

#[test]
fn read_u32_le_reads_the_least_significant_byte_first() {
    let input = [0xFF, 0x78, 0x56, 0x34, 0x12, 0x00, 0x00, 0x00, 0x80];
    assert_eq!(read_u32_le(&input, 1), 0x12345678);
    assert_eq!(read_u32_le(&input, 0), 0x345678FF);
    assert_eq!(read_u32_le(&input, 5), 0x80000000);
    assert_eq!(read_u32_le(&[0xFF, 0xFF, 0xFF, 0xFF], 0), u32::MAX);
    assert_eq!(read_u32_le(&[0, 0, 0, 0], 0), 0);
}

#[test]
fn append_bytes_keeps_what_was_there() {
    let mut buf = vec![1u8, 2];
    append_bytes(&mut buf, &[3, 4, 5]);
    append_bytes(&mut buf, &[]);
    assert_eq!(buf, vec![1, 2, 3, 4, 5]);
}

#[test]
fn append_zeros_appends_that_many() {
    let mut buf = vec![7u8];
    append_zeros(&mut buf, 3);
    append_zeros(&mut buf, 0);
    assert_eq!(buf, vec![7, 0, 0, 0]);
}
