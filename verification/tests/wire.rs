use alloy::wire::append_u32;
use alloy::wire::read_i16;
use alloy::wire::read_i32;
use alloy::wire::read_i64;
use alloy::wire::read_little_i32;
use alloy::wire::read_u32;

#[test]
fn numbers_are_read_with_the_first_byte_on_top() {
    let bytes = [0u8, 1, 2, 3, 255, 255, 255, 254, 128, 0];
    assert_eq!(read_u32(&bytes, 0), 0x10203);
    assert_eq!(read_i32(&bytes, 4), -2);
    assert_eq!(read_u32(&bytes, 4), 0xffff_fffe);
    assert_eq!(read_i16(&bytes, 8), -32768);
    assert_eq!(read_i16(&bytes, 1), 0x102);
    assert_eq!(read_i64(&bytes, 0), 0x10203_ffff_fffe);
    assert_eq!(read_i64(&bytes, 2), i64::from_be_bytes([2, 3, 255, 255, 255, 254, 128, 0]));
}

#[test]
fn the_session_is_read_with_the_last_byte_on_top() {
    assert_eq!(read_little_i32(&[1, 2, 0, 0]), 0x201);
    assert_eq!(read_little_i32(&[255, 255, 255, 255]), -1);
}

#[test]
fn lengths_are_read_back() {
    for n in [0usize, 1, 255, 256, 65536, 0x0102_0304, 0xffff_ffff] {
        let mut bytes = vec![9];
        append_u32(&mut bytes, n);
        assert_eq!(bytes.len(), 5);
        assert_eq!(read_u32(&bytes, 1) as usize, n);
    }
}
