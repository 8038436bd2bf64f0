use points_store::common::{MyError, WrongCommand, COMMAND_ADD, COMMAND_GET};
use points_store::utils::{buf_to_i32_unsafe, buf_to_u32_unsafe, buf_to_u64, u64_to_buf};

#[test]
fn wrong_command_keeps_both_codes() {
    let w = WrongCommand::new(COMMAND_ADD, COMMAND_GET);
    assert_eq!(w.received_command, 0x04);
    assert_eq!(w.expected_command, 0x02);
}

#[test]
fn u32_read_exact_value() {
    assert_eq!(buf_to_u32_unsafe(&[0x01, 0x02, 0x03, 0x04]), 0x0102_0304);
    assert_eq!(buf_to_u32_unsafe(&[0xFF, 0xFF, 0xFF, 0xFF]), u32::MAX);
    assert_eq!(buf_to_u32_unsafe(&[0x00, 0x00, 0x00, 0x00]), 0);
}

#[test]
fn u32_read_ignores_extra_bytes() {
    assert_eq!(buf_to_u32_unsafe(&[0x00, 0x00, 0x01, 0x00, 0xAA, 0xBB]), 256);
}

#[test]
fn i32_read_exact_value() {
    assert_eq!(buf_to_i32_unsafe(&[0x00, 0x00, 0x00, 0x05]), 5);
    assert_eq!(buf_to_i32_unsafe(&[0xFF, 0xFF, 0xFF, 0xFB]), -5);
    assert_eq!(buf_to_i32_unsafe(&[0x80, 0x00, 0x00, 0x00]), i32::MIN);
    assert_eq!(buf_to_i32_unsafe(&[0x7F, 0xFF, 0xFF, 0xFF]), i32::MAX);
}

#[test]
fn u64_to_buf_exact_bytes() {
    assert_eq!(
        u64_to_buf(0x0102_0304_0506_0708),
        [0x01, 0x02, 0x03, 0x04, 0x05, 0x06, 0x07, 0x08]
    );
    assert_eq!(u64_to_buf(0), [0; 8]);
    assert_eq!(u64_to_buf(u64::MAX), [0xFF; 8]);
}

#[test]
fn u64_read_round_trips() {
    for v in [0u64, 1, 1337, u64::MAX, 0xDEAD_BEEF_CAFE_F00D] {
        assert_eq!(buf_to_u64(&u64_to_buf(v)), Ok(v));
    }
}

#[test]
fn u64_read_short_buffer_is_error() {
    assert_eq!(buf_to_u64(&[1, 2, 3, 4, 5, 6, 7]), Err(MyError::BufferError));
    assert_eq!(buf_to_u64(&[]), Err(MyError::BufferError));
}
