use redacted_geyser::wire::{
    flag_byte, i32_to_le, i64_to_le, put_field, u32_from_le, u32_to_le, u64_to_le,
};

#[test]
fn little_endian_words() {
    assert_eq!(u32_to_le(0x1234_5678), [0x78, 0x56, 0x34, 0x12]);
    assert_eq!(u32_from_le(0x78, 0x56, 0x34, 0x12), 0x1234_5678);
    assert_eq!(u32_from_le(255, 255, 255, 255), u32::MAX);
    assert_eq!(
        u64_to_le(0x0102_0304_0506_0708),
        [8, 7, 6, 5, 4, 3, 2, 1]
    );
    assert_eq!(u64_to_le(u64::MAX), [255; 8]);
}

#[test]
fn words_agree_with_std() {
    for v in [0u32, 1, 255, 256, 65_535, 65_536, 10 * 1024 * 1024, u32::MAX] {
        let bytes = u32_to_le(v);
        assert_eq!(bytes, v.to_le_bytes());
        assert_eq!(u32_from_le(bytes[0], bytes[1], bytes[2], bytes[3]), v);
    }
    for v in [0u64, 1, 1 << 31, 1 << 32, 1 << 40, u64::MAX] {
        assert_eq!(u64_to_le(v), v.to_le_bytes());
    }
    for v in [0i64, 1, -1, i64::MIN, i64::MAX, -1_000_000_007] {
        assert_eq!(i64_to_le(v), v.to_le_bytes());
    }
    for v in [0i32, 1, -1, i32::MIN, i32::MAX, 999_999_999] {
        assert_eq!(i32_to_le(v), v.to_le_bytes());
    }
}

#[test]
fn flags_are_one_byte() {
    assert_eq!(flag_byte(true), 1);
    assert_eq!(flag_byte(false), 0);
}

#[test]
fn fields_replace_bytes_in_place() {
    let mut buffer = [9u8; 6];
    let end = put_field(&mut buffer, 2, &[1, 2, 3]);
    assert_eq!(end, 5);
    assert_eq!(buffer, [9, 9, 1, 2, 3, 9]);
    assert_eq!(put_field(&mut buffer, 6, &[]), 6);
    assert_eq!(buffer, [9, 9, 1, 2, 3, 9]);
}
