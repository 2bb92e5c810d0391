use abo_builder::bytes::{append_bytes, push_le, read_u16_le, read_u32_le, read_u64_le};

#[test]
fn reads_little_endian_values() {
    let data = [0xaa, 0x01, 0x02, 0x03, 0x04, 0x05, 0x06, 0x07, 0x08, 0xbb];
    assert_eq!(read_u16_le(&data, 1), 0x0201);
    assert_eq!(read_u32_le(&data, 1), 0x0403_0201);
    assert_eq!(read_u64_le(&data, 1), 0x0807_0605_0403_0201);
    assert_eq!(read_u16_le(&data, 8), 0xbb08);
}

#[test]
fn push_le_writes_the_low_bytes_first() {
    let mut out = vec![9u8];
    push_le(&mut out, 0x1122_3344_5566_7788, 8);
    assert_eq!(out, vec![9, 0x88, 0x77, 0x66, 0x55, 0x44, 0x33, 0x22, 0x11]);
    let mut out = Vec::new();
    push_le(&mut out, 0x1_0000_0005, 4);
    assert_eq!(out, vec![5, 0, 0, 0]);
}

#[test]
fn write_then_read_gives_the_value_back() {
    for v in [0u64, 1, 0xff, 0x1234, 0xdead_beef, u64::MAX, 0x0102_0304_0506_0708] {
        let mut out = Vec::new();
        push_le(&mut out, v, 8);
        assert_eq!(read_u64_le(&out, 0), v);
        let mut out = Vec::new();
        push_le(&mut out, v, 4);
        assert_eq!(read_u32_le(&out, 0) as u64, v & 0xffff_ffff);
        let mut out = Vec::new();
        push_le(&mut out, v, 2);
        assert_eq!(read_u16_le(&out, 0) as u64, v & 0xffff);
    }
}

#[test]
fn append_bytes_appends() {
    let mut out = vec![1u8, 2];
    append_bytes(&mut out, &[3, 4, 5]);
    assert_eq!(out, vec![1, 2, 3, 4, 5]);
    append_bytes(&mut out, &[]);
    assert_eq!(out, vec![1, 2, 3, 4, 5]);
}
