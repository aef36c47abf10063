use byteutils::byteutils::direct_read_uint_le;
use byteutils::byteutils::direct_write_uint_le;
use byteutils::byteutils::unchecked_write_u64_u64_le;
use byteutils::byteutils::write8_u64_le;

#[test]
fn write_two_bytes_and_read_back() {
    let mut buf: Vec<u8> = Vec::new();
    direct_write_uint_le(&mut buf, 0x1234, 2);
    assert_eq!(buf, vec![0x34, 0x12]);
    assert_eq!(direct_read_uint_le(&buf, 0), 0x1234);
}

#[test]
fn write_full_width_max_value() {
    let mut buf: Vec<u8> = Vec::new();
    direct_write_uint_le(&mut buf, u64::MAX, 8);
    assert_eq!(buf, vec![0xFF; 8]);
    assert_eq!(direct_read_uint_le(&buf, 0), u64::MAX);
}

#[test]
fn read_single_byte_zero_extended() {
    let buf: Vec<u8> = vec![0xAA];
    assert_eq!(direct_read_uint_le(&buf, 0), 0xAA);
}

#[test]
fn unchecked_append_with_reserved_capacity() {
    let mut buf: Vec<u64> = Vec::with_capacity(8);
    unchecked_write_u64_u64_le(&mut buf, 7);
    assert_eq!(buf.len(), 1);
    assert_eq!(buf[0], 7);
}

#[test]
fn repeated_append_on_empty_buffer() {
    let mut buf: Vec<u64> = Vec::new();
    write8_u64_le(&mut buf, 42);
    assert_eq!(buf.len(), 8);
    assert!(buf.iter().all(|&w| w == 42));
}

#[test]
fn round_trip_masks_to_width() {
    let value = 0xFEDC_BA98_7654_3210u64;
    for width in 1..=8usize {
        let mut buf: Vec<u8> = Vec::new();
        direct_write_uint_le(&mut buf, value, width);
        assert_eq!(buf.len(), width);
        let expected = if width == 8 {
            value
        } else {
            value & ((1u64 << (8 * width)) - 1)
        };
        assert_eq!(direct_read_uint_le(&buf, 0), expected);
    }
}

#[test]
fn sequential_writes_track_offsets() {
    let values = [0x11u64, 0xA5A5, 0xDEADBEEF, 0x0123_4567_89AB_CDEF];
    let widths = [1usize, 2, 4, 8];
    let mut buf: Vec<u8> = Vec::new();
    let mut offsets: Vec<u32> = Vec::new();
    for i in 0..4 {
        offsets.push(buf.len() as u32);
        direct_write_uint_le(&mut buf, values[i], widths[i]);
    }
    assert_eq!(buf.len(), 1 + 2 + 4 + 8);
    for i in 0..4 {
        let r = direct_read_uint_le(&buf, offsets[i]);
        let mask = if widths[i] == 8 {
            u64::MAX
        } else {
            (1u64 << (8 * widths[i])) - 1
        };
        assert_eq!(r & mask, values[i] & mask);
    }
}

#[test]
fn boundary_read_zero_extends() {
    let buf: Vec<u8> = vec![0x01, 0x02, 0x03, 0x04, 0x05];
    assert_eq!(direct_read_uint_le(&buf, 2), 0x0005_0403);
    assert_eq!(direct_read_uint_le(&buf, 4), 0x05);
    assert_eq!(direct_read_uint_le(&buf, 5), 0);
}

#[test]
fn read_uses_exactly_eight_bytes_when_available() {
    let mut buf: Vec<u8> = Vec::new();
    direct_write_uint_le(&mut buf, 0x0807_0605_0403_0201, 8);
    buf.push(0xFF);
    assert_eq!(direct_read_uint_le(&buf, 0), 0x0807_0605_0403_0201);
    assert_eq!(direct_read_uint_le(&buf, 1), 0xFF08_0706_0504_0302);
}

#[test]
fn bulk_fill_appends_eight_and_keeps_prefix() {
    let mut buf: Vec<u64> = vec![1, 2, 3];
    write8_u64_le(&mut buf, 9);
    assert_eq!(buf.len(), 11);
    assert_eq!(&buf[..3], &[1, 2, 3]);
    assert!(buf[3..].iter().all(|&w| w == 9));
}

#[test]
fn unchecked_append_keeps_prior_elements() {
    let mut buf: Vec<u64> = Vec::with_capacity(4);
    buf.push(10);
    buf.push(20);
    unchecked_write_u64_u64_le(&mut buf, 30);
    assert_eq!(buf, vec![10, 20, 30]);
}

#[test]
fn write_width_one_keeps_low_byte_only() {
    let mut buf: Vec<u8> = Vec::new();
    direct_write_uint_le(&mut buf, 0x0123_4567_89AB_CDEF, 1);
    assert_eq!(buf, vec![0xEF]);
    assert_eq!(direct_read_uint_le(&buf, 0), 0xEF);
}

#[test]
fn write_zero_value_all_widths() {
    for width in 1..=8usize {
        let mut buf: Vec<u8> = Vec::new();
        direct_write_uint_le(&mut buf, 0, width);
        assert_eq!(buf, vec![0; width]);
        assert_eq!(direct_read_uint_le(&buf, 0), 0);
    }
}
