use nebula_io::bytesource::{ByteSource, MemoryByteSource, SourceError, SubrangeSource};
use nebula_io::cursor::{Cursor, Value};
use std::sync::Arc;

#[test]
fn memory_reads_are_short_at_the_end() {
    let s = MemoryByteSource::from_vec(vec![1, 2, 3, 4, 5]);
    assert_eq!(s.len(), 5);
    assert_eq!(s.read_range(1, 2), vec![2, 3]);
    assert_eq!(s.read_range(3, 10), vec![4, 5]);
    assert_eq!(s.read_range(5, 1), Vec::<u8>::new());
    assert_eq!(s.read_range(99, 4), Vec::<u8>::new());
}

#[test]
fn repeated_reads_agree() {
    let s = MemoryByteSource::from_vec((0u8..64).collect());
    assert_eq!(s.read_range(10, 20), s.read_range(10, 20));
}

#[test]
fn memory_writes_grow_with_zeros() {
    let mut s = MemoryByteSource::new();
    assert_eq!(s.write_range(3, &[9, 8]), Ok(()));
    assert_eq!(s.as_slice(), &[0, 0, 0, 9, 8]);
    assert_eq!(s.write_range(1, &[7]), Ok(()));
    assert_eq!(s.as_slice(), &[0, 7, 0, 9, 8]);
    let c = MemoryByteSource::with_capacity(16);
    assert_eq!(c.len(), 0);
}

#[test]
fn subrange_windows_its_parent() {
    let parent = Arc::new(MemoryByteSource::from_vec((0u8..10).collect()));
    let mut w = SubrangeSource::new(parent.clone(), 4, 3);
    assert_eq!(w.len(), 3);
    assert_eq!(w.read_range(0, 10), vec![4, 5, 6]);
    assert_eq!(w.read_range(2, 1), vec![6]);
    assert_eq!(w.read_range(3, 1), Vec::<u8>::new());
    assert_eq!(w.write_range(0, &[1]), Err(SourceError::ReadOnly));
    assert_eq!(w.write_range(2, &[1, 2]), Err(SourceError::OutOfWindow));
    let tail = SubrangeSource::new(parent, 8, 5);
    assert_eq!(tail.len(), 2);
    assert_eq!(tail.read_range(0, 5), vec![8, 9]);
}

#[test]
fn typed_reads_in_both_orders() {
    let mut c = Cursor::new(MemoryByteSource::from_vec(vec![0x12, 0x34, 0x56, 0x78, 0xff]));
    assert_eq!(c.read_u16(), 0x3412);
    c.goto(0);
    c.set_big_endian(true);
    assert_eq!(c.read_u32(), 0x1234_5678);
    assert_eq!(c.read_i8(), -1);
    assert!(c.at_end());
    assert_eq!(c.read_u16(), 0);
    assert_eq!(c.get_offset(), 7);
    c.seek(-100);
    assert_eq!(c.get_offset(), 0);
    assert_eq!(c.peek_u8(), 0x12);
    assert_eq!(c.get_offset(), 0);
}

#[test]
fn reads_past_the_end_are_zero_filled() {
    let mut c = Cursor::new(MemoryByteSource::from_vec(vec![0xaa, 0xbb]));
    c.goto(1);
    assert_eq!(c.read_u32(), 0xbb);
    assert_eq!(c.read_u64(), 0);
    assert_eq!(c.read_bytes(0, 8), vec![0xaa, 0xbb]);
}

#[test]
fn stores_write_in_order() {
    let mut c = Cursor::new(MemoryByteSource::new());
    c.store_u16(0x0102).unwrap();
    c.set_big_endian(true);
    c.store_u32(0x0304_0506).unwrap();
    c.store_u8(7).unwrap();
    c.store_u64(8).unwrap();
    assert_eq!(c.get_offset(), 15);
    assert_eq!(
        c.source().as_slice(),
        &[2, 1, 3, 4, 5, 6, 7, 0, 0, 0, 0, 0, 0, 0, 8]
    );
}

#[test]
fn unpack_reads_a_record() {
    let bytes = vec![
        0x78, 0x56, 0x34, 0x12, // u32
        0x02, 0x00, // u16
        0x05, // u8
        0xee, // pad
        0x00, 0x00, 0x80, 0x3f, // 1.0f32
        0x00, 0x00, 0x00, 0x40, // 2.0f32
    ];
    let mut c = Cursor::new(MemoryByteSource::from_vec(bytes));
    let v = c.unpack("<IHBx2f");
    assert_eq!(
        v,
        vec![
            Value::U32(0x1234_5678),
            Value::U16(2),
            Value::U8(5),
            Value::F32Bits(1.0f32.to_bits()),
            Value::F32Bits(2.0f32.to_bits()),
        ]
    );
    assert_eq!(c.get_offset(), 16);
    assert!(!c.is_big_endian());
}

#[test]
fn unpack_order_override_is_scoped() {
    let mut c = Cursor::new(MemoryByteSource::from_vec(vec![0x00, 0x01, 0x00, 0x01]));
    assert_eq!(c.unpack(">H"), vec![Value::U16(1)]);
    assert!(!c.is_big_endian());
    assert_eq!(c.unpack("H"), vec![Value::U16(0x0100)]);
}

#[test]
fn unpack_stops_on_short_data() {
    let mut c = Cursor::new(MemoryByteSource::from_vec(vec![1, 2, 3, 4, 5]));
    let v = c.unpack("<3H");
    assert_eq!(v, vec![Value::U16(0x0201), Value::U16(0x0403)]);
    assert_eq!(c.get_offset(), 4);
}

#[test]
fn unpack_halts_at_unknown_code() {
    let mut c = Cursor::new(MemoryByteSource::from_vec(vec![1, 2, 3, 4]));
    let v = c.unpack("Bz B");
    assert_eq!(v, vec![Value::U8(1)]);
    assert_eq!(c.get_offset(), 1);
}

#[test]
fn pack_then_unpack_round_trips() {
    let vals = vec![
        Value::I8(-5),
        Value::U16(0xbeef),
        Value::I32(-123_456),
        Value::I32(7),
        Value::U64(0x0102_0304_0506_0708),
        Value::F64Bits(3.5f64.to_bits()),
        Value::I16(-2),
    ];
    let fmt = ">bHx2iQ3xdh";
    let mut c = Cursor::new(MemoryByteSource::new());
    c.goto(4);
    c.pack(fmt, &vals);
    assert_eq!(c.get_offset(), 4 + 1 + 2 + 1 + 8 + 8 + 3 + 8 + 2);
    c.goto(4);
    assert_eq!(c.unpack(fmt), vals);
    assert_eq!(c.get_offset(), 37);
}

#[test]
fn pack_stops_when_values_run_out() {
    let mut c = Cursor::new(MemoryByteSource::new());
    c.pack("<3B", &[Value::U8(1), Value::U8(2)]);
    assert_eq!(c.source().as_slice(), &[1, 2]);
    assert_eq!(c.get_offset(), 2);
}

#[test]
fn strings_stop_at_nul_or_amount() {
    let mut c = Cursor::new(MemoryByteSource::from_vec(b"abc\0defgh".to_vec()));
    assert_eq!(c.peek_string_ascii(None), "abc");
    assert_eq!(c.get_offset(), 0);
    assert_eq!(c.read_string_ascii(None), "abc");
    assert_eq!(c.get_offset(), 4);
    assert_eq!(c.read_string_utf8(Some(2)), "de");
    assert_eq!(c.get_offset(), 6);
    assert_eq!(c.read_string_utf8(None), "fgh");
    assert_eq!(c.get_offset(), 10);
}

#[test]
fn utf16_strings_follow_byte_order() {
    let mut c = Cursor::new(MemoryByteSource::new());
    c.set_big_endian(true);
    c.store_string_utf16("hé", true).unwrap();
    assert_eq!(c.source().as_slice(), &[0, b'h', 0, 0xe9, 0, 0]);
    c.goto(0);
    assert_eq!(c.read_string_utf16(None), "hé");
    assert_eq!(c.get_offset(), 6);
}

#[test]
fn store_strings_with_and_without_nul() {
    let mut c = Cursor::new(MemoryByteSource::new());
    c.store_string_ascii("ab", true).unwrap();
    c.store_string_utf8("é", false).unwrap();
    assert_eq!(c.source().as_slice(), &[b'a', b'b', 0, 0xc3, 0xa9]);
    assert_eq!(c.get_offset(), 5);
}

#[test]
fn peeks_leave_the_position() {
    let mut c = Cursor::new(MemoryByteSource::from_vec(vec![1, 0, 0, 0, 0, 0, 0, 0, b'h', b'i', 0]));
    assert_eq!(c.peek_u16(), 1);
    assert_eq!(c.peek_u32(), 1);
    assert_eq!(c.peek_u64(), 1);
    assert_eq!(c.get_offset(), 0);
    c.goto(8);
    assert_eq!(c.peek_string_utf8(None), "hi");
    assert_eq!(c.get_offset(), 8);
    c.store_bytes(&[b'y', b'o']).unwrap();
    c.goto(8);
    assert_eq!(c.read_string_ascii(Some(8)), "yo");
}
