//! Behaviour of the codecs on whole streams: exact wire bytes, collection
//! and string round trips, every error kind, and the chunked writer.

use byte_buffer::collect_bytes;
use byte_buffer::collections::SliceByteIter;
use byte_buffer::sources::IoBuffer;
use byte_buffer::writer::VecSink;
use byte_buffer::ByteBuffer;
use byte_buffer::ByteErr;
use byte_buffer::FromBytes;
use byte_buffer::IntoBytes;
use byte_buffer::IoFailure;
use byte_buffer::WriteBytes;

#[test]
fn u32_wire_bytes_are_little_endian() {
    let value: u32 = 0x0102_0304;
    let mut seq = value.into_bytes();
    assert_eq!(collect_bytes(&mut seq), vec![0x04, 0x03, 0x02, 0x01]);
}

#[test]
fn bool_wire_bytes() {
    assert_eq!(collect_bytes(&mut true.into_bytes()), vec![0x01]);
    assert_eq!(collect_bytes(&mut false.into_bytes()), vec![0x00]);
}

#[test]
fn char_wire_bytes() {
    let value = 'A';
    assert_eq!(collect_bytes(&mut value.into_bytes()), vec![0x41, 0x00, 0x00, 0x00]);
}

#[test]
fn nonzero_byte_decodes_to_true() {
    let mut seq = ByteBuffer::new(vec![0xff]);
    assert_eq!(bool::from_bytes(&mut seq).unwrap(), true);
    let mut seq = ByteBuffer::new(vec![0x02]);
    assert_eq!(bool::from_bytes(&mut seq).unwrap(), true);
    let mut seq = ByteBuffer::new(vec![0x00]);
    assert_eq!(bool::from_bytes(&mut seq).unwrap(), false);
}

#[test]
fn three_bytes_are_short_for_u32() {
    let mut seq = ByteBuffer::new(vec![0x01, 0x02, 0x03]);
    assert_eq!(u32::from_bytes(&mut seq), Err(ByteErr::NeedMoreBytes));
}

#[test]
fn surrogate_value_is_invalid_as_char() {
    let mut seq = ByteBuffer::new(vec![0x00, 0xd8, 0x00, 0x00]);
    assert_eq!(char::from_bytes(&mut seq), Err(ByteErr::InvalidBytes));
}

#[test]
fn char_decode_rejects_values_above_maximum() {
    let mut seq = ByteBuffer::new(vec![0x00, 0x00, 0x11, 0x00]);
    assert_eq!(char::from_bytes(&mut seq), Err(ByteErr::InvalidBytes));
}

#[test]
fn vec_roundtrip() {
    let values: Vec<u32> = vec![7, 0, 0xffff_ffff];
    let mut seq = values.as_slice().into_bytes();
    assert_eq!(Vec::<u32>::from_bytes(&mut seq).unwrap(), values);
}

#[test]
fn empty_vec_roundtrip() {
    let values: Vec<u16> = Vec::new();
    let mut seq = values.as_slice().into_bytes();
    assert_eq!(Vec::<u16>::from_bytes(&mut seq).unwrap(), values);
}

#[test]
fn nested_vec_decodes() {
    let values: Vec<Vec<u8>> = vec![vec![1, 2], vec![], vec![3]];
    let mut bytes = vec![0x03, 0x00, 0x00, 0x00];
    for inner in &values {
        bytes.extend(collect_bytes(&mut inner.as_slice().into_bytes()));
    }
    let mut seq = ByteBuffer::new(bytes);
    assert_eq!(Vec::<Vec<u8>>::from_bytes(&mut seq).unwrap(), values);
}

#[test]
fn vec_wire_bytes() {
    let values: Vec<u16> = vec![0x0102, 0x0304];
    let mut seq = values.as_slice().into_bytes();
    assert_eq!(collect_bytes(&mut seq), vec![0x02, 0x00, 0x00, 0x00, 0x02, 0x01, 0x04, 0x03]);
}

#[test]
fn truncated_third_element_is_short() {
    // a count of three u32 elements, but bytes for only two
    let bytes = vec![
        0x03, 0x00, 0x00, 0x00, 0x01, 0x00, 0x00, 0x00, 0x02, 0x00, 0x00, 0x00,
    ];
    let mut seq = ByteBuffer::new(bytes);
    assert_eq!(Vec::<u32>::from_bytes(&mut seq), Err(ByteErr::NeedMoreBytes));
}

#[test]
fn invalid_element_fails_whole_vec() {
    // one element whose four bytes name a surrogate
    let bytes = vec![0x01, 0x00, 0x00, 0x00, 0x00, 0xd8, 0x00, 0x00];
    let mut seq = ByteBuffer::new(bytes);
    assert_eq!(Vec::<char>::from_bytes(&mut seq), Err(ByteErr::InvalidBytes));
}

#[test]
fn string_roundtrip() {
    let text = "over byte sequences";
    let mut seq = text.into_bytes();
    assert_eq!(String::from_bytes(&mut seq).unwrap(), text);
}

#[test]
fn empty_string_roundtrip() {
    let text = "";
    let mut seq = text.into_bytes();
    assert_eq!(String::from_bytes(&mut seq).unwrap(), text);
}

#[test]
fn multibyte_string_roundtrip() {
    let text = "héllo, 世界";
    let mut seq = text.into_bytes();
    assert_eq!(String::from_bytes(&mut seq).unwrap(), text);
}

#[test]
fn string_wire_bytes() {
    let text = "ab";
    let mut seq = text.into_bytes();
    assert_eq!(collect_bytes(&mut seq), vec![0x02, 0x00, 0x00, 0x00, 0x61, 0x62]);
}

#[test]
fn string_count_is_bytes_not_chars() {
    let text = "é";
    let mut seq = text.into_bytes();
    assert_eq!(collect_bytes(&mut seq), vec![0x02, 0x00, 0x00, 0x00, 0xc3, 0xa9]);
}

#[test]
fn string_decode_repairs_invalid_utf8() {
    // a count of two, then a stray continuation byte and an ascii byte
    let bytes = vec![0x02, 0x00, 0x00, 0x00, 0xff, 0x61];
    let mut seq = ByteBuffer::new(bytes);
    assert_eq!(String::from_bytes(&mut seq).unwrap(), "\u{fffd}a");
}

#[test]
fn string_shorter_than_count_is_short() {
    let bytes = vec![0x05, 0x00, 0x00, 0x00, 0x61, 0x62];
    let mut seq = ByteBuffer::new(bytes);
    assert_eq!(String::from_bytes(&mut seq), Err(ByteErr::NeedMoreBytes));
}

#[test]
fn io_source_roundtrip() {
    let value: u32 = 0xdead_beef;
    let bytes = collect_bytes(&mut value.into_bytes());
    let mut src = IoBuffer::new(bytes);
    assert_eq!(u32::from_io_bytes(&mut src).unwrap(), value);
}

#[test]
fn io_source_end_is_short() {
    let mut src = IoBuffer::new(vec![0x01, 0x02]);
    assert_eq!(u32::from_io_bytes(&mut src), Err(ByteErr::NeedMoreBytes));
}

#[test]
fn io_failure_is_lifted() {
    let mut src = IoBuffer::failing_after(vec![0x01, 0x02, 0x03, 0x04], 2, 7);
    assert_eq!(
        u32::from_io_bytes(&mut src),
        Err(ByteErr::IoErr(IoFailure { code: 7 }))
    );
}

#[test]
fn io_failure_converts_to_byte_err() {
    let failure = IoFailure { code: 3 };
    assert_eq!(ByteErr::from(failure), ByteErr::IoErr(failure));
}

#[test]
fn writer_chunks_exactly() {
    let mut data: Vec<u8> = Vec::new();
    for i in 0..10_000usize {
        data.push((i % 251) as u8);
    }
    let mut seq = ByteBuffer::new(data.clone());
    let mut sink = VecSink::new();
    sink.write_bytes(&mut seq, 1024).unwrap();
    assert_eq!(sink.writes.len(), 10);
    for chunk in sink.writes.iter().take(9) {
        assert_eq!(chunk.len(), 1024);
    }
    assert_eq!(sink.writes[9].len(), 784);
    assert_eq!(sink.received(), data);
}

#[test]
fn writer_handles_exact_multiple() {
    let data: Vec<u8> = vec![9; 2048];
    let mut seq = ByteBuffer::new(data.clone());
    let mut sink = VecSink::new();
    sink.write_bytes(&mut seq, 1024).unwrap();
    assert_eq!(sink.writes.len(), 2);
    assert_eq!(sink.received(), data);
}

#[test]
fn writer_writes_nothing_for_empty_source() {
    let mut seq = ByteBuffer::new(Vec::new());
    let mut sink = VecSink::new();
    sink.write_bytes(&mut seq, 8).unwrap();
    assert_eq!(sink.writes.len(), 0);
}

#[test]
fn slice_iter_streams_the_encoding() {
    let values: Vec<u32> = vec![1, 2, 3];
    let expected = collect_bytes(&mut values.as_slice().into_bytes());
    let mut lazy = SliceByteIter::new(values.as_slice());
    let mut sink = VecSink::new();
    sink.write_bytes(&mut lazy, 5).unwrap();
    assert_eq!(sink.received(), expected);
}

#[test]
fn i32_negative_wire_bytes() {
    let value: i32 = -2;
    let mut seq = value.into_bytes();
    assert_eq!(collect_bytes(&mut seq), vec![0xfe, 0xff, 0xff, 0xff]);
}

#[test]
fn u128_extremes_roundtrip() {
    let mut seq = u128::MAX.into_bytes();
    assert_eq!(collect_bytes(&mut seq).len(), 16);
    let mut seq = u128::MAX.into_bytes();
    assert_eq!(u128::from_bytes(&mut seq).unwrap(), u128::MAX);
}

#[test]
fn vec_io_roundtrip() {
    let values: Vec<u16> = vec![10, 20, 30];
    let bytes = collect_bytes(&mut values.as_slice().into_bytes());
    let mut src = IoBuffer::new(bytes);
    assert_eq!(Vec::<u16>::from_io_bytes(&mut src).unwrap(), values);
}

#[test]
fn string_io_roundtrip() {
    let text = "fallible";
    let bytes = collect_bytes(&mut text.into_bytes());
    let mut src = IoBuffer::new(bytes);
    assert_eq!(String::from_io_bytes(&mut src).unwrap(), text);
}

#[test]
fn io_failure_mid_vec_is_lifted() {
    let values: Vec<u32> = vec![1, 2, 3];
    let bytes = collect_bytes(&mut values.as_slice().into_bytes());
    let cut = bytes.len() - 2;
    let mut src = IoBuffer::failing_after(bytes, cut, 5);
    assert_eq!(
        Vec::<u32>::from_io_bytes(&mut src),
        Err(ByteErr::IoErr(IoFailure { code: 5 }))
    );
}
