//! Round trips for every primitive codec, through the public traits.

use byte_buffer::FromBytes;
use byte_buffer::IntoBytes;
use byte_buffer::IntoBytesStatic;

#[test]
fn bool_buff() {
    let test = true;
    assert_eq!(test, bool::from_bytes(&mut test.into_bytes()).unwrap());
    let test = false;
    assert_eq!(test, bool::from_bytes(&mut test.into_bytes()).unwrap());
}

#[test]
fn char_buff() {
    let test = 't';
    assert_eq!(test, char::from_bytes(&mut test.into_bytes()).unwrap());
}

#[test]
fn u8_buff() {
    let test = u8::MIN;
    assert_eq!(test, u8::from_bytes(&mut test.into_bytes()).unwrap());
    let test: u8 = 75;
    assert_eq!(test, u8::from_bytes(&mut test.into_bytes()).unwrap());
    let test = u8::MAX;
    assert_eq!(test, u8::from_bytes(&mut test.into_bytes()).unwrap());
}

#[test]
fn u16_buff() {
    let test = u16::MIN;
    assert_eq!(test, u16::from_bytes(&mut test.into_bytes()).unwrap());
    let test: u16 = 75;
    assert_eq!(test, u16::from_bytes(&mut test.into_bytes()).unwrap());
    let test = u16::MAX;
    assert_eq!(test, u16::from_bytes(&mut test.into_bytes()).unwrap());
}

#[test]
fn u32_buff() {
    let test = u32::MIN;
    assert_eq!(test, u32::from_bytes(&mut test.into_bytes()).unwrap());
    let test: u32 = 75;
    assert_eq!(test, u32::from_bytes(&mut test.into_bytes()).unwrap());
    let test = u32::MAX;
    assert_eq!(test, u32::from_bytes(&mut test.into_bytes()).unwrap());
}

#[test]
fn u64_buff() {
    let test = u64::MIN;
    assert_eq!(test, u64::from_bytes(&mut test.into_bytes()).unwrap());
    let test: u64 = 75;
    assert_eq!(test, u64::from_bytes(&mut test.into_bytes()).unwrap());
    let test = u64::MAX;
    assert_eq!(test, u64::from_bytes(&mut test.into_bytes()).unwrap());
}

#[test]
fn u128_buff() {
    let test = u128::MIN;
    assert_eq!(test, u128::from_bytes(&mut test.into_bytes()).unwrap());
    let test: u128 = 75;
    assert_eq!(test, u128::from_bytes(&mut test.into_bytes()).unwrap());
    let test = u128::MAX;
    assert_eq!(test, u128::from_bytes(&mut test.into_bytes()).unwrap());
}

#[test]
fn i8_buff() {
    let test = i8::MIN;
    assert_eq!(test, i8::from_bytes(&mut test.into_bytes()).unwrap());
    let test: i8 = 75;
    assert_eq!(test, i8::from_bytes(&mut test.into_bytes()).unwrap());
    let test = i8::MAX;
    assert_eq!(test, i8::from_bytes(&mut test.into_bytes()).unwrap());
}

#[test]
fn i16_buff() {
    let test = i16::MIN;
    assert_eq!(test, i16::from_bytes(&mut test.into_bytes()).unwrap());
    let test: i16 = 75;
    assert_eq!(test, i16::from_bytes(&mut test.into_bytes()).unwrap());
    let test = i16::MAX;
    assert_eq!(test, i16::from_bytes(&mut test.into_bytes()).unwrap());
}

#[test]
fn i32_buff() {
    let test = i32::MIN;
    assert_eq!(test, i32::from_bytes(&mut test.into_bytes()).unwrap());
    let test: i32 = 75;
    assert_eq!(test, i32::from_bytes(&mut test.into_bytes()).unwrap());
    let test = i32::MAX;
    assert_eq!(test, i32::from_bytes(&mut test.into_bytes()).unwrap());
}

#[test]
fn i64_buff() {
    let test = i64::MIN;
    assert_eq!(test, i64::from_bytes(&mut test.into_bytes()).unwrap());
    let test: i64 = 75;
    assert_eq!(test, i64::from_bytes(&mut test.into_bytes()).unwrap());
    let test = i64::MAX;
    assert_eq!(test, i64::from_bytes(&mut test.into_bytes()).unwrap());
}

#[test]
fn i128_buff() {
    let test = i128::MIN;
    assert_eq!(test, i128::from_bytes(&mut test.into_bytes()).unwrap());
    let test: i128 = 75;
    assert_eq!(test, i128::from_bytes(&mut test.into_bytes()).unwrap());
    let test = i128::MAX;
    assert_eq!(test, i128::from_bytes(&mut test.into_bytes()).unwrap());
}

#[test]
fn f32_buff() {
    let test: f32 = 3.75;
    let decoded = f32::from_bits(u32::from_bytes(&mut test.to_bits().into_bytes_static()).unwrap());
    assert_eq!(test, decoded);
    let test: f32 = -3.75;
    let decoded = f32::from_bits(u32::from_bytes(&mut test.to_bits().into_bytes_static()).unwrap());
    assert_eq!(test, decoded);
}

#[test]
fn f64_buff() {
    let test: f64 = 3.75;
    let decoded = f64::from_bits(u64::from_bytes(&mut test.to_bits().into_bytes_static()).unwrap());
    assert_eq!(test, decoded);
    let test: f64 = -3.75;
    let decoded = f64::from_bits(u64::from_bytes(&mut test.to_bits().into_bytes_static()).unwrap());
    assert_eq!(test, decoded);
}
