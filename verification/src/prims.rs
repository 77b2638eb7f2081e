//! Fixed-width little-endian codecs for the primitive types: boolean,
//! character, and the signed and unsigned integers from 8 to 128 bits.

use crate::wire::{
    le_bytes,
    le_decode,
    le_encode,
    le_val,
    lemma_le_bytes_len,
    lemma_le_roundtrip,
    lemma_le_val_bound,
    lemma_pow256_values,
    lemma_signed_roundtrip,
    lemma_unsigned_form,
    pow256,
    signed_of,
    unsigned_of,
};
use crate::take_n;
use crate::take_n_io;
use crate::ByteBuffer;
use crate::ByteErr;
use crate::ByteSource;
use crate::FromBytes;
use crate::IntoBytesStatic;
use crate::IoByteSource;
use vstd::prelude::*;
use vstd::utf8::is_scalar;

verus! {

impl IntoBytesStatic for bool {
    open spec fn enc_static(&self) -> Seq<u8> {
        seq![if *self {
                1u8
            } else {
                0u8
            }]
    }

    open spec fn encodable_static(&self) -> bool {
        true
    }

    fn into_bytes_static(&self) -> (b: ByteBuffer) {
        let mut v: Vec<u8> = Vec::new();
        v.push(
            if *self {
                1u8
            } else {
                0u8
            },
        );
        proof {
            assert(v@ =~= self.enc_static());
        }
        ByteBuffer::new(v)
    }
}

impl FromBytes for bool {
    open spec fn dec_ok(bytes: Seq<u8>) -> bool {
        bytes.len() >= 1
    }

    open spec fn dec_val(bytes: Seq<u8>) -> bool {
        bytes[0] != 0
    }

    open spec fn dec_len(bytes: Seq<u8>) -> int {
        1
    }

    open spec fn dec_short(bytes: Seq<u8>) -> bool {
        bytes.len() < 1
    }

    proof fn dec_parts(bytes: Seq<u8>) {
    }

    fn from_io_bytes<S: IoByteSource>(bytes: &mut S) -> (r: Result<Self, ByteErr>) {
        match bytes.next() {
            Ok(Some(byte)) => {
                proof {
                    assert(bytes.bytes() =~= old(bytes).bytes().skip(1));
                }
                Ok(byte != 0)
            },
            Ok(None) => Err(ByteErr::NeedMoreBytes),
            Err(e) => Err(ByteErr::IoErr(e)),
        }
    }

    fn from_bytes<S: ByteSource>(bytes: &mut S) -> (r: Result<Self, ByteErr>) {
        if let Some(byte) = bytes.next() {
            proof {
                assert(bytes.bytes() =~= old(bytes).bytes().skip(1));
            }
            Ok(byte != 0)
        } else {
            Err(ByteErr::NeedMoreBytes)
        }
    }
}

/// The shared shape of every unsigned round trip: a value that fits in `w`
/// bytes encodes to exactly `w` bytes, and reads back out of any stream that
/// starts with them.
proof fn lemma_roundtrip_unsigned(v: nat, w: nat, rest: Seq<u8>)
    requires
        v < pow256(w),
    ensures
        le_bytes(v, w).len() == w,
        (le_bytes(v, w) + rest).len() == w + rest.len(),
        (le_bytes(v, w) + rest).take(w as int) == le_bytes(v, w),
        le_val((le_bytes(v, w) + rest).take(w as int)) == v,
{
    lemma_le_bytes_len(v, w);
    lemma_le_roundtrip(v, w);
    assert((le_bytes(v, w) + rest).take(w as int) =~= le_bytes(v, w));
}

impl IntoBytesStatic for u8 {
    open spec fn enc_static(&self) -> Seq<u8> {
        le_bytes(*self as nat, 1)
    }

    open spec fn encodable_static(&self) -> bool {
        true
    }

    fn into_bytes_static(&self) -> (b: ByteBuffer) {
        proof {
            lemma_pow256_values();
        }
        ByteBuffer::new(le_encode(*self as u128, 1))
    }
}

impl FromBytes for u8 {
    open spec fn dec_ok(bytes: Seq<u8>) -> bool {
        bytes.len() >= 1
    }

    open spec fn dec_val(bytes: Seq<u8>) -> u8 {
        le_val(bytes.take(1)) as u8
    }

    open spec fn dec_len(bytes: Seq<u8>) -> int {
        1
    }

    open spec fn dec_short(bytes: Seq<u8>) -> bool {
        bytes.len() < 1
    }

    proof fn dec_parts(bytes: Seq<u8>) {
    }

    fn from_io_bytes<S: IoByteSource>(bytes: &mut S) -> (r: Result<Self, ByteErr>) {
        let buf = match take_n_io(bytes, 1) {
            Ok(b) => b,
            Err(e) => {
                return Err(e);
            },
        };
        let v = le_decode(&buf);
        proof {
            lemma_le_val_bound(buf@);
            lemma_pow256_values();
        }
        Ok(v as u8)
    }

    fn from_bytes<S: ByteSource>(bytes: &mut S) -> (r: Result<Self, ByteErr>) {
        let buf = match take_n(bytes, 1) {
            Ok(b) => b,
            Err(e) => {
                return Err(e);
            },
        };
        let v = le_decode(&buf);
        proof {
            lemma_le_val_bound(buf@);
            lemma_pow256_values();
        }
        Ok(v as u8)
    }
}

impl IntoBytesStatic for u16 {
    open spec fn enc_static(&self) -> Seq<u8> {
        le_bytes(*self as nat, 2)
    }

    open spec fn encodable_static(&self) -> bool {
        true
    }

    fn into_bytes_static(&self) -> (b: ByteBuffer) {
        proof {
            lemma_pow256_values();
        }
        ByteBuffer::new(le_encode(*self as u128, 2))
    }
}

impl FromBytes for u16 {
    open spec fn dec_ok(bytes: Seq<u8>) -> bool {
        bytes.len() >= 2
    }

    open spec fn dec_val(bytes: Seq<u8>) -> u16 {
        le_val(bytes.take(2)) as u16
    }

    open spec fn dec_len(bytes: Seq<u8>) -> int {
        2
    }

    open spec fn dec_short(bytes: Seq<u8>) -> bool {
        bytes.len() < 2
    }

    proof fn dec_parts(bytes: Seq<u8>) {
    }

    fn from_io_bytes<S: IoByteSource>(bytes: &mut S) -> (r: Result<Self, ByteErr>) {
        let buf = match take_n_io(bytes, 2) {
            Ok(b) => b,
            Err(e) => {
                return Err(e);
            },
        };
        let v = le_decode(&buf);
        proof {
            lemma_le_val_bound(buf@);
            lemma_pow256_values();
        }
        Ok(v as u16)
    }

    fn from_bytes<S: ByteSource>(bytes: &mut S) -> (r: Result<Self, ByteErr>) {
        let buf = match take_n(bytes, 2) {
            Ok(b) => b,
            Err(e) => {
                return Err(e);
            },
        };
        let v = le_decode(&buf);
        proof {
            lemma_le_val_bound(buf@);
            lemma_pow256_values();
        }
        Ok(v as u16)
    }
}

impl IntoBytesStatic for u32 {
    open spec fn enc_static(&self) -> Seq<u8> {
        le_bytes(*self as nat, 4)
    }

    open spec fn encodable_static(&self) -> bool {
        true
    }

    fn into_bytes_static(&self) -> (b: ByteBuffer) {
        proof {
            lemma_pow256_values();
        }
        ByteBuffer::new(le_encode(*self as u128, 4))
    }
}

impl FromBytes for u32 {
    open spec fn dec_ok(bytes: Seq<u8>) -> bool {
        bytes.len() >= 4
    }

    open spec fn dec_val(bytes: Seq<u8>) -> u32 {
        le_val(bytes.take(4)) as u32
    }

    open spec fn dec_len(bytes: Seq<u8>) -> int {
        4
    }

    open spec fn dec_short(bytes: Seq<u8>) -> bool {
        bytes.len() < 4
    }

    proof fn dec_parts(bytes: Seq<u8>) {
    }

    fn from_io_bytes<S: IoByteSource>(bytes: &mut S) -> (r: Result<Self, ByteErr>) {
        let buf = match take_n_io(bytes, 4) {
            Ok(b) => b,
            Err(e) => {
                return Err(e);
            },
        };
        let v = le_decode(&buf);
        proof {
            lemma_le_val_bound(buf@);
            lemma_pow256_values();
        }
        Ok(v as u32)
    }

    fn from_bytes<S: ByteSource>(bytes: &mut S) -> (r: Result<Self, ByteErr>) {
        let buf = match take_n(bytes, 4) {
            Ok(b) => b,
            Err(e) => {
                return Err(e);
            },
        };
        let v = le_decode(&buf);
        proof {
            lemma_le_val_bound(buf@);
            lemma_pow256_values();
        }
        Ok(v as u32)
    }
}

impl IntoBytesStatic for u64 {
    open spec fn enc_static(&self) -> Seq<u8> {
        le_bytes(*self as nat, 8)
    }

    open spec fn encodable_static(&self) -> bool {
        true
    }

    fn into_bytes_static(&self) -> (b: ByteBuffer) {
        proof {
            lemma_pow256_values();
        }
        ByteBuffer::new(le_encode(*self as u128, 8))
    }
}

impl FromBytes for u64 {
    open spec fn dec_ok(bytes: Seq<u8>) -> bool {
        bytes.len() >= 8
    }

    open spec fn dec_val(bytes: Seq<u8>) -> u64 {
        le_val(bytes.take(8)) as u64
    }

    open spec fn dec_len(bytes: Seq<u8>) -> int {
        8
    }

    open spec fn dec_short(bytes: Seq<u8>) -> bool {
        bytes.len() < 8
    }

    proof fn dec_parts(bytes: Seq<u8>) {
    }

    fn from_io_bytes<S: IoByteSource>(bytes: &mut S) -> (r: Result<Self, ByteErr>) {
        let buf = match take_n_io(bytes, 8) {
            Ok(b) => b,
            Err(e) => {
                return Err(e);
            },
        };
        let v = le_decode(&buf);
        proof {
            lemma_le_val_bound(buf@);
            lemma_pow256_values();
        }
        Ok(v as u64)
    }

    fn from_bytes<S: ByteSource>(bytes: &mut S) -> (r: Result<Self, ByteErr>) {
        let buf = match take_n(bytes, 8) {
            Ok(b) => b,
            Err(e) => {
                return Err(e);
            },
        };
        let v = le_decode(&buf);
        proof {
            lemma_le_val_bound(buf@);
            lemma_pow256_values();
        }
        Ok(v as u64)
    }
}

impl IntoBytesStatic for u128 {
    open spec fn enc_static(&self) -> Seq<u8> {
        le_bytes(*self as nat, 16)
    }

    open spec fn encodable_static(&self) -> bool {
        true
    }

    fn into_bytes_static(&self) -> (b: ByteBuffer) {
        proof {
            lemma_pow256_values();
        }
        ByteBuffer::new(le_encode(*self, 16))
    }
}

impl FromBytes for u128 {
    open spec fn dec_ok(bytes: Seq<u8>) -> bool {
        bytes.len() >= 16
    }

    open spec fn dec_val(bytes: Seq<u8>) -> u128 {
        le_val(bytes.take(16)) as u128
    }

    open spec fn dec_len(bytes: Seq<u8>) -> int {
        16
    }

    open spec fn dec_short(bytes: Seq<u8>) -> bool {
        bytes.len() < 16
    }

    proof fn dec_parts(bytes: Seq<u8>) {
    }

    fn from_io_bytes<S: IoByteSource>(bytes: &mut S) -> (r: Result<Self, ByteErr>) {
        let buf = match take_n_io(bytes, 16) {
            Ok(b) => b,
            Err(e) => {
                return Err(e);
            },
        };
        let v = le_decode(&buf);
        proof {
            lemma_le_val_bound(buf@);
            lemma_pow256_values();
        }
        Ok(v)
    }

    fn from_bytes<S: ByteSource>(bytes: &mut S) -> (r: Result<Self, ByteErr>) {
        let buf = match take_n(bytes, 16) {
            Ok(b) => b,
            Err(e) => {
                return Err(e);
            },
        };
        let v = le_decode(&buf);
        proof {
            lemma_le_val_bound(buf@);
            lemma_pow256_values();
        }
        Ok(v)
    }
}

/// Round trip: decoding the encoding of any bool, with anything after it,
/// gives the value back and consumes exactly its one byte.
pub proof fn lemma_roundtrip_bool(v: bool, rest: Seq<u8>)
    ensures
        v.enc_static().len() == 1,
        <bool as FromBytes>::dec_ok(v.enc_static() + rest),
        <bool as FromBytes>::dec_val(v.enc_static() + rest) == v,
        <bool as FromBytes>::dec_len(v.enc_static() + rest) == v.enc_static().len(),
{
    assert((v.enc_static() + rest)[0] == v.enc_static()[0]);
}

/// Round trip: decoding the encoding of any u8, with anything after it,
/// gives the value back and consumes exactly its one byte.
pub proof fn lemma_roundtrip_u8(v: u8, rest: Seq<u8>)
    ensures
        v.enc_static().len() == 1,
        <u8 as FromBytes>::dec_ok(v.enc_static() + rest),
        <u8 as FromBytes>::dec_val(v.enc_static() + rest) == v,
        <u8 as FromBytes>::dec_len(v.enc_static() + rest) == v.enc_static().len(),
{
    lemma_pow256_values();
    lemma_roundtrip_unsigned(v as nat, 1, rest);
}

/// Round trip: decoding the encoding of any u16, with anything after it,
/// gives the value back and consumes exactly its two bytes.
pub proof fn lemma_roundtrip_u16(v: u16, rest: Seq<u8>)
    ensures
        v.enc_static().len() == 2,
        <u16 as FromBytes>::dec_ok(v.enc_static() + rest),
        <u16 as FromBytes>::dec_val(v.enc_static() + rest) == v,
        <u16 as FromBytes>::dec_len(v.enc_static() + rest) == v.enc_static().len(),
{
    lemma_pow256_values();
    lemma_roundtrip_unsigned(v as nat, 2, rest);
}

/// Round trip: decoding the encoding of any u32, with anything after it,
/// gives the value back and consumes exactly its four bytes.
pub proof fn lemma_roundtrip_u32(v: u32, rest: Seq<u8>)
    ensures
        v.enc_static().len() == 4,
        <u32 as FromBytes>::dec_ok(v.enc_static() + rest),
        <u32 as FromBytes>::dec_val(v.enc_static() + rest) == v,
        <u32 as FromBytes>::dec_len(v.enc_static() + rest) == v.enc_static().len(),
{
    lemma_pow256_values();
    lemma_roundtrip_unsigned(v as nat, 4, rest);
}

/// Round trip: decoding the encoding of any u64, with anything after it,
/// gives the value back and consumes exactly its eight bytes.
pub proof fn lemma_roundtrip_u64(v: u64, rest: Seq<u8>)
    ensures
        v.enc_static().len() == 8,
        <u64 as FromBytes>::dec_ok(v.enc_static() + rest),
        <u64 as FromBytes>::dec_val(v.enc_static() + rest) == v,
        <u64 as FromBytes>::dec_len(v.enc_static() + rest) == v.enc_static().len(),
{
    lemma_pow256_values();
    lemma_roundtrip_unsigned(v as nat, 8, rest);
}

/// Round trip: decoding the encoding of any u128, with anything after it,
/// gives the value back and consumes exactly its sixteen bytes.
pub proof fn lemma_roundtrip_u128(v: u128, rest: Seq<u8>)
    ensures
        v.enc_static().len() == 16,
        <u128 as FromBytes>::dec_ok(v.enc_static() + rest),
        <u128 as FromBytes>::dec_val(v.enc_static() + rest) == v,
        <u128 as FromBytes>::dec_len(v.enc_static() + rest) == v.enc_static().len(),
{
    lemma_pow256_values();
    lemma_roundtrip_unsigned(v as nat, 16, rest);
}


impl IntoBytesStatic for i8 {
    open spec fn enc_static(&self) -> Seq<u8> {
        le_bytes(unsigned_of(*self as int, 1), 1)
    }

    open spec fn encodable_static(&self) -> bool {
        true
    }

    fn into_bytes_static(&self) -> (b: ByteBuffer) {
        let u: u128 = if *self < 0 {
            ((*self as i128) + 0x100i128) as u128
        } else {
            *self as u128
        };
        proof {
            lemma_pow256_values();
            lemma_unsigned_form(*self as int, 1);
        }
        ByteBuffer::new(le_encode(u, 1))
    }
}

impl FromBytes for i8 {
    open spec fn dec_ok(bytes: Seq<u8>) -> bool {
        bytes.len() >= 1
    }

    open spec fn dec_val(bytes: Seq<u8>) -> i8 {
        signed_of(le_val(bytes.take(1)), 1) as i8
    }

    open spec fn dec_len(bytes: Seq<u8>) -> int {
        1
    }

    open spec fn dec_short(bytes: Seq<u8>) -> bool {
        bytes.len() < 1
    }

    proof fn dec_parts(bytes: Seq<u8>) {
    }

    fn from_io_bytes<S: IoByteSource>(bytes: &mut S) -> (r: Result<Self, ByteErr>) {
        let buf = match take_n_io(bytes, 1) {
            Ok(b) => b,
            Err(e) => {
                return Err(e);
            },
        };
        let v = le_decode(&buf);
        proof {
            lemma_le_val_bound(buf@);
            lemma_pow256_values();
        }
        Ok(
            if v < 0x80u128 {
                v as i8
            } else {
                ((v as i128) - 0x100i128) as i8
            },
        )
    }

    fn from_bytes<S: ByteSource>(bytes: &mut S) -> (r: Result<Self, ByteErr>) {
        let buf = match take_n(bytes, 1) {
            Ok(b) => b,
            Err(e) => {
                return Err(e);
            },
        };
        let v = le_decode(&buf);
        proof {
            lemma_le_val_bound(buf@);
            lemma_pow256_values();
        }
        Ok(
            if v < 0x80u128 {
                v as i8
            } else {
                ((v as i128) - 0x100i128) as i8
            },
        )
    }
}


impl IntoBytesStatic for i16 {
    open spec fn enc_static(&self) -> Seq<u8> {
        le_bytes(unsigned_of(*self as int, 2), 2)
    }

    open spec fn encodable_static(&self) -> bool {
        true
    }

    fn into_bytes_static(&self) -> (b: ByteBuffer) {
        let u: u128 = if *self < 0 {
            ((*self as i128) + 0x1_0000i128) as u128
        } else {
            *self as u128
        };
        proof {
            lemma_pow256_values();
            lemma_unsigned_form(*self as int, 2);
        }
        ByteBuffer::new(le_encode(u, 2))
    }
}

impl FromBytes for i16 {
    open spec fn dec_ok(bytes: Seq<u8>) -> bool {
        bytes.len() >= 2
    }

    open spec fn dec_val(bytes: Seq<u8>) -> i16 {
        signed_of(le_val(bytes.take(2)), 2) as i16
    }

    open spec fn dec_len(bytes: Seq<u8>) -> int {
        2
    }

    open spec fn dec_short(bytes: Seq<u8>) -> bool {
        bytes.len() < 2
    }

    proof fn dec_parts(bytes: Seq<u8>) {
    }

    fn from_io_bytes<S: IoByteSource>(bytes: &mut S) -> (r: Result<Self, ByteErr>) {
        let buf = match take_n_io(bytes, 2) {
            Ok(b) => b,
            Err(e) => {
                return Err(e);
            },
        };
        let v = le_decode(&buf);
        proof {
            lemma_le_val_bound(buf@);
            lemma_pow256_values();
        }
        Ok(
            if v < 0x8000u128 {
                v as i16
            } else {
                ((v as i128) - 0x1_0000i128) as i16
            },
        )
    }

    fn from_bytes<S: ByteSource>(bytes: &mut S) -> (r: Result<Self, ByteErr>) {
        let buf = match take_n(bytes, 2) {
            Ok(b) => b,
            Err(e) => {
                return Err(e);
            },
        };
        let v = le_decode(&buf);
        proof {
            lemma_le_val_bound(buf@);
            lemma_pow256_values();
        }
        Ok(
            if v < 0x8000u128 {
                v as i16
            } else {
                ((v as i128) - 0x1_0000i128) as i16
            },
        )
    }
}


impl IntoBytesStatic for i32 {
    open spec fn enc_static(&self) -> Seq<u8> {
        le_bytes(unsigned_of(*self as int, 4), 4)
    }

    open spec fn encodable_static(&self) -> bool {
        true
    }

    fn into_bytes_static(&self) -> (b: ByteBuffer) {
        let u: u128 = if *self < 0 {
            ((*self as i128) + 0x1_0000_0000i128) as u128
        } else {
            *self as u128
        };
        proof {
            lemma_pow256_values();
            lemma_unsigned_form(*self as int, 4);
        }
        ByteBuffer::new(le_encode(u, 4))
    }
}

impl FromBytes for i32 {
    open spec fn dec_ok(bytes: Seq<u8>) -> bool {
        bytes.len() >= 4
    }

    open spec fn dec_val(bytes: Seq<u8>) -> i32 {
        signed_of(le_val(bytes.take(4)), 4) as i32
    }

    open spec fn dec_len(bytes: Seq<u8>) -> int {
        4
    }

    open spec fn dec_short(bytes: Seq<u8>) -> bool {
        bytes.len() < 4
    }

    proof fn dec_parts(bytes: Seq<u8>) {
    }

    fn from_io_bytes<S: IoByteSource>(bytes: &mut S) -> (r: Result<Self, ByteErr>) {
        let buf = match take_n_io(bytes, 4) {
            Ok(b) => b,
            Err(e) => {
                return Err(e);
            },
        };
        let v = le_decode(&buf);
        proof {
            lemma_le_val_bound(buf@);
            lemma_pow256_values();
        }
        Ok(
            if v < 0x8000_0000u128 {
                v as i32
            } else {
                ((v as i128) - 0x1_0000_0000i128) as i32
            },
        )
    }

    fn from_bytes<S: ByteSource>(bytes: &mut S) -> (r: Result<Self, ByteErr>) {
        let buf = match take_n(bytes, 4) {
            Ok(b) => b,
            Err(e) => {
                return Err(e);
            },
        };
        let v = le_decode(&buf);
        proof {
            lemma_le_val_bound(buf@);
            lemma_pow256_values();
        }
        Ok(
            if v < 0x8000_0000u128 {
                v as i32
            } else {
                ((v as i128) - 0x1_0000_0000i128) as i32
            },
        )
    }
}


impl IntoBytesStatic for i64 {
    open spec fn enc_static(&self) -> Seq<u8> {
        le_bytes(unsigned_of(*self as int, 8), 8)
    }

    open spec fn encodable_static(&self) -> bool {
        true
    }

    fn into_bytes_static(&self) -> (b: ByteBuffer) {
        let u: u128 = if *self < 0 {
            ((*self as i128) + 0x1_0000_0000_0000_0000i128) as u128
        } else {
            *self as u128
        };
        proof {
            lemma_pow256_values();
            lemma_unsigned_form(*self as int, 8);
        }
        ByteBuffer::new(le_encode(u, 8))
    }
}

impl FromBytes for i64 {
    open spec fn dec_ok(bytes: Seq<u8>) -> bool {
        bytes.len() >= 8
    }

    open spec fn dec_val(bytes: Seq<u8>) -> i64 {
        signed_of(le_val(bytes.take(8)), 8) as i64
    }

    open spec fn dec_len(bytes: Seq<u8>) -> int {
        8
    }

    open spec fn dec_short(bytes: Seq<u8>) -> bool {
        bytes.len() < 8
    }

    proof fn dec_parts(bytes: Seq<u8>) {
    }

    fn from_io_bytes<S: IoByteSource>(bytes: &mut S) -> (r: Result<Self, ByteErr>) {
        let buf = match take_n_io(bytes, 8) {
            Ok(b) => b,
            Err(e) => {
                return Err(e);
            },
        };
        let v = le_decode(&buf);
        proof {
            lemma_le_val_bound(buf@);
            lemma_pow256_values();
        }
        Ok(
            if v < 0x8000_0000_0000_0000u128 {
                v as i64
            } else {
                ((v as i128) - 0x1_0000_0000_0000_0000i128) as i64
            },
        )
    }

    fn from_bytes<S: ByteSource>(bytes: &mut S) -> (r: Result<Self, ByteErr>) {
        let buf = match take_n(bytes, 8) {
            Ok(b) => b,
            Err(e) => {
                return Err(e);
            },
        };
        let v = le_decode(&buf);
        proof {
            lemma_le_val_bound(buf@);
            lemma_pow256_values();
        }
        Ok(
            if v < 0x8000_0000_0000_0000u128 {
                v as i64
            } else {
                ((v as i128) - 0x1_0000_0000_0000_0000i128) as i64
            },
        )
    }
}

impl IntoBytesStatic for i128 {
    open spec fn enc_static(&self) -> Seq<u8> {
        le_bytes(unsigned_of(*self as int, 16), 16)
    }

    open spec fn encodable_static(&self) -> bool {
        true
    }

    fn into_bytes_static(&self) -> (b: ByteBuffer) {
        let u: u128 = if *self < 0 {
            ((*self - i128::MIN) as u128) + 0x8000_0000_0000_0000_0000_0000_0000_0000u128
        } else {
            *self as u128
        };
        proof {
            lemma_pow256_values();
            lemma_unsigned_form(*self as int, 16);
        }
        ByteBuffer::new(le_encode(u, 16))
    }
}

impl FromBytes for i128 {
    open spec fn dec_ok(bytes: Seq<u8>) -> bool {
        bytes.len() >= 16
    }

    open spec fn dec_val(bytes: Seq<u8>) -> i128 {
        signed_of(le_val(bytes.take(16)), 16) as i128
    }

    open spec fn dec_len(bytes: Seq<u8>) -> int {
        16
    }

    open spec fn dec_short(bytes: Seq<u8>) -> bool {
        bytes.len() < 16
    }

    proof fn dec_parts(bytes: Seq<u8>) {
    }

    fn from_io_bytes<S: IoByteSource>(bytes: &mut S) -> (r: Result<Self, ByteErr>) {
        let buf = match take_n_io(bytes, 16) {
            Ok(b) => b,
            Err(e) => {
                return Err(e);
            },
        };
        let v = le_decode(&buf);
        proof {
            lemma_le_val_bound(buf@);
            lemma_pow256_values();
        }
        Ok(
            if v < 0x8000_0000_0000_0000_0000_0000_0000_0000u128 {
                v as i128
            } else {
                ((v - 0x8000_0000_0000_0000_0000_0000_0000_0000u128) as i128) + i128::MIN
            },
        )
    }

    fn from_bytes<S: ByteSource>(bytes: &mut S) -> (r: Result<Self, ByteErr>) {
        let buf = match take_n(bytes, 16) {
            Ok(b) => b,
            Err(e) => {
                return Err(e);
            },
        };
        let v = le_decode(&buf);
        proof {
            lemma_le_val_bound(buf@);
            lemma_pow256_values();
        }
        Ok(
            if v < 0x8000_0000_0000_0000_0000_0000_0000_0000u128 {
                v as i128
            } else {
                ((v - 0x8000_0000_0000_0000_0000_0000_0000_0000u128) as i128) + i128::MIN
            },
        )
    }
}

/// The shared shape of every signed round trip: a value in the `w`-byte
/// signed range encodes through its two's-complement form to exactly `w`
/// bytes, and reads back out of any stream that starts with them.
proof fn lemma_roundtrip_signed(v: int, w: nat, rest: Seq<u8>)
    requires
        w >= 1,
        -(pow256(w) / 2) <= v < pow256(w) / 2,
    ensures
        le_bytes(unsigned_of(v, w), w).len() == w,
        (le_bytes(unsigned_of(v, w), w) + rest).len() == w + rest.len(),
        (le_bytes(unsigned_of(v, w), w) + rest).take(w as int) == le_bytes(unsigned_of(v, w), w),
        signed_of(le_val((le_bytes(unsigned_of(v, w), w) + rest).take(w as int)), w) == v,
{
    lemma_unsigned_form(v, w);
    lemma_roundtrip_unsigned(unsigned_of(v, w), w, rest);
    lemma_signed_roundtrip(v, w);
}

/// Round trip: decoding the encoding of any i8, with anything after it,
/// gives the value back and consumes exactly its one byte.
pub proof fn lemma_roundtrip_i8(v: i8, rest: Seq<u8>)
    ensures
        v.enc_static().len() == 1,
        <i8 as FromBytes>::dec_ok(v.enc_static() + rest),
        <i8 as FromBytes>::dec_val(v.enc_static() + rest) == v,
        <i8 as FromBytes>::dec_len(v.enc_static() + rest) == v.enc_static().len(),
{
    lemma_pow256_values();
    lemma_roundtrip_signed(v as int, 1, rest);
}


/// Round trip: decoding the encoding of any i16, with anything after it,
/// gives the value back and consumes exactly its two bytes.
pub proof fn lemma_roundtrip_i16(v: i16, rest: Seq<u8>)
    ensures
        v.enc_static().len() == 2,
        <i16 as FromBytes>::dec_ok(v.enc_static() + rest),
        <i16 as FromBytes>::dec_val(v.enc_static() + rest) == v,
        <i16 as FromBytes>::dec_len(v.enc_static() + rest) == v.enc_static().len(),
{
    lemma_pow256_values();
    lemma_roundtrip_signed(v as int, 2, rest);
}


/// Round trip: decoding the encoding of any i32, with anything after it,
/// gives the value back and consumes exactly its four bytes.
pub proof fn lemma_roundtrip_i32(v: i32, rest: Seq<u8>)
    ensures
        v.enc_static().len() == 4,
        <i32 as FromBytes>::dec_ok(v.enc_static() + rest),
        <i32 as FromBytes>::dec_val(v.enc_static() + rest) == v,
        <i32 as FromBytes>::dec_len(v.enc_static() + rest) == v.enc_static().len(),
{
    lemma_pow256_values();
    lemma_roundtrip_signed(v as int, 4, rest);
}


/// Round trip: decoding the encoding of any i64, with anything after it,
/// gives the value back and consumes exactly its eight bytes.
pub proof fn lemma_roundtrip_i64(v: i64, rest: Seq<u8>)
    ensures
        v.enc_static().len() == 8,
        <i64 as FromBytes>::dec_ok(v.enc_static() + rest),
        <i64 as FromBytes>::dec_val(v.enc_static() + rest) == v,
        <i64 as FromBytes>::dec_len(v.enc_static() + rest) == v.enc_static().len(),
{
    lemma_pow256_values();
    lemma_roundtrip_signed(v as int, 8, rest);
}


/// Round trip: decoding the encoding of any i128, with anything after it,
/// gives the value back and consumes exactly its sixteen bytes.
pub proof fn lemma_roundtrip_i128(v: i128, rest: Seq<u8>)
    ensures
        v.enc_static().len() == 16,
        <i128 as FromBytes>::dec_ok(v.enc_static() + rest),
        <i128 as FromBytes>::dec_val(v.enc_static() + rest) == v,
        <i128 as FromBytes>::dec_len(v.enc_static() + rest) == v.enc_static().len(),
{
    lemma_pow256_values();
    lemma_roundtrip_signed(v as int, 16, rest);
}


/// Relies on core's char::from_u32: it yields a character for exactly those
/// values that are Unicode scalar values (no surrogates, nothing above the
/// maximum codepoint), and that character carries the given value.
pub assume_specification[ char::from_u32 ](i: u32) -> (r: Option<char>)
    ensures
        match r {
            Some(c) => is_scalar(i) && c as u32 == i,
            None => !is_scalar(i),
        },
;

impl IntoBytesStatic for char {
    open spec fn enc_static(&self) -> Seq<u8> {
        le_bytes((*self as u32) as nat, 4)
    }

    open spec fn encodable_static(&self) -> bool {
        true
    }

    fn into_bytes_static(&self) -> (b: ByteBuffer) {
        let temp = *self as u32;
        proof {
            lemma_pow256_values();
        }
        ByteBuffer::new(le_encode(temp as u128, 4))
    }
}

impl FromBytes for char {
    open spec fn dec_ok(bytes: Seq<u8>) -> bool {
        bytes.len() >= 4 && is_scalar(le_val(bytes.take(4)) as u32)
    }

    open spec fn dec_val(bytes: Seq<u8>) -> char {
        (le_val(bytes.take(4)) as u32) as char
    }

    open spec fn dec_len(bytes: Seq<u8>) -> int {
        4
    }

    open spec fn dec_short(bytes: Seq<u8>) -> bool {
        bytes.len() < 4
    }

    proof fn dec_parts(bytes: Seq<u8>) {
    }

    fn from_io_bytes<S: IoByteSource>(bytes: &mut S) -> (r: Result<Self, ByteErr>) {
        let buf = match take_n_io(bytes, 4) {
            Ok(b) => b,
            Err(e) => {
                return Err(e);
            },
        };
        let v = le_decode(&buf);
        proof {
            lemma_le_val_bound(buf@);
            lemma_pow256_values();
        }
        let temp = v as u32;
        if let Some(character) = char::from_u32(temp) {
            proof {
                vstd::utf8::char_u32_cast(character, temp);
            }
            Ok(character)
        } else {
            Err(ByteErr::InvalidBytes)
        }
    }

    fn from_bytes<S: ByteSource>(bytes: &mut S) -> (r: Result<Self, ByteErr>) {
        let buf = match take_n(bytes, 4) {
            Ok(b) => b,
            Err(e) => {
                return Err(e);
            },
        };
        let v = le_decode(&buf);
        proof {
            lemma_le_val_bound(buf@);
            lemma_pow256_values();
        }
        let temp = v as u32;
        if let Some(character) = char::from_u32(temp) {
            proof {
                vstd::utf8::char_u32_cast(character, temp);
            }
            Ok(character)
        } else {
            Err(ByteErr::InvalidBytes)
        }
    }
}

/// Round trip: decoding the encoding of any char, with anything after it,
/// gives the character back and consumes exactly its four bytes.
pub proof fn lemma_roundtrip_char(v: char, rest: Seq<u8>)
    ensures
        v.enc_static().len() == 4,
        <char as FromBytes>::dec_ok(v.enc_static() + rest),
        <char as FromBytes>::dec_val(v.enc_static() + rest) == v,
        <char as FromBytes>::dec_len(v.enc_static() + rest) == v.enc_static().len(),
{
    lemma_pow256_values();
    vstd::utf8::char_is_scalar(v);
    lemma_roundtrip_unsigned((v as u32) as nat, 4, rest);
    vstd::utf8::char_u32_cast(v, v as u32);
}

} // verus!
