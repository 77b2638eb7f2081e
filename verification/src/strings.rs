//! The length-prefixed string codec: a four-byte little-endian UTF-8 byte
//! length, then the raw UTF-8 bytes.  The count is bytes, not characters.
//! Decoding reinterprets the raw bytes as UTF-8 with lossy repair of
//! ill-formed runs rather than rejection, so it never reports invalid input.

use crate::take_n;
use crate::take_n_io;
use crate::wire::{le_bytes, le_val, lemma_le_bytes_len, lemma_le_roundtrip, lemma_pow256_values};
use crate::ByteBuffer;
use crate::ByteErr;
use crate::ByteSource;
use crate::FromBytes;
use crate::IntoBytes;
use crate::IoByteSource;
use vstd::prelude::*;
use vstd::string::StrSliceExecFns;
use vstd::utf8::{
    decode_first_scalar,
    decode_utf8,
    encode_scalar,
    encode_utf8,
    encode_utf8_decode_utf8,
    encode_utf8_valid_utf8,
    is_scalar,
    length_of_first_scalar,
    pop_first_scalar,
    take_first_scalar,
    valid_first_scalar,
    valid_utf8,
};

verus! {

/// The characters raw bytes stand for under lossy repair: each well-formed
/// scalar encoding yields its character; any other byte costs one position
/// and yields the replacement character.
pub open spec fn decode_lossy(bytes: Seq<u8>) -> Seq<char>
    decreases bytes.len(),
{
    if bytes.len() == 0 {
        Seq::empty()
    } else if valid_first_scalar(bytes) && pop_first_scalar(bytes).len() < bytes.len() {
        // the length guard keeps the recursion decreasing; a well-formed
        // first scalar always satisfies it
        seq![decode_first_scalar(bytes) as char] + decode_lossy(pop_first_scalar(bytes))
    } else {
        seq!['\u{fffd}'] + decode_lossy(bytes.drop_first())
    }
}

/// A well-formed first scalar keeps at least one byte, so repair always
/// advances.
proof fn lemma_first_scalar_len(s: Seq<u8>)
    requires
        valid_first_scalar(s),
    ensures
        1 <= length_of_first_scalar(s) <= s.len(),
        pop_first_scalar(s).len() < s.len(),
{
}

/// On well-formed UTF-8, lossy repair changes nothing: it reads exactly the
/// characters the bytes encode.
pub proof fn lemma_decode_lossy_valid(bytes: Seq<u8>)
    requires
        valid_utf8(bytes),
    ensures
        decode_lossy(bytes) == decode_utf8(bytes),
    decreases bytes.len(),
{
    if bytes.len() > 0 {
        lemma_first_scalar_len(bytes);
        lemma_decode_lossy_valid(pop_first_scalar(bytes));
    }
}

/// Encoding one more character appends that character's scalar encoding.
proof fn lemma_encode_utf8_snoc(chars: Seq<char>, c: char)
    ensures
        encode_utf8(chars.push(c)) == encode_utf8(chars) + encode_scalar(c as u32),
    decreases chars.len(),
{
    if chars.len() == 0 {
        assert(chars.push(c).drop_first() =~= Seq::<char>::empty());
        assert(chars.push(c)[0] == c);
        assert(encode_utf8(Seq::<char>::empty()) =~= Seq::<u8>::empty());
        assert(encode_utf8(chars.push(c)) =~= encode_utf8(chars) + encode_scalar(c as u32));
    } else {
        assert(chars.push(c).drop_first() =~= chars.drop_first().push(c));
        assert(chars.push(c)[0] == chars[0]);
        lemma_encode_utf8_snoc(chars.drop_first(), c);
        assert(encode_utf8(chars.push(c)) =~= encode_utf8(chars) + encode_scalar(c as u32));
    }
}

/// What holds of the first scalar holds of its own bytes taken alone: the
/// predicates read only the bytes the scalar occupies.
proof fn lemma_first_scalar_take(s: Seq<u8>)
    requires
        valid_first_scalar(s),
    ensures
        valid_first_scalar(take_first_scalar(s)),
        decode_first_scalar(take_first_scalar(s)) == decode_first_scalar(s),
        length_of_first_scalar(take_first_scalar(s)) == length_of_first_scalar(s),
        valid_utf8(take_first_scalar(s)),
{
    lemma_first_scalar_len(s);
    let t = take_first_scalar(s);
    assert(t.len() == length_of_first_scalar(s));
    assert(forall|k: int| 0 <= k < t.len() ==> t[k] == s[k]);
    assert(valid_first_scalar(t) && decode_first_scalar(t) == decode_first_scalar(s)
        && length_of_first_scalar(t) == length_of_first_scalar(s));
    assert(pop_first_scalar(t) =~= Seq::<u8>::empty());
    assert(valid_utf8(Seq::<u8>::empty()));
    assert(valid_utf8(t));
}

/// Relies on std's String::from_utf8: a vector holding well-formed UTF-8
/// becomes the string made of exactly those bytes.
#[verifier::external_body]
fn string_from_utf8(v: Vec<u8>) -> (r: String)
    requires
        valid_utf8(v@),
    ensures
        encode_utf8(r@) == v@,
{
    match String::from_utf8(v) {
        Ok(s) => s,
        Err(_) => String::new(),
    }
}

/// Classifies the byte run starting at `i`: the scalar value and its width
/// when a well-formed scalar encoding starts there, nothing otherwise.
fn scan_scalar(v: &Vec<u8>, i: usize) -> (r: Option<(u32, usize)>)
    requires
        i < v@.len(),
    ensures
        match r {
            Some(p) => valid_first_scalar(v@.skip(i as int)) && p.0 == decode_first_scalar(
                v@.skip(i as int),
            ) && p.1 == length_of_first_scalar(v@.skip(i as int)) && i + p.1 <= v@.len()
                && is_scalar(p.0),
            None => !valid_first_scalar(v@.skip(i as int)),
        },
{
    let ghost s = v@.skip(i as int);
    let n = v.len();
    let b0 = v[i];
    proof {
        assert(s[0] == v@[i as int]);
    }
    if b0 <= 0x7f {
        let cp = (b0 & 0x7f) as u32;
        proof {
            assert(b0 & 0x7f <= 0x7f) by (bit_vector);
        }
        Some((cp, 1))
    } else if 0xc0 <= b0 && b0 <= 0xdf {
        if i + 1 >= n {
            return None;
        }
        let b1 = v[i + 1];
        proof {
            assert(s.len() >= 2 && s[1] == v@[i + 1]);
        }
        if !(0x80 <= b1 && b1 <= 0xbf) {
            return None;
        }
        let cp = (((b0 & 0x1f) as u32) << 6) | ((b1 & 0x3f) as u32);
        proof {
            assert(((((b0 & 0x1f) as u32) << 6) | ((b1 & 0x3f) as u32)) <= 0x7ff) by (bit_vector);
        }
        if cp < 0x80 {
            return None;
        }
        Some((cp, 2))
    } else if 0xe0 <= b0 && b0 <= 0xef {
        if n - i < 3 {
            return None;
        }
        let b1 = v[i + 1];
        let b2 = v[i + 2];
        proof {
            assert(s.len() >= 3 && s[1] == v@[i + 1] && s[2] == v@[i + 2]);
        }
        if !(0x80 <= b1 && b1 <= 0xbf) || !(0x80 <= b2 && b2 <= 0xbf) {
            return None;
        }
        let cp = (((b0 & 0x0f) as u32) << 12) | (((b1 & 0x3f) as u32) << 6) | ((b2 & 0x3f) as u32);
        proof {
            assert(((((b0 & 0x0f) as u32) << 12) | (((b1 & 0x3f) as u32) << 6) | ((b2
                & 0x3f) as u32)) <= 0xffff) by (bit_vector);
        }
        if cp < 0x800 {
            return None;
        }
        if 0xd800 <= cp && cp <= 0xdfff {
            return None;
        }
        Some((cp, 3))
    } else if 0xf0 <= b0 && b0 <= 0xf7 {
        if n - i < 4 {
            return None;
        }
        let b1 = v[i + 1];
        let b2 = v[i + 2];
        let b3 = v[i + 3];
        proof {
            assert(s.len() >= 4 && s[1] == v@[i + 1] && s[2] == v@[i + 2] && s[3] == v@[i + 3]);
        }
        if !(0x80 <= b1 && b1 <= 0xbf) || !(0x80 <= b2 && b2 <= 0xbf) || !(0x80 <= b3 && b3
            <= 0xbf) {
            return None;
        }
        let cp = (((b0 & 0x07) as u32) << 18) | (((b1 & 0x3f) as u32) << 12) | (((b2
            & 0x3f) as u32) << 6) | ((b3 & 0x3f) as u32);
        if cp < 0x10000 || cp > 0x10ffff {
            return None;
        }
        Some((cp, 4))
    } else {
        None
    }
}


/// Reinterprets raw bytes as text with lossy repair: each well-formed scalar
/// run is kept as its character, anything else costs one byte and becomes
/// the replacement character.
fn utf8_lossy(v: &Vec<u8>) -> (r: String)
    ensures
        r@ == decode_lossy(v@),
{
    let mut out: Vec<u8> = Vec::new();
    let ghost mut chars: Seq<char> = Seq::empty();
    let mut i: usize = 0;
    proof {
        assert(v@.skip(0) =~= v@);
        assert(out@ =~= encode_utf8(chars));
        assert(decode_lossy(v@) =~= chars + decode_lossy(v@.skip(0)));
    }
    while i < v.len()
        invariant
            i <= v@.len(),
            out@ == encode_utf8(chars),
            decode_lossy(v@) == chars + decode_lossy(v@.skip(i as int)),
        decreases v@.len() - i,
    {
        let ghost s = v@.skip(i as int);
        match scan_scalar(v, i) {
            Some(p) => {
                let cp = p.0;
                let w = p.1;
                let c = match char::from_u32(cp) {
                    Some(c) => c,
                    None => vstd::pervasive::unreached(),
                };
                let ghost out0 = out@;
                let end = i + w;
                let mut j: usize = i;
                proof {
                    assert(out@ =~= out0 + v@.subrange(i as int, j as int));
                }
                while j < end
                    invariant
                        i <= j <= end,
                        end == i + w,
                        i + w <= v@.len(),
                        out@ == out0 + v@.subrange(i as int, j as int),
                    decreases end - j,
                {
                    out.push(v[j]);
                    j = j + 1;
                    proof {
                        assert(out@ =~= out0 + v@.subrange(i as int, j as int));
                    }
                }
                proof {
                    lemma_first_scalar_len(s);
                    lemma_first_scalar_take(s);
                    vstd::utf8::char_u32_cast(c, cp);
                    let t = take_first_scalar(s);
                    assert(v@.subrange(i as int, (i + w) as int) =~= t);
                    vstd::utf8::decode_utf8_first_scalar(t);
                    assert(take_first_scalar(t) =~= t);
                    assert(decode_first_scalar(t) == cp);
                    assert((cp as char) == c);
                    assert(((decode_first_scalar(t) as char) as u32) == cp);
                    assert(encode_scalar(cp) == t);
                    lemma_encode_utf8_snoc(chars, c);
                    chars = chars.push(c);
                    assert(out@ =~= encode_utf8(chars));
                    assert(pop_first_scalar(s) =~= v@.skip((i + w) as int));
                    assert(decode_lossy(s) == seq![decode_first_scalar(s) as char] + decode_lossy(
                        pop_first_scalar(s),
                    ));
                    assert(decode_first_scalar(s) as char == c);
                    assert(decode_lossy(v@) =~= chars + decode_lossy(v@.skip((i + w) as int)));
                }
                i = i + w;
            },
            None => {
                out.push(0xef);
                out.push(0xbf);
                out.push(0xbd);
                proof {
                    let c = '\u{fffd}';
                    assert(c as u32 == 0xfffd);
                    assert(vstd::utf8::has_width_3_encoding(0xfffd));
                    assert(vstd::utf8::leading_byte_width_3(0xfffd) == 0xef) by {
                        assert(0xE0u8 | ((0xfffdu32 >> 12) & 0x0F) as u8 == 0xef) by (bit_vector);
                    }
                    assert(vstd::utf8::second_last_continuation_byte(0xfffd) == 0xbf) by {
                        assert(0x80u8 | ((0xfffdu32 >> 6) & 0x3F) as u8 == 0xbf) by (bit_vector);
                    }
                    assert(vstd::utf8::last_continuation_byte(0xfffd) == 0xbd) by {
                        assert(0x80u8 | (0xfffdu32 & 0x3F) as u8 == 0xbd) by (bit_vector);
                    }
                    assert(encode_scalar(c as u32) =~= seq![0xefu8, 0xbfu8, 0xbdu8]);
                    lemma_encode_utf8_snoc(chars, c);
                    chars = chars.push(c);
                    assert(out@ =~= encode_utf8(chars));
                    assert(s.drop_first() =~= v@.skip(i + 1));
                    assert(decode_lossy(s) == seq![c] + decode_lossy(s.drop_first()));
                    assert(decode_lossy(v@) =~= chars + decode_lossy(v@.skip(i + 1)));
                }
                i = i + 1;
            },
        }
    }
    proof {
        assert(v@.skip(v@.len() as int) =~= Seq::<u8>::empty());
        assert(decode_lossy(Seq::<u8>::empty()) =~= Seq::<char>::empty());
        assert(decode_lossy(v@) =~= chars);
        encode_utf8_valid_utf8(chars);
    }
    let r = string_from_utf8(out);
    proof {
        encode_utf8_decode_utf8(chars);
        encode_utf8_decode_utf8(r@);
        assert(r@ == chars);
    }
    r
}

impl IntoBytes for str {
    open spec fn enc(&self) -> Seq<u8> {
        le_bytes(encode_utf8(self@).len(), 4) + encode_utf8(self@)
    }

    open spec fn encodable(&self) -> bool {
        encode_utf8(self@).len() < 0x1_0000_0000
    }

    fn into_bytes(&self) -> (b: ByteBuffer) {
        let mut bytes = self.as_bytes_vec();
        let len = bytes.len() as u32;
        proof {
            lemma_pow256_values();
        }
        let mut out = crate::wire::le_encode(len as u128, 4);
        out.append(&mut bytes);
        proof {
            assert(out@ =~= self.enc());
        }
        ByteBuffer::new(out)
    }
}

impl FromBytes for String {
    open spec fn dec_ok(bytes: Seq<u8>) -> bool {
        bytes.len() >= 4 && bytes.len() >= 4 + le_val(bytes.take(4))
    }

    open spec fn dec_val(bytes: Seq<u8>) -> Seq<char> {
        decode_lossy(bytes.subrange(4, 4 + le_val(bytes.take(4)) as int))
    }

    open spec fn dec_len(bytes: Seq<u8>) -> int {
        4 + le_val(bytes.take(4)) as int
    }

    open spec fn dec_short(bytes: Seq<u8>) -> bool {
        bytes.len() < 4 || bytes.len() < 4 + le_val(bytes.take(4))
    }

    proof fn dec_parts(bytes: Seq<u8>) {
    }

    fn from_bytes<S: ByteSource>(bytes: &mut S) -> (r: Result<Self, ByteErr>) {
        let ghost s0 = bytes.bytes();
        let len32 = match u32::from_bytes(bytes) {
            Ok(l) => l,
            Err(e) => {
                return Err(e);
            },
        };
        let count = len32 as usize;
        proof {
            crate::wire::lemma_le_val_bound(s0.take(4));
            lemma_pow256_values();
        }
        let raw = match take_n(bytes, count) {
            Ok(b) => b,
            Err(e) => {
                return Err(e);
            },
        };
        let text = utf8_lossy(&raw);
        proof {
            assert(raw@ =~= s0.subrange(4, 4 + le_val(s0.take(4)) as int));
            assert(bytes.bytes() =~= s0.skip(4 + le_val(s0.take(4)) as int));
        }
        Ok(text)
    }

    fn from_io_bytes<S: IoByteSource>(bytes: &mut S) -> (r: Result<Self, ByteErr>) {
        let ghost s0 = bytes.bytes();
        let len32 = match u32::from_io_bytes(bytes) {
            Ok(l) => l,
            Err(e) => {
                return Err(e);
            },
        };
        let count = len32 as usize;
        proof {
            crate::wire::lemma_le_val_bound(s0.take(4));
            lemma_pow256_values();
        }
        let raw = match take_n_io(bytes, count) {
            Ok(b) => b,
            Err(e) => {
                return Err(e);
            },
        };
        let text = utf8_lossy(&raw);
        proof {
            assert(raw@ =~= s0.subrange(4, 4 + le_val(s0.take(4)) as int));
            assert(bytes.bytes() =~= s0.skip(4 + le_val(s0.take(4)) as int));
        }
        Ok(text)
    }
}

/// The byte sequence a character sequence encodes to: the four-byte count of
/// its UTF-8 bytes, then those bytes.
pub open spec fn text_enc(text: Seq<char>) -> Seq<u8> {
    le_bytes(encode_utf8(text).len(), 4) + encode_utf8(text)
}


pub proof fn lemma_roundtrip_string(text: Seq<char>, rest: Seq<u8>)
    requires
        encode_utf8(text).len() < 0x1_0000_0000,
    ensures
        (<String as FromBytes>::dec_ok(text_enc(text) + rest)),
        (<String as FromBytes>::dec_val(text_enc(text) + rest) == text),
        (<String as FromBytes>::dec_len(text_enc(text) + rest) == text_enc(text).len()),
{
    let raw = encode_utf8(text);
    lemma_pow256_values();
    lemma_le_bytes_len(raw.len(), 4);
    lemma_le_roundtrip(raw.len(), 4);
    let t = text_enc(text) + rest;
    assert(t.take(4) =~= le_bytes(raw.len(), 4));
    assert(t.subrange(4, 4 + raw.len() as int) =~= raw);
    encode_utf8_valid_utf8(text);
    lemma_decode_lossy_valid(raw);
    encode_utf8_decode_utf8(text);
}

} // verus!
