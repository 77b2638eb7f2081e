//! The little-endian arithmetic model of the wire convention: the byte
//! sequence a value stands for, the value a byte sequence stands for, and the
//! facts that tie the two together.

use vstd::arithmetic::div_mod::{
    lemma_fundamental_div_mod,
    lemma_fundamental_div_mod_converse_mod,
    lemma_small_mod,
};
use vstd::prelude::*;

verus! {

/// 256 raised to `w`: how many values `w` bytes can hold.
pub open spec fn pow256(w: nat) -> nat
    decreases w,
{
    if w == 0 {
        1
    } else {
        256 * pow256((w - 1) as nat)
    }
}

/// The `w`-byte little-endian form of `v`: least significant byte first.
pub open spec fn le_bytes(v: nat, w: nat) -> Seq<u8>
    decreases w,
{
    if w == 0 {
        Seq::empty()
    } else {
        seq![(v % 256) as u8] + le_bytes(v / 256, (w - 1) as nat)
    }
}

/// The value a little-endian byte sequence stands for.
pub open spec fn le_val(s: Seq<u8>) -> nat
    decreases s.len(),
{
    if s.len() == 0 {
        0
    } else {
        (s[0] + 256 * le_val(s.drop_first())) as nat
    }
}

/// Reads a signed value out of its `w`-byte two's-complement unsigned form.
pub open spec fn signed_of(u: nat, w: nat) -> int {
    if u < pow256(w) / 2 {
        u as int
    } else {
        u - pow256(w)
    }
}

/// The `w`-byte two's-complement unsigned form of a signed value.
pub open spec fn unsigned_of(v: int, w: nat) -> nat {
    (v % (pow256(w) as int)) as nat
}

/// The concrete sizes of every width the fixed-width table uses.
pub proof fn lemma_pow256_values()
    ensures
        pow256(1) == 0x100,
        pow256(2) == 0x1_0000,
        pow256(4) == 0x1_0000_0000,
        pow256(8) == 0x1_0000_0000_0000_0000,
        pow256(15) == 0x1_0000_0000_0000_0000_0000_0000_0000_00,
        pow256(16) == 0x1_0000_0000_0000_0000_0000_0000_0000_0000,
{
    assert(pow256(0) == 1);
    assert(pow256(1) == 0x100);
    assert(pow256(2) == 0x1_0000);
    assert(pow256(3) == 0x1_0000_00);
    assert(pow256(4) == 0x1_0000_0000);
    assert(pow256(5) == 0x1_0000_0000_00);
    assert(pow256(6) == 0x1_0000_0000_0000);
    assert(pow256(7) == 0x1_0000_0000_0000_00);
    assert(pow256(8) == 0x1_0000_0000_0000_0000);
    assert(pow256(9) == 0x1_0000_0000_0000_0000_00);
    assert(pow256(10) == 0x1_0000_0000_0000_0000_0000);
    assert(pow256(11) == 0x1_0000_0000_0000_0000_0000_00);
    assert(pow256(12) == 0x1_0000_0000_0000_0000_0000_0000);
    assert(pow256(13) == 0x1_0000_0000_0000_0000_0000_0000_00);
    assert(pow256(14) == 0x1_0000_0000_0000_0000_0000_0000_0000);
    assert(pow256(15) == 0x1_0000_0000_0000_0000_0000_0000_0000_00);
    assert(pow256(16) == 0x1_0000_0000_0000_0000_0000_0000_0000_0000);
}

/// A longer width never holds fewer values.
pub proof fn lemma_pow256_increases(w1: nat, w2: nat)
    requires
        w1 <= w2,
    ensures
        pow256(w1) <= pow256(w2),
    decreases w2,
{
    if w1 < w2 {
        lemma_pow256_increases(w1, (w2 - 1) as nat);
    }
}

/// The little-endian form of a value always has exactly the asked-for width.
pub proof fn lemma_le_bytes_len(v: nat, w: nat)
    ensures
        le_bytes(v, w).len() == w,
    decreases w,
{
    if w > 0 {
        lemma_le_bytes_len(v / 256, (w - 1) as nat);
    }
}

/// A `w`-byte sequence can only stand for a value below `pow256(w)`.
pub proof fn lemma_le_val_bound(s: Seq<u8>)
    ensures
        le_val(s) < pow256(s.len()),
    decreases s.len(),
{
    if s.len() > 0 {
        lemma_le_val_bound(s.drop_first());
    }
}

/// Round trip: reading back the `w`-byte little-endian form of any value that
/// fits in `w` bytes gives that value again.
pub proof fn lemma_le_roundtrip(v: nat, w: nat)
    requires
        v < pow256(w),
    ensures
        le_val(le_bytes(v, w)) == v,
    decreases w,
{
    if w > 0 {
        let head: u8 = (v % 256) as u8;
        let tail = le_bytes(v / 256, (w - 1) as nat);
        assert((seq![head] + tail).drop_first() =~= tail);
        assert(v / 256 < pow256((w - 1) as nat)) by {
            if v / 256 >= pow256((w - 1) as nat) {
                assert(256 * (v / 256) >= 256 * pow256((w - 1) as nat)) by (nonlinear_arith)
                    requires
                        v / 256 >= pow256((w - 1) as nat),
                ;
                lemma_fundamental_div_mod(v as int, 256);
            }
        }
        lemma_le_roundtrip(v / 256, (w - 1) as nat);
        lemma_fundamental_div_mod(v as int, 256);
    }
}

/// The two's-complement form of a signed value in range, spelled out: the
/// value itself when it is not negative, the value shifted up by one full
/// width when it is.
pub proof fn lemma_unsigned_form(v: int, w: nat)
    requires
        w >= 1,
        -(pow256(w) as int) < v < pow256(w) as int,
    ensures
        v >= 0 ==> unsigned_of(v, w) == v,
        v < 0 ==> unsigned_of(v, w) == v + pow256(w),
{
    let m = pow256(w) as int;
    if v >= 0 {
        lemma_small_mod(v as nat, pow256(w));
    } else {
        assert(v == (-1) * m + (v + m)) by (nonlinear_arith);
        lemma_fundamental_div_mod_converse_mod(v, m, -1, v + m);
    }
}

/// Round trip for signed values: the two's-complement form of a value in the
/// signed range reads back as that value.
pub proof fn lemma_signed_roundtrip(v: int, w: nat)
    requires
        w >= 1,
        -(pow256(w) / 2) <= v < pow256(w) / 2,
    ensures
        signed_of(unsigned_of(v, w), w) == v,
{
    let m = pow256(w);
    assert(m == 2 * (128 * pow256((w - 1) as nat)));
    assert(m / 2 == 128 * pow256((w - 1) as nat));
    lemma_unsigned_form(v, w);
}

/// Writes the `width`-byte little-endian form of `v`.
pub fn le_encode(v: u128, width: usize) -> (r: Vec<u8>)
    requires
        (v as nat) < pow256(width as nat),
    ensures
        r@ == le_bytes(v as nat, width as nat),
{
    let mut out: Vec<u8> = Vec::new();
    let mut cur: u128 = v;
    let mut i: usize = 0;
    proof {
        assert(le_bytes(v as nat, width as nat) =~= out@ + le_bytes(
            cur as nat,
            (width - i) as nat,
        ));
    }
    while i < width
        invariant
            i <= width,
            out@.len() == i,
            le_bytes(v as nat, width as nat) == out@ + le_bytes(cur as nat, (width - i) as nat),
        decreases width - i,
    {
        let ghost rest = (width - i - 1) as nat;
        proof {
            assert(le_bytes(cur as nat, (width - i) as nat) == seq![((cur as nat) % 256) as u8]
                + le_bytes((cur as nat) / 256, rest));
        }
        let b: u8 = (cur % 256) as u8;
        out.push(b);
        cur = cur / 256;
        i = i + 1;
        proof {
            assert(le_bytes(v as nat, width as nat) =~= out@ + le_bytes(
                cur as nat,
                (width - i) as nat,
            ));
        }
    }
    out
}

/// Reads the value a little-endian byte sequence of at most 16 bytes stands
/// for.
pub fn le_decode(bytes: &Vec<u8>) -> (v: u128)
    requires
        bytes@.len() <= 16,
    ensures
        v as nat == le_val(bytes@),
{
    let mut acc: u128 = 0;
    let mut i: usize = bytes.len();
    proof {
        assert(bytes@.skip(i as int) =~= Seq::<u8>::empty());
    }
    while i > 0
        invariant
            i <= bytes@.len() <= 16,
            acc as nat == le_val(bytes@.skip(i as int)),
        decreases i,
    {
        i = i - 1;
        proof {
            let s = bytes@.skip(i as int);
            assert(s.drop_first() =~= bytes@.skip(i + 1));
            lemma_le_val_bound(s);
            lemma_pow256_increases(s.len(), 16);
            lemma_pow256_values();
            assert(le_val(s) == s[0] + 256 * le_val(bytes@.skip(i + 1)));
        }
        acc = acc * 256 + (bytes[i] as u128);
    }
    proof {
        assert(bytes@.skip(0) =~= bytes@);
    }
    acc
}

} // verus!
