//! Length-prefixed codecs for homogeneous sequences: a four-byte
//! little-endian element count, then each element's own encoding in order.
//! Nesting needs no special casing: an element's encoding may itself be
//! length-prefixed.

use crate::collect_bytes;
use crate::wire::{le_bytes, le_val, lemma_pow256_values};
use crate::ByteBuffer;
use crate::ByteErr;
use crate::ByteSource;
use crate::FromBytes;
use crate::IntoBytes;
use crate::IntoBytesStatic;
use crate::IoByteSource;
use vstd::prelude::*;
use vstd::slice::slice_index_get;

verus! {

/// The bytes a sequence of elements contributes after its count: each
/// element's own encoding, concatenated in original order.
pub open spec fn elems_enc<T: IntoBytes>(s: Seq<T>) -> Seq<u8>
    decreases s.len(),
{
    if s.len() == 0 {
        Seq::empty()
    } else {
        s[0].enc() + elems_enc(s.drop_first())
    }
}

/// Every element of the sequence fits the wire convention's limits.
pub open spec fn elems_encodable<T: IntoBytes>(s: Seq<T>) -> bool {
    forall|i: int| 0 <= i < s.len() ==> (#[trigger] s[i]).encodable()
}

/// Whether decoding `n` elements off the front of the stream succeeds.
pub open spec fn vec_dec_ok<A: FromBytes>(s: Seq<u8>, n: nat) -> bool
    decreases n,
{
    n == 0 || (A::dec_ok(s) && vec_dec_ok::<A>(s.skip(A::dec_len(s)), (n - 1) as nat))
}

/// The `n` elements decoding yields, as their mathematical views.
pub open spec fn vec_dec_val<A: FromBytes>(s: Seq<u8>, n: nat) -> Seq<<A as DeepView>::V>
    decreases n,
{
    if n == 0 {
        Seq::empty()
    } else {
        seq![A::dec_val(s)] + vec_dec_val::<A>(s.skip(A::dec_len(s)), (n - 1) as nat)
    }
}

/// How many bytes decoding `n` elements consumes.
pub open spec fn vec_dec_len<A: FromBytes>(s: Seq<u8>, n: nat) -> int
    decreases n,
{
    if n == 0 {
        0
    } else {
        A::dec_len(s) + vec_dec_len::<A>(s.skip(A::dec_len(s)), (n - 1) as nat)
    }
}

/// Whether decoding `n` elements runs out of bytes part way.
pub open spec fn vec_dec_short<A: FromBytes>(s: Seq<u8>, n: nat) -> bool
    decreases n,
{
    n > 0 && (A::dec_short(s) || (A::dec_ok(s) && vec_dec_short::<A>(
        s.skip(A::dec_len(s)),
        (n - 1) as nat,
    )))
}

/// Decoding a run of elements succeeds or runs short, never both, and
/// consumes no more than the stream holds.
proof fn lemma_vec_dec_parts<A: FromBytes>(s: Seq<u8>, n: nat)
    ensures
        !(vec_dec_ok::<A>(s, n) && vec_dec_short::<A>(s, n)),
        vec_dec_ok::<A>(s, n) ==> 0 <= vec_dec_len::<A>(s, n) <= s.len(),
    decreases n,
{
    if n > 0 {
        A::dec_parts(s);
        if A::dec_ok(s) {
            lemma_vec_dec_parts::<A>(s.skip(A::dec_len(s)), (n - 1) as nat);
        }
    }
}

/// Decoding one more element extends the run by that element's value and
/// consumed bytes.
proof fn lemma_vec_dec_snoc<A: FromBytes>(s: Seq<u8>, i: nat)
    requires
        vec_dec_ok::<A>(s, i),
        A::dec_ok(s.skip(vec_dec_len::<A>(s, i))),
    ensures
        vec_dec_ok::<A>(s, i + 1),
        vec_dec_val::<A>(s, i + 1) == vec_dec_val::<A>(s, i).push(
            A::dec_val(s.skip(vec_dec_len::<A>(s, i))),
        ),
        vec_dec_len::<A>(s, i + 1) == vec_dec_len::<A>(s, i) + A::dec_len(
            s.skip(vec_dec_len::<A>(s, i)),
        ),
    decreases i,
{
    if i == 0 {
        assert(s.skip(0) =~= s);
        assert(vec_dec_ok::<A>(s.skip(A::dec_len(s)), 0));
        assert(vec_dec_val::<A>(s.skip(A::dec_len(s)), 0) =~= Seq::<<A as DeepView>::V>::empty());
        assert(vec_dec_len::<A>(s.skip(A::dec_len(s)), 0) == 0);
        assert(vec_dec_val::<A>(s, 1) =~= vec_dec_val::<A>(s, 0).push(A::dec_val(s)));
    } else {
        A::dec_parts(s);
        let l0 = A::dec_len(s);
        let t = s.skip(l0);
        lemma_vec_dec_parts::<A>(t, (i - 1) as nat);
        assert(t.skip(vec_dec_len::<A>(t, (i - 1) as nat)) =~= s.skip(
            l0 + vec_dec_len::<A>(t, (i - 1) as nat),
        ));
        lemma_vec_dec_snoc::<A>(t, (i - 1) as nat);
        assert(vec_dec_val::<A>(s, i + 1) =~= vec_dec_val::<A>(s, i).push(
            A::dec_val(s.skip(vec_dec_len::<A>(s, i))),
        ));
    }
}

/// When an element part way through a run cannot be decoded, the whole run
/// cannot: it runs short exactly when that element does.
proof fn lemma_vec_dec_fail<A: FromBytes>(s: Seq<u8>, i: nat, n: nat)
    requires
        i < n,
        vec_dec_ok::<A>(s, i),
        !A::dec_ok(s.skip(vec_dec_len::<A>(s, i))),
    ensures
        !vec_dec_ok::<A>(s, n),
        vec_dec_short::<A>(s, n) == A::dec_short(s.skip(vec_dec_len::<A>(s, i))),
    decreases i,
{
    if i == 0 {
        assert(s.skip(0) =~= s);
    } else {
        A::dec_parts(s);
        let l0 = A::dec_len(s);
        let t = s.skip(l0);
        lemma_vec_dec_parts::<A>(t, (i - 1) as nat);
        assert(t.skip(vec_dec_len::<A>(t, (i - 1) as nat)) =~= s.skip(
            l0 + vec_dec_len::<A>(t, (i - 1) as nat),
        ));
        lemma_vec_dec_fail::<A>(t, (i - 1) as nat, (n - 1) as nat);
    }
}

/// The lazily produced byte sequence over a slice's encoding: the four count
/// bytes come first, then each element's encoding, produced element by
/// element as the sequence is pulled.
pub struct SliceByteIter<'a, T: IntoBytes> {
    elems: &'a [T],
    idx: usize,
    pending: Vec<u8>,
    pos: usize,
}

impl<'a, T: IntoBytes> SliceByteIter<'a, T> {
    #[verifier::type_invariant]
    spec fn wf(&self) -> bool {
        self.idx <= self.elems@.len() && self.pos <= self.pending@.len() && elems_encodable(
            self.elems@.skip(self.idx as int),
        )
    }

    /// Starts the sequence for a slice.
    pub fn new(vec: &'a [T]) -> (it: Self)
        requires
            vec@.len() < 0x1_0000_0000,
            elems_encodable(vec@),
        ensures
            it.bytes() == le_bytes(vec@.len(), 4) + elems_enc(vec@),
    {
        let len = vec.len() as u32;
        let mut prefix = len.into_bytes_static();
        let it = SliceByteIter { elems: vec, idx: 0, pending: collect_bytes(&mut prefix), pos: 0 };
        proof {
            assert(it.elems@.skip(0) =~= vec@);
            assert(it.pending@.skip(0) =~= le_bytes(vec@.len(), 4));
        }
        it
    }
}

impl<'a, T: IntoBytes> ByteSource for SliceByteIter<'a, T> {
    closed spec fn bytes(&self) -> Seq<u8> {
        self.pending@.skip(self.pos as int) + elems_enc(self.elems@.skip(self.idx as int))
    }

    fn next(&mut self) -> (r: Option<u8>) {
        proof {
            use_type_invariant(&*self);
        }
        loop
            invariant
                self.idx <= self.elems@.len(),
                self.pos <= self.pending@.len(),
                elems_encodable(self.elems@.skip(self.idx as int)),
                self.elems == old(self).elems,
                self.bytes() == old(self).bytes(),
            decreases self.elems@.len() - self.idx,
        {
            let ghost pending = self.pending@.skip(self.pos as int);
            let ghost tail = elems_enc(self.elems@.skip(self.idx as int));
            if self.pos < self.pending.len() {
                let value = self.pending[self.pos];
                self.pos = self.pos + 1;
                proof {
                    assert(value == (pending + tail)[0]);
                    assert(self.bytes() =~= (pending + tail).drop_first());
                }
                return Some(value);
            } else if self.idx < self.elems.len() {
                let ghost rest = self.elems@.skip(self.idx as int);
                proof {
                    assert(rest[0] == self.elems@[self.idx as int]);
                    assert(rest[0].encodable());
                }
                let node = slice_index_get(self.elems, self.idx);
                let mut node_bytes = node.into_bytes();
                let refill = collect_bytes(&mut node_bytes);
                proof {
                    assert(rest.drop_first() =~= self.elems@.skip(self.idx + 1));
                    assert forall|j: int| 0 <= j < self.elems@.skip(self.idx + 1).len() implies (
                    #[trigger] self.elems@.skip(self.idx + 1)[j]).encodable() by {
                        assert(self.elems@.skip(self.idx + 1)[j] == self.elems@.skip(
                            self.idx as int,
                        )[j + 1]);
                    }
                    assert(elems_encodable(self.elems@.skip(self.idx + 1)));
                }
                self.pos = 0;
                self.pending = refill;
                self.idx = self.idx + 1;
                proof {
                    assert(elems_enc(rest) == rest[0].enc() + elems_enc(rest.drop_first()));
                    assert(self.pending@.skip(0) =~= self.pending@);
                    assert(self.bytes() =~= old(self).bytes());
                }
            } else {
                proof {
                    assert(elems_enc(self.elems@.skip(self.idx as int)) =~= Seq::<u8>::empty());
                    assert(self.bytes() =~= old(self).bytes());
                    assert(self.bytes().len() == 0);
                }
                return None;
            }
        }
    }
}

impl<T: IntoBytes> IntoBytes for [T] {
    open spec fn enc(&self) -> Seq<u8> {
        le_bytes(self@.len(), 4) + elems_enc(self@)
    }

    open spec fn encodable(&self) -> bool {
        self@.len() < 0x1_0000_0000 && elems_encodable(self@)
    }

    fn into_bytes(&self) -> (b: ByteBuffer) {
        let mut it = SliceByteIter::new(self);
        let v = collect_bytes(&mut it);
        ByteBuffer::new(v)
    }
}

impl<A: FromBytes> FromBytes for Vec<A> {
    open spec fn dec_ok(bytes: Seq<u8>) -> bool {
        bytes.len() >= 4 && vec_dec_ok::<A>(bytes.skip(4), le_val(bytes.take(4)))
    }

    open spec fn dec_val(bytes: Seq<u8>) -> Seq<<A as DeepView>::V> {
        vec_dec_val::<A>(bytes.skip(4), le_val(bytes.take(4)))
    }

    open spec fn dec_len(bytes: Seq<u8>) -> int {
        4 + vec_dec_len::<A>(bytes.skip(4), le_val(bytes.take(4)))
    }

    open spec fn dec_short(bytes: Seq<u8>) -> bool {
        bytes.len() < 4 || vec_dec_short::<A>(bytes.skip(4), le_val(bytes.take(4)))
    }

    proof fn dec_parts(bytes: Seq<u8>) {
        if bytes.len() >= 4 {
            lemma_vec_dec_parts::<A>(bytes.skip(4), le_val(bytes.take(4)));
        }
    }

    fn from_bytes<S: ByteSource>(bytes: &mut S) -> (r: Result<Self, ByteErr>) {
        let ghost s0 = bytes.bytes();
        let len32 = match u32::from_bytes(bytes) {
            Ok(l) => l,
            Err(e) => {
                return Err(e);
            },
        };
        let ghost s1 = bytes.bytes();
        let ghost count = le_val(s0.take(4));
        proof {
            crate::wire::lemma_le_val_bound(s0.take(4));
            lemma_pow256_values();
        }
        let len = len32 as usize;
        let mut vec: Vec<A> = Vec::with_capacity(len);
        let mut i: usize = 0;
        proof {
            assert(s1.skip(0) =~= s1);
            assert(vec.deep_view() =~= vec_dec_val::<A>(s1, 0));
        }
        while i < len
            invariant
                i <= len,
                len == count,
                s0 == old(bytes).bytes(),
                s0.len() >= 4,
                s1 == s0.skip(4),
                count == le_val(s0.take(4)),
                vec_dec_ok::<A>(s1, i as nat),
                vec.deep_view() == vec_dec_val::<A>(s1, i as nat),
                bytes.bytes() == s1.skip(vec_dec_len::<A>(s1, i as nat)),
            decreases len - i,
        {
            let elem = match A::from_bytes(bytes) {
                Ok(v) => v,
                Err(e) => {
                    proof {
                        let rem = s1.skip(vec_dec_len::<A>(s1, i as nat));
                        A::dec_parts(rem);
                        if !(A::dec_ok(rem)) {
                            lemma_vec_dec_fail::<A>(s1, i as nat, count);
                            assert(!<Vec<A> as FromBytes>::dec_ok(s0));
                            assert(A::dec_short(rem) ==> <Vec<A> as FromBytes>::dec_short(s0));
                            assert(!A::dec_short(rem) ==> !<Vec<A> as FromBytes>::dec_short(s0));
                        }
                    }
                    return Err(e);
                },
            };
            vec.push(elem);
            i = i + 1;
            proof {
                let prev = vec_dec_len::<A>(s1, (i - 1) as nat);
                let rem = s1.skip(prev);
                lemma_vec_dec_parts::<A>(s1, (i - 1) as nat);
                A::dec_parts(rem);
                lemma_vec_dec_snoc::<A>(s1, (i - 1) as nat);
                assert(rem.skip(A::dec_len(rem)) =~= s1.skip(prev + A::dec_len(rem)));
                assert(vec.deep_view() =~= vec_dec_val::<A>(s1, i as nat));
            }
        }
        proof {
            lemma_vec_dec_parts::<A>(s1, count);
            assert(s1.skip(vec_dec_len::<A>(s1, count)) =~= s0.skip(
                4 + vec_dec_len::<A>(s1, count),
            ));
        }
        Ok(vec)
    }

    fn from_io_bytes<S: IoByteSource>(bytes: &mut S) -> (r: Result<Self, ByteErr>) {
        let ghost s0 = bytes.bytes();
        let len32 = match u32::from_io_bytes(bytes) {
            Ok(l) => l,
            Err(e) => {
                return Err(e);
            },
        };
        let ghost s1 = bytes.bytes();
        let ghost count = le_val(s0.take(4));
        proof {
            crate::wire::lemma_le_val_bound(s0.take(4));
            lemma_pow256_values();
        }
        let len = len32 as usize;
        let mut vec: Vec<A> = Vec::with_capacity(len);
        let mut i: usize = 0;
        proof {
            assert(s1.skip(0) =~= s1);
            assert(vec.deep_view() =~= vec_dec_val::<A>(s1, 0));
        }
        while i < len
            invariant
                i <= len,
                len == count,
                s0 == old(bytes).bytes(),
                s0.len() >= 4,
                s1 == s0.skip(4),
                count == le_val(s0.take(4)),
                vec_dec_ok::<A>(s1, i as nat),
                vec.deep_view() == vec_dec_val::<A>(s1, i as nat),
                bytes.bytes() == s1.skip(vec_dec_len::<A>(s1, i as nat)),
            decreases len - i,
        {
            let elem = match A::from_io_bytes(bytes) {
                Ok(v) => v,
                Err(e) => {
                    proof {
                        let rem = s1.skip(vec_dec_len::<A>(s1, i as nat));
                        A::dec_parts(rem);
                        if !(A::dec_ok(rem)) {
                            lemma_vec_dec_fail::<A>(s1, i as nat, count);
                        }
                    }
                    return Err(e);
                },
            };
            vec.push(elem);
            i = i + 1;
            proof {
                let prev = vec_dec_len::<A>(s1, (i - 1) as nat);
                let rem = s1.skip(prev);
                lemma_vec_dec_parts::<A>(s1, (i - 1) as nat);
                A::dec_parts(rem);
                lemma_vec_dec_snoc::<A>(s1, (i - 1) as nat);
                assert(rem.skip(A::dec_len(rem)) =~= s1.skip(prev + A::dec_len(rem)));
                assert(vec.deep_view() =~= vec_dec_val::<A>(s1, i as nat));
            }
        }
        proof {
            lemma_vec_dec_parts::<A>(s1, count);
            assert(s1.skip(vec_dec_len::<A>(s1, count)) =~= s0.skip(
                4 + vec_dec_len::<A>(s1, count),
            ));
        }
        Ok(vec)
    }
}

/// The elements of a run of encodings read back in order: decoding the
/// concatenated encodings of the elements of `v`, with anything after them,
/// yields those elements again.
proof fn lemma_vec_roundtrip_elems<A: IntoBytes + FromBytes>(v: Seq<A>, rest: Seq<u8>)
    requires
        forall|e: A, r: Seq<u8>| <A as FromBytes>::dec_ok(#[trigger] (e.enc() + r)),
        forall|e: A, r: Seq<u8>|
            <A as FromBytes>::dec_val(#[trigger] (e.enc() + r)) == e.deep_view(),
        forall|e: A, r: Seq<u8>|
            <A as FromBytes>::dec_len(#[trigger] (e.enc() + r)) == e.enc().len(),
    ensures
        vec_dec_ok::<A>(elems_enc(v) + rest, v.len()),
        vec_dec_val::<A>(elems_enc(v) + rest, v.len()) == Seq::new(
            v.len(),
            |i: int| v[i].deep_view(),
        ),
        vec_dec_len::<A>(elems_enc(v) + rest, v.len()) == elems_enc(v).len(),
    decreases v.len(),
{
    if v.len() == 0 {
        assert(elems_enc(v) + rest =~= rest);
        assert(vec_dec_val::<A>(elems_enc(v) + rest, 0) =~= Seq::new(
            v.len(),
            |i: int| v[i].deep_view(),
        ));
    } else {
        let s = elems_enc(v) + rest;
        let tail_rest = elems_enc(v.drop_first()) + rest;
        assert(s =~= v[0].enc() + tail_rest);
        assert(<A as FromBytes>::dec_ok(v[0].enc() + tail_rest));
        assert(<A as FromBytes>::dec_val(v[0].enc() + tail_rest) == v[0].deep_view());
        assert(<A as FromBytes>::dec_len(v[0].enc() + tail_rest) == v[0].enc().len());
        assert(s.skip(<A as FromBytes>::dec_len(s)) =~= tail_rest);
        lemma_vec_roundtrip_elems::<A>(v.drop_first(), rest);
        assert(vec_dec_val::<A>(s, v.len()) =~= Seq::new(v.len(), |i: int| v[i].deep_view()));
    }
}

/// Round trip for sequences: when every element of a slice reads back out of
/// its own encoding, the whole slice reads back out of its length-prefixed
/// encoding, with anything after it, and consumes exactly its own bytes.
pub proof fn lemma_roundtrip_slice<A: IntoBytes + FromBytes>(v: Seq<A>, rest: Seq<u8>)
    requires
        v.len() < 0x1_0000_0000,
        forall|e: A, r: Seq<u8>| <A as FromBytes>::dec_ok(#[trigger] (e.enc() + r)),
        forall|e: A, r: Seq<u8>|
            <A as FromBytes>::dec_val(#[trigger] (e.enc() + r)) == e.deep_view(),
        forall|e: A, r: Seq<u8>|
            <A as FromBytes>::dec_len(#[trigger] (e.enc() + r)) == e.enc().len(),
    ensures
        <Vec<A> as FromBytes>::dec_ok(le_bytes(v.len(), 4) + elems_enc(v) + rest),
        <Vec<A> as FromBytes>::dec_val(le_bytes(v.len(), 4) + elems_enc(v) + rest) == Seq::new(
            v.len(),
            |i: int| v[i].deep_view(),
        ),
        <Vec<A> as FromBytes>::dec_len(le_bytes(v.len(), 4) + elems_enc(v) + rest) == 4
            + elems_enc(v).len(),
{
    lemma_pow256_values();
    crate::wire::lemma_le_bytes_len(v.len(), 4);
    crate::wire::lemma_le_roundtrip(v.len(), 4);
    let s = le_bytes(v.len(), 4) + (elems_enc(v) + rest);
    assert(le_bytes(v.len(), 4) + elems_enc(v) + rest =~= s);
    assert(s.take(4) =~= le_bytes(v.len(), 4));
    assert(s.skip(4) =~= elems_enc(v) + rest);
    lemma_vec_roundtrip_elems::<A>(v, rest);
}

} // verus!
