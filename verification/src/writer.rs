//! The streaming writer: drains a byte source into a byte sink in bounded
//! chunks, and the chunking model it is proved against.

use crate::ByteSink;
use crate::ByteSource;
use crate::IoFailure;
use crate::WriteBytes;
use vstd::prelude::*;
use vstd::slice::slice_to_vec;

verus! {

/// The chunks a byte sequence falls into when cut every `k` bytes: full
/// chunks of exactly `k` bytes, then whatever remainder is left.
pub open spec fn spec_chunks(s: Seq<u8>, k: int) -> Seq<Seq<u8>>
    recommends
        k > 0,
    decreases s.len(),
{
    if s.len() == 0 || k <= 0 {
        Seq::empty()
    } else if s.len() <= k {
        seq![s]
    } else {
        seq![s.take(k)] + spec_chunks(s.skip(k), k)
    }
}

/// A chunk sequence laid back out flat, in order.
pub open spec fn concat_chunks(cs: Seq<Seq<u8>>) -> Seq<u8>
    decreases cs.len(),
{
    if cs.len() == 0 {
        Seq::empty()
    } else {
        cs[0] + concat_chunks(cs.drop_first())
    }
}

/// Cutting a sequence into chunks loses and reorders nothing: laid back out
/// flat, the chunks are the original sequence.
pub proof fn lemma_chunks_cover(s: Seq<u8>, k: int)
    requires
        k > 0,
    ensures
        concat_chunks(spec_chunks(s, k)) == s,
    decreases s.len(),
{
    if s.len() == 0 {
        assert(concat_chunks(spec_chunks(s, k)) =~= s);
    } else if s.len() <= k {
        let cs = spec_chunks(s, k);
        assert(cs == seq![s]);
        assert(cs.drop_first() =~= Seq::<Seq<u8>>::empty());
        assert(concat_chunks(cs) == cs[0] + concat_chunks(cs.drop_first()));
        assert(cs[0] + Seq::<u8>::empty() =~= s);
    } else {
        let cs = seq![s.take(k)] + spec_chunks(s.skip(k), k);
        assert(cs.drop_first() =~= spec_chunks(s.skip(k), k));
        lemma_chunks_cover(s.skip(k), k);
        assert(concat_chunks(cs) =~= s.take(k) + s.skip(k));
        assert(s.take(k) + s.skip(k) =~= s);
    }
}

/// Every chunk but the last holds exactly `k` bytes, and the last holds
/// between one and `k`.
pub proof fn lemma_chunks_sizes(s: Seq<u8>, k: int)
    requires
        k > 0,
    ensures
        forall|i: int|
            0 <= i < spec_chunks(s, k).len() - 1 ==> (#[trigger] spec_chunks(s, k)[i]).len() == k,
        spec_chunks(s, k).len() > 0 ==> 0 < spec_chunks(s, k).last().len() <= k,
    decreases s.len(),
{
    if s.len() == 0 {
    } else if s.len() <= k {
    } else {
        let cs = spec_chunks(s, k);
        let rest = spec_chunks(s.skip(k), k);
        lemma_chunks_sizes(s.skip(k), k);
        assert(rest.len() > 0);
        assert(cs.last() == rest.last());
        assert forall|i: int| 0 <= i < cs.len() - 1 implies (#[trigger] cs[i]).len() == k by {
            if i > 0 {
                assert(cs[i] == rest[i - 1]);
            }
        }
    }
}

/// Pulls up to `n` bytes from the source; fewer only when the source runs
/// dry.
fn take_up_to<S: ByteSource>(src: &mut S, n: usize) -> (buf: Vec<u8>)
    ensures
        old(src).bytes() == buf@ + final(src).bytes(),
        buf@.len() <= n,
        buf@.len() < n ==> final(src).bytes().len() == 0,
{
    let mut buf: Vec<u8> = Vec::new();
    let mut i: usize = 0;
    proof {
        assert(old(src).bytes() =~= buf@ + src.bytes());
    }
    while i < n
        invariant
            i <= n,
            buf@.len() == i,
            old(src).bytes() == buf@ + src.bytes(),
        decreases n - i,
    {
        match src.next() {
            Some(b) => {
                buf.push(b);
                i = i + 1;
                proof {
                    assert(old(src).bytes() =~= buf@ + src.bytes());
                }
            },
            None => {
                return buf;
            },
        }
    }
    buf
}

impl<T: ByteSink> WriteBytes for T {
    fn write_bytes<S: ByteSource>(&mut self, byte_iter: &mut S, buffer_size: usize) -> (r: Result<
        (),
        IoFailure,
    >) {
        let ghost k = buffer_size as int;
        loop
            invariant
                buffer_size > 0,
                old(self).chunks() + spec_chunks(old(byte_iter).bytes(), k) == self.chunks()
                    + spec_chunks(byte_iter.bytes(), k),
                k == buffer_size as int,
            ensures
                byte_iter.bytes().len() == 0,
                old(self).chunks() + spec_chunks(old(byte_iter).bytes(), k) == self.chunks()
                    + spec_chunks(byte_iter.bytes(), k),
            decreases byte_iter.bytes().len(),
        {
            let ghost s_entry = byte_iter.bytes();
            let ghost chunks_entry = self.chunks();
            let chunk = take_up_to(byte_iter, buffer_size);
            if chunk.len() == 0 {
                proof {
                    assert(s_entry =~= byte_iter.bytes());
                }
                break ;
            }
            proof {
                if s_entry.len() <= k {
                    assert(byte_iter.bytes().len() == 0);
                    assert(chunk@ =~= s_entry);
                    assert(spec_chunks(s_entry, k) =~= seq![chunk@] + spec_chunks(
                        byte_iter.bytes(),
                        k,
                    ));
                } else {
                    assert(chunk@.len() == buffer_size);
                    assert(chunk@ =~= s_entry.take(k));
                    assert(byte_iter.bytes() =~= s_entry.skip(k));
                    assert(spec_chunks(s_entry, k) =~= seq![chunk@] + spec_chunks(
                        byte_iter.bytes(),
                        k,
                    ));
                }
            }
            match self.write_all(chunk.as_slice()) {
                Ok(u) => {
                    proof {
                        assert(self.chunks() == chunks_entry.push(chunk@));
                        assert(old(self).chunks() + spec_chunks(old(byte_iter).bytes(), k)
                            =~= self.chunks() + spec_chunks(byte_iter.bytes(), k));
                    }
                },
                Err(e) => {
                    return Err(e);
                },
            }
        }
        proof {
            assert(spec_chunks(byte_iter.bytes(), k) =~= Seq::<Seq<u8>>::empty());
            assert(old(self).chunks() + spec_chunks(old(byte_iter).bytes(), k) =~= self.chunks());
        }
        Ok(())
    }
}

/// An in-memory sink that keeps every chunk it was handed, in order, and
/// never fails.
pub struct VecSink {
    pub writes: Vec<Vec<u8>>,
}

impl VecSink {
    /// A sink that has received nothing yet.
    pub fn new() -> (s: VecSink)
        ensures
            s.chunks().len() == 0,
    {
        VecSink { writes: Vec::new() }
    }

    /// All received bytes, laid back out flat.
    pub fn received(&self) -> (r: Vec<u8>)
        ensures
            r@ == concat_chunks(self.chunks()),
    {
        let mut out: Vec<u8> = Vec::new();
        let mut i: usize = 0;
        proof {
            assert(self.chunks().take(0) =~= Seq::<Seq<u8>>::empty());
            assert(out@ =~= concat_chunks(self.chunks().take(0)));
        }
        while i < self.writes.len()
            invariant
                i <= self.writes.len(),
                out@ == concat_chunks(self.chunks().take(i as int)),
            decreases self.writes.len() - i,
        {
            let w = &self.writes[i];
            let mut j: usize = 0;
            proof {
                assert(w@.take(0) =~= Seq::<u8>::empty());
                assert(out@ =~= concat_chunks(self.chunks().take(i as int)) + w@.take(0));
            }
            while j < w.len()
                invariant
                    j <= w.len(),
                    i < self.writes.len(),
                    w == &self.writes[i as int],
                    out@ == concat_chunks(self.chunks().take(i as int)) + w@.take(j as int),
                decreases w.len() - j,
            {
                out.push(w[j]);
                j = j + 1;
                proof {
                    assert(out@ =~= concat_chunks(self.chunks().take(i as int)) + w@.take(
                        j as int,
                    ));
                }
            }
            i = i + 1;
            proof {
                lemma_concat_chunks_snoc(self.chunks(), i as int);
                assert(w@.take(w@.len() as int) =~= w@);
                assert(self.chunks()[i - 1] =~= w@);
                assert(out@ =~= concat_chunks(self.chunks().take(i as int)));
            }
        }
        proof {
            assert(self.chunks().take(self.writes.len() as int) =~= self.chunks());
        }
        out
    }
}

/// Flattening one more chunk appends its bytes to the flattening so far.
proof fn lemma_concat_chunks_snoc(cs: Seq<Seq<u8>>, i: int)
    requires
        0 < i <= cs.len(),
    ensures
        concat_chunks(cs.take(i)) == concat_chunks(cs.take(i - 1)) + cs[i - 1],
    decreases i,
{
    if i == 1 {
        assert(cs.take(0) =~= Seq::<Seq<u8>>::empty());
        assert(cs.take(1).drop_first() =~= Seq::<Seq<u8>>::empty());
        assert(cs.take(1)[0] == cs[0]);
        assert(concat_chunks(cs.take(1)) == cs.take(1)[0] + concat_chunks(cs.take(1).drop_first()));
        assert(cs[0] + Seq::<u8>::empty() =~= cs[0]);
        assert(concat_chunks(cs.take(0)) + cs[0] =~= cs[0]);
    } else {
        lemma_concat_chunks_snoc(cs.drop_first(), i - 1);
        assert(cs.take(i).drop_first() =~= cs.drop_first().take(i - 1));
        assert(cs.take(i - 1).drop_first() =~= cs.drop_first().take(i - 2));
        assert(cs.take(i)[0] == cs[0]);
        assert(cs.take(i - 1)[0] == cs[0]);
        assert(cs.drop_first()[i - 2] == cs[i - 1]);
        assert(concat_chunks(cs.take(i)) == cs[0] + concat_chunks(cs.drop_first().take(i - 1)));
        assert(concat_chunks(cs.take(i - 1)) == cs[0] + concat_chunks(
            cs.drop_first().take(i - 2),
        ));
        assert(concat_chunks(cs.take(i - 1)) + cs[i - 1] =~= cs[0] + (concat_chunks(
            cs.drop_first().take(i - 2),
        ) + cs.drop_first()[i - 2]));
    }
}

impl ByteSink for VecSink {
    open spec fn chunks(&self) -> Seq<Seq<u8>> {
        self.writes.deep_view()
    }

    fn write_all(&mut self, buf: &[u8]) -> (r: Result<(), IoFailure>) {
        let v: Vec<u8> = slice_to_vec(buf);
        self.writes.push(v);
        proof {
            assert(self.chunks() =~~= old(self).chunks().push(buf@));
        }
        Ok(())
    }
}

} // verus!
