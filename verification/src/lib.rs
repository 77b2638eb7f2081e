//! Conversion of values to and from byte sequences, in a fixed little-endian,
//! length-prefixed wire convention.
//!
//! Every supported type encodes to a finite, single-pass sequence of bytes and
//! decodes from a byte source, either infallible ([`ByteSource`]) or fallible
//! ([`IoByteSource`]).  Primitives use fixed widths; strings and slices carry a
//! four-byte little-endian count in front of their payload.

use vstd::prelude::*;

pub mod wire;

pub mod prims;

pub mod collections;

pub mod strings;

pub mod sources;

pub mod writer;

verus! {

/// An opaque reason reported by a fallible byte source or sink, reduced to a
/// numeric code.
#[derive(Debug, PartialEq, Eq, Structural, Clone, Copy)]
pub struct IoFailure {
    pub code: u64,
}

/// The collection of errors a decode operation can surface.
///
/// `NeedMoreBytes`: the source ended before the target type's required width
/// was satisfied.  `InvalidBytes`: the bytes were complete but name an illegal
/// value (only character decoding does this).  `IoErr`: the fallible source or
/// sink itself reported a failure.
#[derive(Debug, PartialEq, Eq, Structural, Clone, Copy)]
pub enum ByteErr {
    NeedMoreBytes,
    InvalidBytes,
    IoErr(IoFailure),
}

impl From<IoFailure> for ByteErr {
    fn from(err: IoFailure) -> (r: Self)
        ensures
            r == ByteErr::IoErr(err),
    {
        ByteErr::IoErr(err)
    }
}

impl vstd::std_specs::convert::FromSpecImpl<IoFailure> for ByteErr {
    open spec fn obeys_from_spec() -> bool {
        true
    }

    open spec fn from_spec(err: IoFailure) -> Self {
        ByteErr::IoErr(err)
    }
}

/// An infallible byte source: yields each remaining byte in order, then ends.
pub trait ByteSource {
    /// The bytes this source still has to give, in order.
    spec fn bytes(&self) -> Seq<u8>;

    fn next(&mut self) -> (r: Option<u8>)
        ensures
            match r {
                Some(b) => old(self).bytes().len() > 0 && b == old(self).bytes()[0] && final(self).bytes() == old(self).bytes().drop_first(),
                None => old(self).bytes().len() == 0 && final(self).bytes() == old(self).bytes(),
            },
    ;
}

/// A fallible byte source: like [`ByteSource`], but each pull may instead
/// report an I/O-level failure, which is distinct from running out of bytes.
pub trait IoByteSource {
    /// The bytes this source still has to give, in order, if no failure cuts
    /// the stream short.
    spec fn bytes(&self) -> Seq<u8>;

    fn next(&mut self) -> (r: Result<Option<u8>, IoFailure>)
        ensures
            match r {
                Ok(Some(b)) => old(self).bytes().len() > 0 && b == old(self).bytes()[0] && final(self).bytes() == old(self).bytes().drop_first(),
                Ok(None) => old(self).bytes().len() == 0 && final(self).bytes() == old(self).bytes(),
                Err(_) => final(self).bytes() == old(self).bytes(),
            },
    ;
}

/// A byte sink: accepts contiguous chunks of bytes, and may fail.
pub trait ByteSink {
    /// The chunks this sink has accepted so far, in order.
    spec fn chunks(&self) -> Seq<Seq<u8>>;

    fn write_all(&mut self, buf: &[u8]) -> (r: Result<(), IoFailure>)
        ensures
            r is Ok ==> final(self).chunks() == old(self).chunks().push(buf@),
    ;
}

/// The IntoBytesStatic trait is the same as IntoBytes except that the produced
/// sequence owns its buffer outright.
pub trait IntoBytesStatic {
    /// The byte sequence this value encodes to.
    spec fn enc_static(&self) -> Seq<u8>;

    /// True when the value fits the wire convention's limits (a count must fit
    /// in four bytes).
    spec fn encodable_static(&self) -> bool;

    fn into_bytes_static(&self) -> (b: ByteBuffer)
        requires
            self.encodable_static(),
        ensures
            b@ == self.enc_static(),
    ;
}

/// The IntoBytes trait allows for the easy conversion of data to byte
/// sequences.
pub trait IntoBytes {
    /// The byte sequence this value encodes to.
    spec fn enc(&self) -> Seq<u8>;

    /// True when the value fits the wire convention's limits.
    spec fn encodable(&self) -> bool;

    /// Creates a byte sequence over the encoding of self.
    fn into_bytes(&self) -> (b: ByteBuffer)
        requires
            self.encodable(),
        ensures
            b@ == self.enc(),
    ;
}

impl<T: IntoBytesStatic> IntoBytes for T {
    open spec fn enc(&self) -> Seq<u8> {
        self.enc_static()
    }

    open spec fn encodable(&self) -> bool {
        self.encodable_static()
    }

    fn into_bytes(&self) -> (b: ByteBuffer) {
        self.into_bytes_static()
    }
}

/// The FromBytes trait allows for the easy conversion of byte sequences into
/// data.
///
/// The four spec functions fix, for any stream, whether a decode succeeds
/// (`dec_ok`), what it yields (`dec_val`), how many bytes it consumes
/// (`dec_len`), and whether it instead runs out of bytes (`dec_short`).  A
/// stream on which a decode neither succeeds nor runs short is rejected as
/// invalid.  On failure the source is not rewound: bytes pulled before the
/// failure stay consumed.
pub trait FromBytes: Sized + DeepView {
    /// True when the stream starts with a complete, legal encoding.
    spec fn dec_ok(bytes: Seq<u8>) -> bool;

    /// The value a successful decode yields, as its mathematical view.
    spec fn dec_val(bytes: Seq<u8>) -> <Self as DeepView>::V;

    /// How many bytes a successful decode consumes.
    spec fn dec_len(bytes: Seq<u8>) -> int;

    /// True when the stream ends before the encoding is complete.
    spec fn dec_short(bytes: Seq<u8>) -> bool;

    /// Success and running short exclude each other, and a successful decode
    /// consumes no more than the stream holds.
    proof fn dec_parts(bytes: Seq<u8>)
        ensures
            !(Self::dec_ok(bytes) && Self::dec_short(bytes)),
            Self::dec_ok(bytes) ==> 0 <= Self::dec_len(bytes) <= bytes.len(),
    ;

    /// Tries to create the indicated type out of an io byte source.
    fn from_io_bytes<S: IoByteSource>(bytes: &mut S) -> (r: Result<Self, ByteErr>)
        ensures
            match r {
                Ok(v) => Self::dec_ok(old(bytes).bytes()) && v.deep_view() == Self::dec_val(
                    old(bytes).bytes(),
                ) && final(bytes).bytes() == old(bytes).bytes().skip(
                    Self::dec_len(old(bytes).bytes()),
                ),
                Err(ByteErr::NeedMoreBytes) => Self::dec_short(old(bytes).bytes()) && final(bytes).bytes().len() == 0,
                Err(ByteErr::InvalidBytes) => !Self::dec_ok(old(bytes).bytes()) && !Self::dec_short(
                    old(bytes).bytes(),
                ),
                Err(ByteErr::IoErr(_)) => true,
            },
    ;

    /// Tries to create the indicated type out of a byte source.
    fn from_bytes<S: ByteSource>(bytes: &mut S) -> (r: Result<Self, ByteErr>)
        ensures
            match r {
                Ok(v) => Self::dec_ok(old(bytes).bytes()) && v.deep_view() == Self::dec_val(
                    old(bytes).bytes(),
                ) && final(bytes).bytes() == old(bytes).bytes().skip(
                    Self::dec_len(old(bytes).bytes()),
                ),
                Err(ByteErr::NeedMoreBytes) => Self::dec_short(old(bytes).bytes()) && final(bytes).bytes().len() == 0,
                Err(ByteErr::InvalidBytes) => !Self::dec_ok(old(bytes).bytes()) && !Self::dec_short(
                    old(bytes).bytes(),
                ),
                Err(ByteErr::IoErr(_)) => false,
            },
    ;
}

/// Extension of [`ByteSink`] writing all bytes from a byte source in bounded
/// chunks.
pub trait WriteBytes: ByteSink {
    /// Drains `byte_iter` into this sink: repeatedly pulls up to `buffer_size`
    /// bytes and issues one write per pulled chunk, stopping when the source
    /// is exhausted.  A sink failure is propagated unmodified and at once.
    fn write_bytes<S: ByteSource>(&mut self, byte_iter: &mut S, buffer_size: usize) -> (r: Result<
        (),
        IoFailure,
    >)
        requires
            buffer_size > 0,
        ensures
            r is Ok ==> final(self).chunks() == old(self).chunks() + crate::writer::spec_chunks(
                old(byte_iter).bytes(),
                buffer_size as int,
            ) && final(byte_iter).bytes().len() == 0,
    ;
}

/// The byte sequence over an owned buffer: yields each byte in index order,
/// then signals end.  Backs every primitive's encode path.
pub struct ByteBuffer {
    buffer: Vec<u8>,
    current: usize,
}

impl View for ByteBuffer {
    type V = Seq<u8>;

    closed spec fn view(&self) -> Seq<u8> {
        self.buffer@.skip(self.current as int)
    }
}

impl ByteBuffer {
    #[verifier::type_invariant]
    spec fn wf(&self) -> bool {
        self.current <= self.buffer.len()
    }

    /// Wraps a buffer; the sequence will yield exactly its bytes, in order.
    pub fn new(buffer: Vec<u8>) -> (b: ByteBuffer)
        ensures
            b@ == buffer@,
    {
        ByteBuffer { buffer, current: 0 }
    }
}

impl ByteSource for ByteBuffer {
    open spec fn bytes(&self) -> Seq<u8> {
        self@
    }

    fn next(&mut self) -> (r: Option<u8>) {
        proof {
            use_type_invariant(&*self);
        }
        if self.current < self.buffer.len() {
            let b = self.buffer[self.current];
            self.current = self.current + 1;
            proof {
                assert(self.bytes() =~= old(self).bytes().drop_first());
            }
            Some(b)
        } else {
            proof {
                assert(self.bytes() =~= old(self).bytes());
            }
            None
        }
    }
}

/// Pulls exactly `n` bytes from the source; reports `NeedMoreBytes` the
/// instant the source cannot supply the next required byte.
pub fn take_n<S: ByteSource>(src: &mut S, n: usize) -> (r: Result<Vec<u8>, ByteErr>)
    ensures
        match r {
            Ok(buf) => old(src).bytes().len() >= n && buf@ == old(src).bytes().take(n as int)
                && final(src).bytes() == old(src).bytes().skip(n as int),
            Err(ByteErr::NeedMoreBytes) => old(src).bytes().len() < n && final(src).bytes().len()
                == 0,
            Err(_) => false,
        },
{
    let mut buf: Vec<u8> = Vec::new();
    let mut i: usize = 0;
    while i < n
        invariant
            i <= n,
            buf@.len() == i,
            old(src).bytes().len() >= i,
            buf@ == old(src).bytes().take(i as int),
            src.bytes() == old(src).bytes().skip(i as int),
        decreases n - i,
    {
        match src.next() {
            Some(b) => {
                buf.push(b);
                i = i + 1;
                proof {
                    assert(buf@ =~= old(src).bytes().take(i as int));
                    assert(src.bytes() =~= old(src).bytes().skip(i as int));
                }
            },
            None => {
                return Err(ByteErr::NeedMoreBytes);
            },
        }
    }
    Ok(buf)
}

/// Pulls exactly `n` bytes from the fallible source, short-circuiting to
/// `IoErr` the instant the source itself reports a failure.
pub fn take_n_io<S: IoByteSource>(src: &mut S, n: usize) -> (r: Result<Vec<u8>, ByteErr>)
    ensures
        match r {
            Ok(buf) => old(src).bytes().len() >= n && buf@ == old(src).bytes().take(n as int)
                && final(src).bytes() == old(src).bytes().skip(n as int),
            Err(ByteErr::NeedMoreBytes) => old(src).bytes().len() < n && final(src).bytes().len()
                == 0,
            Err(ByteErr::IoErr(_)) => true,
            Err(ByteErr::InvalidBytes) => false,
        },
{
    let mut buf: Vec<u8> = Vec::new();
    let mut i: usize = 0;
    while i < n
        invariant
            i <= n,
            buf@.len() == i,
            old(src).bytes().len() >= i,
            buf@ == old(src).bytes().take(i as int),
            src.bytes() == old(src).bytes().skip(i as int),
        decreases n - i,
    {
        match src.next() {
            Ok(Some(b)) => {
                buf.push(b);
                i = i + 1;
                proof {
                    assert(buf@ =~= old(src).bytes().take(i as int));
                    assert(src.bytes() =~= old(src).bytes().skip(i as int));
                }
            },
            Ok(None) => {
                return Err(ByteErr::NeedMoreBytes);
            },
            Err(e) => {
                return Err(ByteErr::from(e));
            },
        }
    }
    Ok(buf)
}

/// Runs a source dry, collecting every byte it has to give.
pub fn collect_bytes<S: ByteSource>(src: &mut S) -> (r: Vec<u8>)
    ensures
        r@ == old(src).bytes(),
        final(src).bytes().len() == 0,
{
    let mut out: Vec<u8> = Vec::new();
    loop
        invariant
            old(src).bytes() == out@ + src.bytes(),
        decreases src.bytes().len(),
    {
        match src.next() {
            Some(b) => {
                out.push(b);
                proof {
                    assert(old(src).bytes() =~= out@ + src.bytes());
                }
            },
            None => {
                proof {
                    assert(old(src).bytes() =~= out@);
                }
                return out;
            },
        }
    }
}

} // verus!
