//! An in-memory byte source for the fallible pull contract: it yields the
//! bytes of a buffer in order, and can be set to report an I/O failure at a
//! chosen point, the way an I/O-backed source can fail mid-stream.

use crate::IoByteSource;
use crate::IoFailure;
use vstd::prelude::*;

verus! {

/// A single-pass fallible source over an owned buffer.  One built with
/// [`IoBuffer::new`] yields every byte and then ends; one built with
/// [`IoBuffer::failing_after`] yields a prefix and then reports an I/O
/// failure on every further pull.
pub struct IoBuffer {
    data: Vec<u8>,
    current: usize,
    fail_at: Option<usize>,
    code: u64,
}

impl IoBuffer {
    #[verifier::type_invariant]
    spec fn wf(&self) -> bool {
        self.current <= self.data@.len() && match self.fail_at {
            Some(f) => self.current <= f && f <= self.data@.len(),
            None => true,
        }
    }

    /// A source over the whole buffer that never fails.
    pub fn new(data: Vec<u8>) -> (s: IoBuffer)
        ensures
            s.bytes() == data@,
    {
        let s = IoBuffer { data, current: 0, fail_at: None, code: 0 };
        proof {
            assert(s.bytes() =~= s.data@);
        }
        s
    }

    /// A source that yields the first `n` bytes of the buffer and then
    /// reports an I/O failure carrying `code` instead of ending.
    pub fn failing_after(data: Vec<u8>, n: usize, code: u64) -> (s: IoBuffer)
        requires
            n <= data@.len(),
        ensures
            s.bytes() == data@.take(n as int),
    {
        let s = IoBuffer { data, current: 0, fail_at: Some(n), code };
        proof {
            assert(s.bytes() =~= s.data@.take(n as int));
        }
        s
    }
}

impl IoByteSource for IoBuffer {
    closed spec fn bytes(&self) -> Seq<u8> {
        match self.fail_at {
            Some(f) => self.data@.subrange(self.current as int, f as int),
            None => self.data@.skip(self.current as int),
        }
    }

    fn next(&mut self) -> (r: Result<Option<u8>, IoFailure>) {
        proof {
            use_type_invariant(&*self);
        }
        match self.fail_at {
            Some(f) => {
                if self.current < f {
                    let b = self.data[self.current];
                    self.current = self.current + 1;
                    proof {
                        assert(self.bytes() =~= old(self).bytes().drop_first());
                    }
                    Ok(Some(b))
                } else {
                    Err(IoFailure { code: self.code })
                }
            },
            None => {
                if self.current < self.data.len() {
                    let b = self.data[self.current];
                    self.current = self.current + 1;
                    proof {
                        assert(self.bytes() =~= old(self).bytes().drop_first());
                    }
                    Ok(Some(b))
                } else {
                    Ok(None)
                }
            },
        }
    }
}

} // verus!
