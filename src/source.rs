use vstd::prelude::*;

verus! {

/// Declares std::io::Error, the error that a byte source reports; the
/// reader passes it on unchanged and never looks inside it.
#[verifier::external_type_specification]
#[verifier::external_body]
pub struct ExIoError(std::io::Error);

/// A stream of bytes that can be read in pieces.
///
/// A source is modelled by the bytes it has yet to deliver. A read hands out
/// a prefix of them, possibly shorter than asked for, and reports the end of
/// the stream, and only that, by delivering nothing into a non-empty buffer.
pub trait ByteSource {
    /// The bytes that the source has yet to deliver, in order.
    spec fn remaining(&self) -> Seq<u8>;

    /// Whether reads of the source never fail.
    spec fn infallible(&self) -> bool;

    /// Reads up to `buf.len()` bytes into the front of `buf` and says how many.
    fn read(&mut self, buf: &mut [u8]) -> (r: Result<usize, std::io::Error>)
        ensures
            final(buf)@.len() == old(buf)@.len(),
            match r {
                Ok(n) => {
                    &&& n <= old(buf)@.len()
                    &&& n <= old(self).remaining().len()
                    &&& final(buf)@.take(n as int) == old(self).remaining().take(n as int)
                    &&& final(self).remaining() == old(self).remaining().skip(n as int)
                    &&& (n == 0 && old(buf)@.len() > 0 ==> old(self).remaining().len() == 0)
                },
                Err(_) => final(self).remaining() == old(self).remaining(),
            },
            old(self).infallible() ==> r is Ok && final(self).infallible(),
    ;
}

/// Relies on std::io::Error::new: builds the error that a failing source
/// reports.
#[verifier::external_body]
fn read_failure() -> std::io::Error {
    std::io::Error::new(std::io::ErrorKind::Other, "the source failed")
}

/// A source that serves the bytes of a vector, at most `chunk` of them per
/// read, so that short reads can be had on purpose. One made by `failing`
/// reports an error, instead of the end, once its bytes are used up.
#[derive(Clone, Debug)]
pub struct MemorySource {
    data: Vec<u8>,
    pos: usize,
    chunk: usize,
    fails: bool,
}

impl MemorySource {
    /// A source that serves all of `data`, as much per read as asked for.
    pub fn new(data: Vec<u8>) -> (s: MemorySource)
        ensures
            s.infallible(),
            s.remaining() == data@,
            s.chunk() == usize::MAX,
    {
        MemorySource::with_chunk(data, usize::MAX)
    }

    /// A source that serves all of `data`, at most `chunk` bytes per read;
    /// a bound of 0 counts as 1.
    pub fn with_chunk(data: Vec<u8>, chunk: usize) -> (s: MemorySource)
        ensures
            s.infallible(),
            s.remaining() == data@,
            s.chunk() == if chunk == 0 {
                1
            } else {
                chunk as nat
            },
    {
        let s = MemorySource { data, pos: 0, chunk, fails: false };
        assert(s.data@.skip(0) =~= s.data@);
        s
    }

    /// A source that serves all of `data`, as much per read as asked for,
    /// and then fails every read into a non-empty buffer.
    pub fn failing(data: Vec<u8>) -> (s: MemorySource)
        ensures
            !s.infallible(),
            s.remaining() == data@,
            s.chunk() == usize::MAX,
    {
        let s = MemorySource { data, pos: 0, chunk: usize::MAX, fails: true };
        assert(s.data@.skip(0) =~= s.data@);
        s
    }

    /// The most that one read delivers (a bound of 0 counts as 1).
    pub closed spec fn chunk(&self) -> nat {
        if self.chunk == 0 {
            1
        } else {
            self.chunk as nat
        }
    }
}

impl ByteSource for MemorySource {
    closed spec fn remaining(&self) -> Seq<u8> {
        if self.pos <= self.data@.len() {
            self.data@.skip(self.pos as int)
        } else {
            Seq::empty()
        }
    }

    closed spec fn infallible(&self) -> bool {
        !self.fails
    }

    /// Delivers the next `min(buf.len(), chunk, remaining)` bytes.
    fn read(&mut self, buf: &mut [u8]) -> (r: Result<usize, std::io::Error>)
        ensures
            final(self).chunk() == old(self).chunk(),
            final(self).infallible() == old(self).infallible(),
            old(self).infallible() || old(self).remaining().len() > 0 || old(buf)@.len() == 0
                ==> (r matches Ok(n) && n as int == vstd::math::min(
                vstd::math::min(old(buf)@.len() as int, old(self).chunk() as int),
                old(self).remaining().len() as int,
            )),
            !old(self).infallible() && old(self).remaining().len() == 0 && old(buf)@.len() > 0
                ==> r is Err,
    {
        let mut n: usize = buf.len();
        let total: usize = self.data.len();
        let avail: usize = if self.pos <= total {
            total - self.pos
        } else {
            0
        };
        if avail == 0 && self.fails && n > 0 {
            return Err(read_failure());
        }
        if avail < n {
            n = avail;
        }
        if self.chunk == 0 {
            if 1 < n {
                n = 1;
            }
        } else if self.chunk < n {
            n = self.chunk;
        }
        let ghost before = buf@;
        let start: usize = self.pos;
        let mut i: usize = 0;
        while i < n
            invariant
                i <= n,
                n <= before.len(),
                n == 0 || start + n <= total,
                start == self.pos,
                total == self.data@.len(),
                buf@.len() == before.len(),
                forall|j: int| 0 <= j < i ==> buf@[j] == self.data@[start + j],
            decreases n - i,
        {
            buf[i] = self.data[start + i];
            i = i + 1;
        }
        if n > 0 {
            assert(buf@.take(n as int) =~= self.data@.skip(self.pos as int).take(n as int));
            assert(self.data@.skip((self.pos + n) as int) =~= self.data@.skip(
                self.pos as int,
            ).skip(n as int));
            self.pos = self.pos + n;
        } else {
            assert(buf@.take(0) =~= self.remaining().take(0));
            assert(self.remaining().skip(0) =~= self.remaining());
        }
        Ok(n)
    }
}

} // verus!
