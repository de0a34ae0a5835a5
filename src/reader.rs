use vstd::prelude::*;
use crate::line::{
    decided, lemma_fragment_len_unique, lemma_next_line_amount, next_line, Line, NEWLINE,
};
use crate::source::ByteSource;

verus! {

/// The size of the internal buffer that `LineReader::new` allocates.
pub const DEFAULT_BUF_SIZE: usize = 8192;

/// Relies on memchr::memchr: the index of the first occurrence of `needle`
/// in `haystack`, or `None` where it does not occur.
pub assume_specification[ memchr::memchr ](needle: u8, haystack: &[u8]) -> (r: Option<usize>)
    ensures
        match r {
            Some(i) => {
                &&& i < haystack@.len()
                &&& haystack@[i as int] == needle
                &&& forall|j: int| 0 <= j < i ==> haystack@[j] != needle
            },
            None => forall|j: int| 0 <= j < haystack@.len() ==> haystack@[j] != needle,
        },
;

/// Reads lines from a byte source through an internal buffer of fixed size.
///
/// The bytes in `buf[pos..cap]` have been read from `inner` and not yet
/// handed out; the rest of `buf` is never shown to a caller.
pub struct LineReader<R> {
    inner: R,
    buf: Vec<u8>,
    pos: usize,
    cap: usize,
}

impl<R: ByteSource> LineReader<R> {
    /// The cursors stay inside the buffer, which is never empty.
    pub closed spec fn wf(&self) -> bool {
        &&& self.pos <= self.cap
        &&& self.cap <= self.buf@.len()
        &&& self.buf@.len() > 0
    }

    /// The bytes read from the source and not yet handed out.
    pub closed spec fn buffered(&self) -> Seq<u8> {
        self.buf@.subrange(self.pos as int, self.cap as int)
    }

    /// The bytes still to be handed out: what is buffered, then what the
    /// source has yet to deliver.
    pub closed spec fn unread(&self) -> Seq<u8> {
        self.buffered() + self.inner.remaining()
    }

    /// The source that the reader holds.
    pub closed spec fn source(&self) -> R {
        self.inner
    }

    /// The size of the internal buffer.
    pub closed spec fn capacity(&self) -> nat {
        self.buf@.len()
    }

    /// A reader over `inner` with an internal buffer of the default size.
    pub fn new(inner: R) -> (r: LineReader<R>)
        ensures
            r.wf(),
            r.source() == inner,
            r.buffered().len() == 0,
            r.unread() == inner.remaining(),
            r.capacity() == DEFAULT_BUF_SIZE,
    {
        LineReader::with_capacity(DEFAULT_BUF_SIZE, inner)
    }

    /// A reader over `inner` with an internal buffer of `capacity` bytes;
    /// the source is not read until a line is asked for.
    pub fn with_capacity(capacity: usize, inner: R) -> (r: LineReader<R>)
        requires
            capacity > 0,
        ensures
            r.wf(),
            r.source() == inner,
            r.buffered().len() == 0,
            r.unread() == inner.remaining(),
            r.capacity() == capacity,
    {
        let mut buf: Vec<u8> = Vec::with_capacity(capacity);
        let mut i: usize = 0;
        while i < capacity
            invariant
                i <= capacity,
                buf@.len() == i,
            decreases capacity - i,
        {
            buf.push(0);
            i = i + 1;
        }
        let r = LineReader { inner, buf, pos: 0, cap: 0 };
        assert(r.buffered() =~= Seq::<u8>::empty());
        assert(r.unread() =~= r.inner.remaining());
        r
    }

    /// Refills the internal buffer from the source once it is used up: one
    /// read into the whole buffer, whose bytes become the buffered ones.
    fn fill_buf(&mut self) -> (r: Result<(), std::io::Error>)
        requires
            old(self).wf(),
        ensures
            final(self).wf(),
            final(self).unread() == old(self).unread(),
            final(self).capacity() == old(self).capacity(),
            old(self).pos < old(self).cap ==> r is Ok && *final(self) == *old(self),
            old(self).pos >= old(self).cap && r is Ok ==> {
                &&& final(self).buffered().len() <= old(self).source().remaining().len()
                &&& final(self).buffered() == old(self).source().remaining().take(
                    final(self).buffered().len() as int,
                )
                &&& final(self).source().remaining() == old(self).source().remaining().skip(
                    final(self).buffered().len() as int,
                )
            },
            r is Ok ==> final(self).pos < final(self).cap || final(self).unread().len() == 0,
            r is Err ==> {
                &&& final(self).buffered() == old(self).buffered()
                &&& final(self).source().remaining() == old(self).source().remaining()
            },
            old(self).source().infallible() ==> r is Ok && final(self).source().infallible(),
    {
        if self.pos >= self.cap {
            let ghost remaining = self.inner.remaining();
            match self.inner.read(self.buf.as_mut_slice()) {
                Ok(n) => {
                    self.cap = n;
                    self.pos = 0;
                    assert(self.buffered() =~= self.buf@.take(n as int));
                    assert(self.unread() =~= remaining);
                },
                Err(e) => {
                    assert(self.buffered() =~= Seq::<u8>::empty());
                    assert(self.unread() =~= remaining);
                    return Err(e);
                },
            }
        }
        Ok(())
    }

    /// Marks `n` buffered bytes as handed out, no more than are buffered.
    fn consume(&mut self, n: usize)
        requires
            old(self).wf(),
        ensures
            final(self).wf(),
            final(self).inner == old(self).inner,
            final(self).buf == old(self).buf,
            final(self).cap == old(self).cap,
            final(self).pos == if old(self).pos + n < old(self).cap {
                old(self).pos + n
            } else {
                old(self).cap as int
            },
    {
        if n < self.cap - self.pos {
            self.pos = self.pos + n;
        } else {
            self.pos = self.cap;
        }
    }

    /// Copies into `buf[start..]` the buffered bytes up to the first
    /// terminator, as many as fit, refilling the internal buffer first if it
    /// is used up.
    fn read_buf(&mut self, buf: &mut [u8], start: usize) -> (r: Result<Line, std::io::Error>)
        requires
            old(self).wf(),
            start < old(buf)@.len(),
        ensures
            final(self).wf(),
            final(self).capacity() == old(self).capacity(),
            final(buf)@.len() == old(buf)@.len(),
            final(buf)@.take(start as int) == old(buf)@.take(start as int),
            old(self).pos < old(self).cap ==> {
                &&& r is Ok
                &&& final(self).inner == old(self).inner
            },
            old(self).source().infallible() ==> r is Ok && final(self).source().infallible(),
            match r {
                Ok(line) => {
                    let n = line.amount() as int;
                    let on_hand = if old(self).pos < old(self).cap {
                        old(self).buffered().len() as int
                    } else {
                        old(self).source().remaining().len() - final(self).source().remaining().len()
                    };
                    &&& start + n <= old(buf)@.len()
                    &&& n <= on_hand
                    &&& (line is More ==> n == vstd::math::min(old(buf)@.len() - start, on_hand))
                    &&& n <= old(self).unread().len()
                    &&& final(buf)@.subrange(start as int, start + n) == old(self).unread().take(n)
                    &&& final(buf)@.skip(start + n) == old(buf)@.skip(start + n)
                    &&& final(self).unread() == old(self).unread().skip(n)
                    &&& match line {
                        Line::Return(_) => {
                            ||| n == 0 && old(self).unread().len() == 0
                            ||| n > 0 && old(self).unread()[n - 1] == NEWLINE && forall|j: int|
                                0 <= j < n - 1 ==> old(self).unread()[j] != NEWLINE
                        },
                        Line::More(_) => n > 0 && forall|j: int|
                            0 <= j < n ==> old(self).unread()[j] != NEWLINE,
                    }
                },
                Err(_) => final(self).unread() == old(self).unread() && final(buf)@ == old(buf)@,
            },
    {
        let ghost rest0 = self.unread();
        match self.fill_buf() {
            Ok(()) => {},
            Err(e) => {
                return Err(e);
            },
        }
        if self.pos == self.cap {
            assert(rest0.take(0) =~= buf@.subrange(start as int, start as int));
            assert(rest0.skip(0) =~= rest0);
            return Ok(Line::Return(0));
        }
        let pos: usize = self.pos;
        let room: usize = buf.len() - start;
        let mut end: usize = self.cap;
        if room < end - pos {
            end = pos + room;
        }
        let found = memchr::memchr(
            NEWLINE,
            vstd::slice::slice_subrange(self.buf.as_slice(), pos, end),
        );
        let count: usize = match found {
            Some(k) => k + 1,
            None => end - pos,
        };
        assert forall|j: int| 0 <= j < self.cap - pos implies rest0[j] == self.buf@[pos + j] by {}
        let ghost before = buf@;
        let blen: usize = buf.len();
        let vlen: usize = self.buf.len();
        let mut i: usize = 0;
        while i < count
            invariant
                i <= count,
                blen == before.len(),
                vlen == self.buf@.len(),
                pos + count <= vlen,
                start + count <= blen,
                buf@.len() == before.len(),
                forall|j: int| 0 <= j < blen && (j < start || j >= start + i) ==> buf@[j] == before[j],
                forall|j: int| start <= j < start + i ==> buf@[j] == self.buf@[pos + j - start],
            decreases count - i,
        {
            buf[start + i] = self.buf[pos + i];
            i = i + 1;
        }
        self.consume(count);
        assert(buf@.take(start as int) =~= before.take(start as int));
        assert(buf@.skip(start + count) =~= before.skip(start + count));
        assert(buf@.subrange(start as int, start + count) =~= rest0.take(count as int));
        assert(self.unread() =~= rest0.skip(count as int));
        match found {
            Some(_) => Ok(Line::Return(count)),
            None => Ok(Line::More(count)),
        }
    }

    /// Copies into `buf` as much of the next line as fits.
    ///
    /// `Return(n)`: the `n` bytes written end with the line's terminator, or
    /// the source ended after them; `Return(0)` marks the end of the source.
    /// `More(n)`: `buf` was filled (`n == buf.len()`) before the line ended.
    /// Bytes of `buf` past the `n` written are left as they were. With an
    /// empty `buf` nothing is read and `More(0)` comes back.
    ///
    /// The result and the bytes written depend on the unread bytes and the
    /// length of `buf` alone: the size of the internal buffer, and how the
    /// source splits its bytes among reads, change only how often it is read.
    pub fn try_read_line(&mut self, buf: &mut [u8]) -> (r: Result<Line, std::io::Error>)
        requires
            old(self).wf(),
        ensures
            final(self).wf(),
            final(self).capacity() == old(self).capacity(),
            final(buf)@.len() == old(buf)@.len(),
            match r {
                Ok(line) => {
                    let n = line.amount() as int;
                    let s = old(self).unread();
                    &&& line == next_line(s, old(buf).len())
                    &&& final(buf)@ == s.take(n) + old(buf)@.skip(n)
                    &&& final(self).unread() == s.skip(n)
                    &&& (old(buf)@.len() > 0 ==> (line == Line::Return(0) <==> s.len() == 0))
                    &&& (line is Return && (n == 0 || s[n - 1] != NEWLINE) ==> {
                        final(self).unread().len() == 0
                    })
                },
                Err(_) => exists|k: int|
                    {
                        &&& 0 <= k < old(buf)@.len()
                        &&& k <= old(self).unread().len()
                        &&& final(buf)@ == old(self).unread().take(k) + old(buf)@.skip(k)
                        &&& final(self).unread() == old(self).unread().skip(k)
                    },
            },
            old(buf)@.len() == 0 ==> (r matches Ok(Line::More(0))) && *final(self) == *old(self),
            decided(old(self).buffered(), old(buf).len()) ==> {
                &&& r is Ok
                &&& final(self).source() == old(self).source()
            },
            old(self).source().infallible() ==> r is Ok && final(self).source().infallible(),
    {
        let ghost rest0 = self.unread();
        let ghost buf0 = buf@;
        let ghost buffered0 = self.buffered();
        let mut amt: usize = 0;
        let cap: usize = buf.len();
        assert(rest0.skip(0) =~= rest0);
        assert(buf@ =~= rest0.take(0) + buf0.skip(0));
        while amt < cap
            invariant
                self.wf(),
                self.capacity() == old(self).capacity(),
                rest0 == old(self).unread(),
                buf0 == old(buf)@,
                buffered0 == old(self).buffered(),
                buf@.len() == cap,
                cap == old(buf)@.len(),
                amt == 0 ==> *self == *old(self),
                old(self).source().infallible() ==> self.source().infallible(),
                decided(buffered0, cap) ==> self.inner == old(self).inner && (amt == 0 || amt
                    == cap),
                amt <= cap,
                amt <= rest0.len(),
                buf@ == rest0.take(amt as int) + buf0.skip(amt as int),
                self.unread() == rest0.skip(amt as int),
                forall|j: int| 0 <= j < amt ==> rest0[j] != NEWLINE,
            decreases cap - amt,
        {
            let ghost prev = buf@;
            let ghost mid = *self;
            match self.read_buf(buf, amt) {
                Ok(line) => {
                    let n = line.amount();
                    let ghost next = amt + n;
                    let ghost step = rest0.skip(amt as int);
                    proof {
                        assert(buf@ =~= rest0.take(next) + buf0.skip(next)) by {
                            assert forall|j: int| 0 <= j < cap implies buf@[j] == (rest0.take(next)
                                + buf0.skip(next))[j] by {
                                if j < amt {
                                    assert(buf@.take(amt as int)[j] == prev.take(amt as int)[j]);
                                } else if j < next {
                                    assert(buf@.subrange(amt as int, next)[j - amt] == step.take(
                                        n as int,
                                    )[j - amt]);
                                } else {
                                    assert(buf@.skip(next)[j - next] == prev.skip(next)[j - next]);
                                }
                            }
                        }
                        assert(self.unread() =~= rest0.skip(next));
                        assert forall|j: int| 0 <= j < next - 1 implies rest0[j] != NEWLINE by {
                            if j >= amt {
                                assert(step[j - amt] == rest0[j]);
                            }
                        }
                        if n > 0 {
                            assert(step[n - 1] == rest0[next - 1]);
                        }
                    }
                    match line {
                        Line::Return(_) => {
                            proof {
                                lemma_fragment_len_unique(rest0, cap as nat, next as nat);
                                lemma_next_line_amount(rest0, cap);
                                if n == 0 {
                                    assert(self.unread() =~= Seq::<u8>::empty());
                                }
                            }
                            return Ok(Line::Return(amt + n));
                        },
                        Line::More(_) => {
                            proof {
                                if decided(buffered0, cap) && n < cap {
                                    assert(buffered0 =~= rest0.take(buffered0.len() as int));
                                    assert forall|j: int|
                                        0 <= j < n - 1 implies buffered0[j] != NEWLINE by {
                                        assert(rest0[j] == buffered0[j]);
                                    }
                                    assert(buffered0[n - 1] == rest0[n - 1]);
                                    lemma_fragment_len_unique(buffered0, cap as nat, n as nat);
                                }
                            }
                            amt = amt + n;
                        },
                    }
                },
                Err(e) => {
                    return Err(e);
                },
            }
        }
        proof {
            lemma_fragment_len_unique(rest0, cap as nat, amt as nat);
            lemma_next_line_amount(rest0, cap);
        }
        Ok(Line::More(amt))
    }
}

} // verus!
