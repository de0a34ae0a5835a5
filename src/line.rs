use vstd::prelude::*;

verus! {

/// The line terminator.
pub const NEWLINE: u8 = 10;

/// What one call of the line reader delivered.
#[derive(Debug, PartialEq, Eq, PartialOrd, Structural)]
pub enum Line {
    /// The bytes written end a line: its terminator was copied, or the
    /// source ended (`Return(0)` alone marks the end of the source).
    Return(usize),
    /// The destination was filled before the line ended.
    More(usize),
}

impl Line {
    /// The number of bytes written, whatever the variant.
    pub open spec fn spec_amount(&self) -> usize {
        match *self {
            Line::Return(n) => n,
            Line::More(n) => n,
        }
    }

    /// The number of bytes written, whatever the variant.
    #[verifier::when_used_as_spec(spec_amount)]
    pub fn amount(&self) -> (r: usize)
        ensures
            r == self.spec_amount(),
    {
        match *self {
            Line::Return(n) => n,
            Line::More(n) => n,
        }
    }
}

/// How many bytes of `rest` go into a destination of `len` bytes: up to and
/// including the first terminator, and no more than `len` or what is left.
pub open spec fn fragment_len(rest: Seq<u8>, len: nat) -> nat
    decreases len,
{
    if len == 0 || rest.len() == 0 {
        0
    } else if rest[0] == NEWLINE {
        1
    } else {
        1 + fragment_len(rest.drop_first(), (len - 1) as nat)
    }
}

/// Whether the bytes in `s` settle what a destination of `len` bytes gets:
/// the fragment fills it or ends at a terminator, before `s` runs out.
pub open spec fn decided(s: Seq<u8>, len: usize) -> bool {
    let n = fragment_len(s, len as nat);
    n == len || (n > 0 && s[n - 1] == NEWLINE)
}

/// What a call with a destination of `len` bytes delivers from the bytes
/// `rest` on hand: all that is left of the stream, or enough to be `decided`.
pub open spec fn next_line(rest: Seq<u8>, len: usize) -> Line {
    let n = fragment_len(rest, len as nat);
    if n > 0 && rest[n - 1] == NEWLINE {
        Line::Return(n as usize)
    } else if n == len {
        Line::More(n as usize)
    } else {
        Line::Return(n as usize)
    }
}

/// `fragment_len` never exceeds the destination nor what is left.
pub proof fn lemma_fragment_len_bounds(rest: Seq<u8>, len: nat)
    ensures
        fragment_len(rest, len) <= len,
        fragment_len(rest, len) <= rest.len(),
        len > 0 && rest.len() > 0 ==> fragment_len(rest, len) > 0,
    decreases len,
{
    if len > 0 && rest.len() > 0 && rest[0] != NEWLINE {
        lemma_fragment_len_bounds(rest.drop_first(), (len - 1) as nat);
    }
}

/// `fragment_len` is the one count `n` that stops at the first terminator,
/// at the end of the destination or at the end of what is left.
pub proof fn lemma_fragment_len_unique(rest: Seq<u8>, len: nat, n: nat)
    requires
        n <= len,
        n <= rest.len(),
        forall|i: int| 0 <= i < n - 1 ==> rest[i] != NEWLINE,
        n == len || n == rest.len() || (n > 0 && rest[n - 1] == NEWLINE),
    ensures
        fragment_len(rest, len) == n,
    decreases len,
{
    if len == 0 || rest.len() == 0 {
    } else if rest[0] == NEWLINE {
        if n > 1 {
            assert(rest[0] != NEWLINE);
        }
    } else {
        let t = rest.drop_first();
        if n == 0 {
            assert(rest[0] == NEWLINE || n == len || n == rest.len());
        } else {
            assert forall|i: int| 0 <= i < (n - 1) - 1 implies t[i] != NEWLINE by {
                assert(rest[i + 1] != NEWLINE);
            }
            lemma_fragment_len_unique(t, (len - 1) as nat, (n - 1) as nat);
        }
    }
}

/// Bytes before the last one that `fragment_len` takes are no terminators.
pub proof fn lemma_fragment_len_prefix(rest: Seq<u8>, len: nat)
    ensures
        forall|i: int| 0 <= i < fragment_len(rest, len) - 1 ==> rest[i] != NEWLINE,
        fragment_len(rest, len) == len || fragment_len(rest, len) == rest.len() || (
        fragment_len(rest, len) > 0 && rest[fragment_len(rest, len) - 1] == NEWLINE),
    decreases len,
{
    if len > 0 && rest.len() > 0 && rest[0] != NEWLINE {
        let t = rest.drop_first();
        lemma_fragment_len_bounds(rest, len);
        lemma_fragment_len_prefix(t, (len - 1) as nat);
        assert forall|i: int| 0 <= i < fragment_len(rest, len) - 1 implies rest[i] != NEWLINE by {
            if i > 0 {
                assert(rest[i] == t[i - 1]);
            }
        }
    }
}

/// The bytes that calls with a destination of `len` bytes write, one call
/// after another, up to the call that returns `Return(0)`.
pub open spec fn delivered(rest: Seq<u8>, len: usize) -> Seq<u8>
    decreases rest.len(),
    via delivered_decreases
{
    if len == 0 || rest.len() == 0 {
        Seq::empty()
    } else {
        let n = next_line(rest, len).spec_amount() as int;
        rest.take(n) + delivered(rest.skip(n), len)
    }
}

#[via_fn]
proof fn delivered_decreases(rest: Seq<u8>, len: usize) {
    if len > 0 && rest.len() > 0 {
        lemma_fragment_len_bounds(rest, len as nat);
    }
}

/// A call writes `fragment_len` bytes, and with a non-empty destination it
/// returns `Return(0)` exactly when nothing is left.
pub proof fn lemma_next_line_amount(rest: Seq<u8>, len: usize)
    ensures
        next_line(rest, len).spec_amount() == fragment_len(rest, len as nat),
        len > 0 ==> (next_line(rest, len) == Line::Return(0) <==> rest.len() == 0),
{
    lemma_fragment_len_bounds(rest, len as nat);
}

/// Reading with a non-empty destination until `Return(0)` comes back hands
/// out every byte that was left, in order, terminators in place, and
/// nothing else; `Return(0)` comes only once nothing is left.
pub proof fn lemma_read_to_end(rest: Seq<u8>, len: usize)
    requires
        len > 0,
    ensures
        delivered(rest, len) == rest,
        next_line(rest, len) == Line::Return(0) <==> rest.len() == 0,
    decreases rest.len(),
{
    lemma_next_line_amount(rest, len);
    lemma_fragment_len_bounds(rest, len as nat);
    if rest.len() > 0 {
        let n = next_line(rest, len).spec_amount() as int;
        lemma_read_to_end(rest.skip(n), len);
        assert(rest.take(n) + rest.skip(n) =~= rest);
    }
}

/// `More(n)` comes only with a full destination, and the bytes of a
/// `Return(n)` with `n > 0` end with a terminator, or are all that was left.
pub proof fn lemma_fragment_shape(rest: Seq<u8>, len: usize)
    ensures
        next_line(rest, len) is More ==> next_line(rest, len).spec_amount() == len,
        next_line(rest, len) is Return ==> {
            let n = next_line(rest, len).spec_amount() as int;
            n == 0 || rest[n - 1] == NEWLINE || n == rest.len()
        },
{
    lemma_fragment_len_bounds(rest, len as nat);
    lemma_fragment_len_prefix(rest, len as nat);
}

/// Where the stream ends with a terminator (or is empty), the bytes of every
/// `Return(n)` with `n > 0` end with a terminator.
pub proof fn lemma_return_ends_with_newline(rest: Seq<u8>, len: usize)
    requires
        rest.len() == 0 || rest.last() == NEWLINE,
    ensures
        next_line(rest, len) is Return ==> {
            let n = next_line(rest, len).spec_amount() as int;
            n == 0 || rest[n - 1] == NEWLINE
        },
{
    lemma_fragment_shape(rest, len);
    lemma_fragment_len_bounds(rest, len as nat);
}

/// A fragment that ends at a terminator or fills the destination is the
/// same whatever bytes follow it: how far ahead the source has been read,
/// and so the size of the internal buffer, does not change what is handed out.
pub proof fn lemma_fragment_ignores_what_follows(s: Seq<u8>, t: Seq<u8>, len: usize)
    requires
        decided(s, len),
    ensures
        decided(s + t, len),
        next_line(s + t, len) == next_line(s, len),
{
    let n = fragment_len(s, len as nat);
    lemma_fragment_len_bounds(s, len as nat);
    lemma_fragment_len_prefix(s, len as nat);
    assert forall|i: int| 0 <= i < n - 1 implies (s + t)[i] != NEWLINE by {
        assert((s + t)[i] == s[i]);
    }
    if n > 0 {
        assert((s + t)[n - 1] == s[n - 1]);
    }
    lemma_fragment_len_unique(s + t, len as nat, n);
}

} // verus!
