//! The window of a reader that is confined to a range of an inner reader: how much each
//! read may take, and how far the window has been read.

use vstd::prelude::*;

verus! {

/// A range `[offset, offset + length)` of an inner reader, read up to `position`.
pub struct ReadWindow {
    offset: u64,
    length: u64,
    position: u64,
}

impl ReadWindow {
    /// Where the range starts in the inner reader.
    pub closed spec fn start(&self) -> u64 {
        self.offset
    }

    /// How long the range is.
    pub closed spec fn len(&self) -> u64 {
        self.length
    }

    /// How much of the range has been read.
    pub closed spec fn read_so_far(&self) -> u64 {
        self.position
    }

    #[verifier::type_invariant]
    spec fn within(&self) -> bool {
        self.position <= self.length
    }

    /// A window over `[offset, offset + length)`, not read yet.
    pub fn new(offset: u64, length: u64) -> (r: ReadWindow)
        ensures
            r.start() == offset,
            r.len() == length,
            r.read_so_far() == 0,
    {
        ReadWindow { offset, length, position: 0 }
    }

    /// How much of the range has been read; never more than its length.
    pub fn position(&self) -> (r: u64)
        ensures
            r == self.read_so_far(),
            r <= self.len(),
    {
        proof {
            use_type_invariant(self);
        }
        self.position
    }

    /// Where the range starts in the inner reader.
    pub fn offset(&self) -> (r: u64)
        ensures
            r == self.start(),
    {
        self.offset
    }

    /// How many bytes the next read takes, for a buffer with room for `buf_remaining`:
    /// what is left of the range, or the room, whichever is smaller.
    pub fn next_read_len(&self, buf_remaining: usize) -> (r: usize)
        ensures
            r == if self.len() - self.read_so_far() < buf_remaining {
                (self.len() - self.read_so_far()) as usize
            } else {
                buf_remaining
            },
            self.read_so_far() <= self.len(),
            r <= self.len() - self.read_so_far(),
    {
        proof {
            use_type_invariant(self);
        }
        let remaining = self.length - self.position;
        if remaining < buf_remaining as u64 {
            remaining as usize
        } else {
            buf_remaining
        }
    }

    /// Records that a read of `n` bytes has completed.
    pub fn advance(&mut self, n: usize)
        requires
            n <= old(self).len() - old(self).read_so_far(),
        ensures
            final(self).read_so_far() == old(self).read_so_far() + n,
            final(self).read_so_far() <= final(self).len(),
            final(self).len() == old(self).len(),
            final(self).start() == old(self).start(),
    {
        proof {
            use_type_invariant(&*self);
        }
        self.position = self.position + n as u64;
    }
}

/// The total of the reads `ns`.
pub open spec fn total(ns: Seq<usize>) -> int
    decreases ns.len(),
{
    if ns.len() == 0 {
        0
    } else {
        total(ns.drop_last()) + ns.last()
    }
}

/// Each of the reads `ns` takes no more than [`ReadWindow::next_read_len`] allows a window
/// of `length` bytes after the reads before it: at most what is left.
pub open spec fn reads_allowed(length: int, ns: Seq<usize>) -> bool {
    forall|i: int| 0 <= i < ns.len() ==> #[trigger] ns[i] <= length - total(ns.subrange(0, i))
}

/// A window read by any sequence of reads that each take at most what is left is read
/// up to their total, never past its end.
pub proof fn lemma_reads_stay_within(length: int, ns: Seq<usize>)
    requires
        0 <= length,
        reads_allowed(length, ns),
    ensures
        0 <= total(ns) <= length,
    decreases ns.len(),
{
    if ns.len() > 0 {
        let prev = ns.drop_last();
        assert forall|i: int| 0 <= i < prev.len() implies #[trigger] prev[i] <= length - total(
            prev.subrange(0, i),
        ) by {
            assert(prev.subrange(0, i) =~= ns.subrange(0, i));
            assert(prev[i] == ns[i]);
        }
        lemma_reads_stay_within(length, prev);
        assert(ns.subrange(0, ns.len() - 1) =~= prev);
        assert(ns[ns.len() - 1] <= length - total(ns.subrange(0, ns.len() - 1)));
    }
}

} // verus!
