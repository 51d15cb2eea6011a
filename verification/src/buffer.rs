//! A fixed-capacity, reusable byte buffer with a read cursor and
//! boundary-safe scanning primitives.
//!
//! The buffer holds one chunk of an input stream. A scanner consumes bytes
//! from the front; when a line spans past the end of the chunk, the
//! unterminated remainder stays in place and `compact` moves it to the
//! start of the arena so the next refill can complete it.

use vstd::prelude::*;

verus! {

/// Line terminator recognized by the scanning primitives.
pub const LINE_END: u8 = 10;

pub struct Buffer {
    /// Bytes written and not yet discarded; `data[cursor..]` is unread.
    data: Vec<u8>,
    /// First unread offset.
    cursor: usize,
    /// Fixed capacity of the arena: `data.len() <= cap` always.
    cap: usize,
}

impl Buffer {
    /// Structural invariant.
    pub closed spec fn wf(self) -> bool {
        self.cursor <= self.data@.len() <= self.cap
    }

    /// The bytes not yet consumed, in order.
    pub closed spec fn unread(self) -> Seq<u8> {
        self.data@.subrange(self.cursor as int, self.data@.len() as int)
    }

    /// The fixed capacity chosen at construction.
    pub closed spec fn cap_spec(self) -> nat {
        self.cap as nat
    }

    /// Offset of the first unread byte inside the arena (the consumed
    /// prefix not yet discarded by `compact`).
    pub closed spec fn start_spec(self) -> nat {
        self.cursor as nat
    }

    pub fn new(cap: usize) -> (b: Buffer)
        ensures
            b.wf(),
            b.unread() == Seq::<u8>::empty(),
            b.cap_spec() == cap,
            b.start_spec() == 0,
    {
        let b = Buffer { data: Vec::new(), cursor: 0, cap };
        proof {
            assert(b.unread() =~= Seq::<u8>::empty());
        }
        b
    }

    /// True iff no unread byte remains.
    pub fn is_drained(&self) -> (r: bool)
        requires
            self.wf(),
        ensures
            r == (self.unread().len() == 0),
    {
        self.cursor == self.data.len()
    }

    /// Discards the consumed prefix, moving the unread bytes to the start
    /// of the arena so that the full remaining capacity is free again.
    pub fn compact(&mut self)
        requires
            old(self).wf(),
        ensures
            final(self).wf(),
            final(self).unread() == old(self).unread(),
            final(self).cap_spec() == old(self).cap_spec(),
            final(self).start_spec() == 0,
    {
        let n = self.data.len() - self.cursor;
        let mut i: usize = 0;
        while i < n
            invariant
                self.cursor + n == self.data@.len() <= self.cap,
                i <= n,
                self.cursor == old(self).cursor,
                self.cap == old(self).cap,
                self.data@.len() == old(self).data@.len(),
                forall|k: int| 0 <= k < i ==> self.data@[k] == old(self).unread()[k],
                forall|k: int|
                    self.cursor + i <= k < self.data@.len() ==> self.data@[k] == old(
                        self,
                    ).data@[k],
            decreases n - i,
        {
            let b = self.data[self.cursor + i];
            self.data[i] = b;
            i = i + 1;
        }
        self.data.truncate(n);
        self.cursor = 0;
        proof {
            assert(final(self).unread() =~= old(self).unread());
        }
    }

    /// Free space left after the valid region; `append_from` may add this many
    /// bytes.
    pub fn free_space(&self) -> (r: usize)
        requires
            self.wf(),
        ensures
            r == self.cap_spec() - self.start_spec() - self.unread().len(),
    {
        self.cap - self.data.len()
    }

    /// Returns the next unread byte if one is available; consumes it iff
    /// `consume` is true. `None` means the buffer is drained.
    pub fn next_byte(&mut self, consume: bool) -> (r: Option<u8>)
        requires
            old(self).wf(),
        ensures
            final(self).wf(),
            final(self).cap_spec() == old(self).cap_spec(),
            old(self).unread().len() == 0 ==> r is None && *final(self) == *old(self),
            old(self).unread().len() > 0 ==> r == Some(old(self).unread()[0]),
            old(self).unread().len() > 0 && consume ==> final(self).unread() == old(
                self,
            ).unread().skip(1),
            old(self).unread().len() > 0 && !consume ==> *final(self) == *old(self),
    {
        if self.cursor < self.data.len() {
            let b = self.data[self.cursor];
            if consume {
                self.cursor = self.cursor + 1;
                proof {
                    assert(final(self).unread() =~= old(self).unread().skip(1));
                }
            }
            Some(b)
        } else {
            None
        }
    }

    /// Scans for a line terminator in the unread region. On success the
    /// cursor moves past the terminator and the content length (excluding
    /// the terminator) is returned. If no terminator is present the cursor
    /// stays put: the partial line waits for the next refill.
    pub fn consume_next_line(&mut self) -> (r: Option<usize>)
        requires
            old(self).wf(),
        ensures
            final(self).wf(),
            final(self).cap_spec() == old(self).cap_spec(),
            r is None ==> *final(self) == *old(self) && forall|k: int|
                0 <= k < old(self).unread().len() ==> old(self).unread()[k] != LINE_END,
            r matches Some(p) ==> {
                &&& (p as int) < old(self).unread().len()
                &&& old(self).unread()[p as int] == LINE_END
                &&& forall|k: int| 0 <= k < p as int ==> old(self).unread()[k] != LINE_END
                &&& final(self).unread() == old(self).unread().skip(p + 1)
            },
    {
        let mut j: usize = self.cursor;
        while j < self.data.len()
            invariant
                self.wf(),
                *self == *old(self),
                self.cursor <= j <= self.data@.len(),
                forall|k: int| self.cursor <= k < j ==> self.data@[k] != LINE_END,
            decreases self.data@.len() - j,
        {
            if self.data[j] == LINE_END {
                let p = j - self.cursor;
                self.cursor = j + 1;
                proof {
                    assert(old(self).unread()[p as int] == LINE_END);
                    assert(final(self).unread() =~= old(self).unread().skip(p + 1));
                }
                return Some(p);
            }
            j = j + 1;
        }
        None
    }

    /// Advances the cursor by `min(n, available)` bytes and returns how
    /// many were actually skipped; fewer than `n` means the buffer drained
    /// and the caller must carry the remainder to the next chunk.
    pub fn skip_bytes(&mut self, n: usize) -> (k: usize)
        requires
            old(self).wf(),
        ensures
            final(self).wf(),
            final(self).cap_spec() == old(self).cap_spec(),
            k == if n <= old(self).unread().len() {
                n as int
            } else {
                old(self).unread().len() as int
            },
            final(self).unread() == old(self).unread().skip(k as int),
    {
        let avail = self.data.len() - self.cursor;
        let k = if n <= avail {
            n
        } else {
            avail
        };
        self.cursor = self.cursor + k;
        proof {
            assert(final(self).unread() =~= old(self).unread().skip(k as int));
        }
        k
    }
}

} // verus!

verus! {

impl Buffer {
    /// Appends `src[from..to]` after the valid region: the refill step once
    /// the consumed prefix has been compacted away.
    pub fn append_from(&mut self, src: &[u8], from: usize, to: usize)
        requires
            old(self).wf(),
            from <= to <= src@.len(),
            to - from <= old(self).cap_spec() - old(self).start_spec() - old(
                self,
            ).unread().len(),
        ensures
            final(self).wf(),
            final(self).unread() == old(self).unread() + src@.subrange(from as int, to as int),
            final(self).cap_spec() == old(self).cap_spec(),
            final(self).start_spec() == old(self).start_spec(),
    {
        let mut i: usize = from;
        while i < to
            invariant
                from <= i <= to <= src@.len(),
                old(self).data@.len() + (to - from) <= self.cap,
                self.data@.len() == old(self).data@.len() + (i - from),
                self.cursor == old(self).cursor,
                self.cap == old(self).cap,
                self.cursor <= old(self).data@.len(),
                self.data@ == old(self).data@ + src@.subrange(from as int, i as int),
            decreases to - i,
        {
            let b = src[i];
            self.data.push(b);
            i = i + 1;
            proof {
                assert(self.data@ =~= old(self).data@ + src@.subrange(from as int, i as int));
            }
        }
        proof {
            assert(final(self).unread() =~= old(self).unread() + src@.subrange(
                from as int,
                to as int,
            ));
        }
    }
}

} // verus!

verus! {

/// The suffix of `s` after its first line terminator, if it has one.
pub open spec fn after_first_line(s: Seq<u8>) -> Option<Seq<u8>>
    decreases s.len(),
{
    if s.len() == 0 {
        None
    } else if s[0] == LINE_END {
        Some(s.skip(1))
    } else {
        after_first_line(s.skip(1))
    }
}

/// Dropping up to `n` whole lines from the front of `s`: how many lines go.
pub open spec fn drop_lines_count(s: Seq<u8>, n: nat) -> nat
    decreases n,
{
    if n == 0 {
        0
    } else {
        match after_first_line(s) {
            None => 0,
            Some(r) => drop_lines_count(r, (n - 1) as nat) + 1,
        }
    }
}

/// Dropping up to `n` whole lines from the front of `s`: what remains.
pub open spec fn drop_lines_rest(s: Seq<u8>, n: nat) -> Seq<u8>
    decreases n,
{
    if n == 0 {
        s
    } else {
        match after_first_line(s) {
            None => s,
            Some(r) => drop_lines_rest(r, (n - 1) as nat),
        }
    }
}

/// The first terminator of a stream is where a scan first meets one.
proof fn lemma_after_first_line_at(s: Seq<u8>, p: int)
    requires
        0 <= p < s.len(),
        s[p] == LINE_END,
        forall|k: int| 0 <= k < p ==> s[k] != LINE_END,
    ensures
        after_first_line(s) == Some(s.skip(p + 1)),
    decreases p,
{
    if p > 0 {
        assert(forall|k: int| 0 <= k < s.skip(1).len() ==> s.skip(1)[k] == s[k + 1]);
        lemma_after_first_line_at(s.skip(1), p - 1);
        assert(s.skip(1).skip(p) =~= s.skip(p + 1));
    }
}

/// A stream without a terminator holds no complete line.
proof fn lemma_after_first_line_none(s: Seq<u8>)
    requires
        forall|k: int| 0 <= k < s.len() ==> s[k] != LINE_END,
    ensures
        after_first_line(s) == None::<Seq<u8>>,
    decreases s.len(),
{
    if s.len() > 0 {
        assert(forall|k: int| 0 <= k < s.skip(1).len() ==> s.skip(1)[k] == s[k + 1]);
        lemma_after_first_line_none(s.skip(1));
    }
}

impl Buffer {
    /// Consumes whole lines, up to `n` of them or until no complete line is
    /// left, and returns how many were consumed; fewer than `n` means the
    /// buffer drained mid-region and the caller carries the remainder.
    pub fn skip_lines(&mut self, n: usize) -> (k: usize)
        requires
            old(self).wf(),
        ensures
            final(self).wf(),
            final(self).cap_spec() == old(self).cap_spec(),
            k <= n,
            k as nat == drop_lines_count(old(self).unread(), n as nat),
            final(self).unread() == drop_lines_rest(old(self).unread(), n as nat),
    {
        let mut k: usize = 0;
        while k < n
            invariant
                self.wf(),
                self.cap_spec() == old(self).cap_spec(),
                k <= n,
                drop_lines_count(old(self).unread(), n as nat) == drop_lines_count(
                    self.unread(),
                    (n - k) as nat,
                ) + k,
                drop_lines_rest(old(self).unread(), n as nat) == drop_lines_rest(
                    self.unread(),
                    (n - k) as nat,
                ),
            decreases n - k,
        {
            let ghost u0 = self.unread();
            match self.consume_next_line() {
                None => {
                    proof {
                        lemma_after_first_line_none(u0);
                    }
                    return k;
                },
                Some(p) => {
                    proof {
                        lemma_after_first_line_at(u0, p as int);
                    }
                    k = k + 1;
                },
            }
        }
        k
    }
}

} // verus!
