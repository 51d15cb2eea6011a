//! FASTA/FASTQ record-length extraction.
//!
//! The meaning of scanning is fixed by a byte-at-a-time state machine
//! (`spec_step` / `spec_run`): feeding it every byte of an input, in order,
//! yields the set of record lengths and their running total. The executable
//! scanner works on whole chunks through the buffer primitives and is proved
//! to track that machine exactly, so the chunking of the input can never
//! change the result.

use crate::buffer::Buffer;
use crate::buffer::LINE_END;
use vstd::prelude::*;

verus! {

/// First byte of a FASTA header line.
pub const FASTA_MARK: u8 = 62;

/// First byte of a FASTQ header line.
pub const FASTQ_MARK: u8 = 64;

/// First byte of a FASTQ separator line.
pub const SEP_MARK: u8 = 43;

/// Fatal scanning failures; each aborts the whole run.
#[derive(Clone, Copy, Debug, PartialEq, Eq, Structural)]
pub enum ScanError {
    /// A byte at a record boundary was neither a FASTA nor a FASTQ header mark.
    MalformedRecordStart,
    /// End of input arrived while a header, separator or quality region was
    /// still owed bytes.
    TruncatedRecord,
    /// The byte source failed; raised by the surrounding I/O layer, never by
    /// the scanner itself.
    SourceReadFailure,
}

/// Scanner position inside a record.
#[derive(Clone, Copy, Debug, PartialEq, Eq, Structural)]
pub enum Mode {
    /// At a record boundary: the next byte must be a header mark.
    AwaitHeader,
    /// Inside a header line, discarding it up to its terminator.
    HeadSkip,
    /// Inside a sequence line; each byte counts toward the record length.
    Line,
    /// Just after a sequence line terminator: the next byte decides whether
    /// the record continues, ends, or a quality region follows.
    Eol,
    /// Inside a FASTQ separator line, discarding it up to its terminator.
    SepSkip,
    /// Inside the quality region, with `left` bytes still to discard.
    QualSkip { left: u64 },
}

/// The full abstract state of a scan: mode, the length accumulated for the
/// open record, the lengths emitted so far, their running total, and whether
/// a malformed record boundary was seen.
#[verifier::ext_equal]
pub ghost struct SpecSt {
    pub mode: Mode,
    pub acc: u64,
    pub lens: Seq<u32>,
    pub total: u64,
    pub failed: bool,
}

/// State at the start of an input.
pub open spec fn init_st() -> SpecSt {
    SpecSt { mode: Mode::AwaitHeader, acc: 0, lens: Seq::empty(), total: 0, failed: false }
}

/// Addition on `u64` that stops at the largest value instead of wrapping.
pub open spec fn sat_add(a: u64, b: u64) -> u64 {
    if a + b > u64::MAX {
        u64::MAX
    } else {
        (a + b) as u64
    }
}

/// Saturating addition of an unbounded count.
pub open spec fn sat_addn(a: u64, n: nat) -> u64 {
    if a + n > u64::MAX {
        u64::MAX
    } else {
        (a + n) as u64
    }
}

/// A record length as stored in the length set (32-bit width).
pub open spec fn trunc32(a: u64) -> u32 {
    (a % 0x1_0000_0000) as u32
}

/// Closes the open record: its length joins the length set iff it strictly
/// exceeds the minimum; the accumulator itself is left for the caller.
pub open spec fn spec_emit(st: SpecSt, min: u64) -> SpecSt {
    if st.acc > min {
        SpecSt { lens: st.lens.push(trunc32(st.acc)), total: sat_add(st.total, st.acc), ..st }
    } else {
        st
    }
}

/// One byte of input.
pub open spec fn spec_step(st: SpecSt, b: u8, min: u64) -> SpecSt {
    if st.failed {
        st
    } else {
        match st.mode {
            Mode::AwaitHeader => if b == FASTA_MARK || b == FASTQ_MARK {
                SpecSt { mode: Mode::HeadSkip, ..st }
            } else {
                SpecSt { failed: true, ..st }
            },
            Mode::HeadSkip => if b == LINE_END {
                SpecSt { mode: Mode::Line, acc: 0, ..st }
            } else {
                st
            },
            Mode::Line => if b == LINE_END {
                SpecSt { mode: Mode::Eol, ..st }
            } else {
                SpecSt { acc: sat_add(st.acc, 1), ..st }
            },
            Mode::Eol => if b == FASTA_MARK || b == FASTQ_MARK {
                SpecSt { mode: Mode::HeadSkip, acc: 0, ..spec_emit(st, min) }
            } else if b == SEP_MARK {
                SpecSt { mode: Mode::SepSkip, ..spec_emit(st, min) }
            } else if b == LINE_END {
                st
            } else {
                SpecSt { mode: Mode::Line, acc: sat_add(st.acc, 1), ..st }
            },
            Mode::SepSkip => if b == LINE_END {
                SpecSt { mode: Mode::QualSkip { left: sat_add(st.acc, 1) }, acc: 0, ..st }
            } else {
                st
            },
            Mode::QualSkip { left } => if left <= 1 {
                SpecSt { mode: Mode::AwaitHeader, ..st }
            } else {
                SpecSt { mode: Mode::QualSkip { left: (left - 1) as u64 }, ..st }
            },
        }
    }
}

/// A whole byte stream, fed front to back.
pub open spec fn spec_run(st: SpecSt, s: Seq<u8>, min: u64) -> SpecSt
    decreases s.len(),
{
    if s.len() == 0 {
        st
    } else {
        spec_run(spec_step(st, s[0], min), s.skip(1), min)
    }
}

/// End of one input: an outstanding skip is a truncation; an open record is
/// closed and counted; the state resets for the next input.
pub open spec fn spec_finish(st: SpecSt, min: u64) -> Result<SpecSt, ScanError> {
    if st.failed {
        Err(ScanError::MalformedRecordStart)
    } else {
        match st.mode {
            Mode::AwaitHeader => Ok(SpecSt { acc: 0, ..st }),
            Mode::Line | Mode::Eol => Ok(
                SpecSt { mode: Mode::AwaitHeader, acc: 0, ..spec_emit(st, min) },
            ),
            _ => Err(ScanError::TruncatedRecord),
        }
    }
}

/// Splitting a byte stream anywhere and running the two halves in turn is
/// the same as running it whole: chunk boundaries can never change what a
/// scan produces.
pub proof fn lemma_run_chunking(st: SpecSt, a: Seq<u8>, b: Seq<u8>, min: u64)
    ensures
        spec_run(st, a + b, min) == spec_run(spec_run(st, a, min), b, min),
    decreases a.len(),
{
    if a.len() == 0 {
        assert(a + b =~= b);
    } else {
        assert((a + b)[0] == a[0]);
        assert((a + b).skip(1) =~= a.skip(1) + b);
        lemma_run_chunking(spec_step(st, a[0], min), a.skip(1), b, min);
    }
}

/// A one-byte stream is a single step.
pub proof fn lemma_run_one(st: SpecSt, b: u8, min: u64)
    ensures
        spec_run(st, seq![b], min) == spec_step(st, b, min),
{
    let s = seq![b];
    assert(s.len() == 1 && s[0] == b);
    assert(s.skip(1) =~= Seq::<u8>::empty());
    assert(spec_run(spec_step(st, b, min), Seq::<u8>::empty(), min) == spec_step(st, b, min));
}

/// Inside a header or separator line, bytes short of the terminator change
/// nothing.
pub proof fn lemma_run_skip_mode(st: SpecSt, s: Seq<u8>, min: u64)
    requires
        !st.failed,
        st.mode == Mode::HeadSkip || st.mode == Mode::SepSkip,
        forall|k: int| 0 <= k < s.len() ==> s[k] != LINE_END,
    ensures
        spec_run(st, s, min) == st,
    decreases s.len(),
{
    if s.len() > 0 {
        assert(spec_step(st, s[0], min) == st);
        assert(forall|k: int| 0 <= k < s.skip(1).len() ==> s.skip(1)[k] == s[k + 1]);
        lemma_run_skip_mode(st, s.skip(1), min);
    }
}

/// Inside a sequence line, a run of bytes short of the terminator only grows
/// the accumulator, by exactly its length.
pub proof fn lemma_run_line(st: SpecSt, s: Seq<u8>, min: u64)
    requires
        !st.failed,
        st.mode == Mode::Line,
        forall|k: int| 0 <= k < s.len() ==> s[k] != LINE_END,
    ensures
        spec_run(st, s, min) == (SpecSt { acc: sat_addn(st.acc, s.len()), ..st }),
    decreases s.len(),
{
    if s.len() == 0 {
        assert(SpecSt { acc: sat_addn(st.acc, 0), ..st } =~= st);
    } else {
        let st1 = spec_step(st, s[0], min);
        assert(st1 == SpecSt { acc: sat_add(st.acc, 1), ..st });
        assert(forall|k: int| 0 <= k < s.skip(1).len() ==> s.skip(1)[k] == s[k + 1]);
        lemma_run_line(st1, s.skip(1), min);
        assert(sat_addn(sat_add(st.acc, 1), s.skip(1).len()) == sat_addn(st.acc, s.len()));
    }
}

/// Inside the quality region, any bytes up to the owed count are discarded;
/// the region closes exactly when the count is used up.
pub proof fn lemma_run_qual(st: SpecSt, s: Seq<u8>, min: u64, left: u64)
    requires
        !st.failed,
        st.mode == (Mode::QualSkip { left }),
        1 <= left,
        s.len() <= left,
    ensures
        spec_run(st, s, min) == (SpecSt {
            mode: if s.len() == left {
                Mode::AwaitHeader
            } else {
                Mode::QualSkip { left: (left - s.len()) as u64 }
            },
            ..st
        }),
    decreases s.len(),
{
    if s.len() == 0 {
        assert(SpecSt { mode: Mode::QualSkip { left }, ..st } =~= st);
    } else {
        let st1 = spec_step(st, s[0], min);
        if left <= 1 {
            assert(st1 == SpecSt { mode: Mode::AwaitHeader, ..st });
            assert(spec_run(st1, s.skip(1), min) == st1) by {
                assert(s.skip(1).len() == 0);
            }
        } else {
            assert(st1 == SpecSt { mode: Mode::QualSkip { left: (left - 1) as u64 }, ..st });
            lemma_run_qual(st1, s.skip(1), min, (left - 1) as u64);
        }
    }
}

/// Once a malformed boundary has been seen, no further byte changes the
/// outcome.
pub proof fn lemma_run_failed(st: SpecSt, s: Seq<u8>, min: u64)
    requires
        st.failed,
    ensures
        spec_run(st, s, min) == st,
    decreases s.len(),
{
    if s.len() > 0 {
        lemma_run_failed(st, s.skip(1), min);
    }
}

/// The quality region is never owed zero bytes.
pub open spec fn qual_left_ok(st: SpecSt) -> bool {
    match st.mode {
        Mode::QualSkip { left } => left >= 1,
        _ => true,
    }
}

/// The byte machine only ever enters the quality region owing at least one
/// byte, and keeps the owed count positive while inside it.
pub proof fn lemma_run_qual_left_ok(st: SpecSt, s: Seq<u8>, min: u64)
    requires
        qual_left_ok(st),
    ensures
        qual_left_ok(spec_run(st, s, min)),
    decreases s.len(),
{
    if s.len() > 0 {
        lemma_run_qual_left_ok(spec_step(st, s[0], min), s.skip(1), min);
    }
}

} // verus!

verus! {

/// Addition on `u64` that stops at the largest value instead of wrapping.
pub fn sat_add64(a: u64, b: u64) -> (r: u64)
    ensures
        r == sat_add(a, b),
{
    if a <= u64::MAX - b {
        a + b
    } else {
        u64::MAX
    }
}

/// The record scanner: carries the state of a partially scanned record
/// across chunk and buffer boundaries and accumulates the lengths of all
/// records that pass the minimum-length filter.
pub struct Scanner {
    mode: Mode,
    acc: u64,
    lens: Vec<u32>,
    total: u64,
    min_len: u64,
    fed: Ghost<Seq<u8>>,
    base: Ghost<SpecSt>,
}

impl Scanner {
    /// The scanner state as the byte machine sees it.
    pub closed spec fn abs(self) -> SpecSt {
        SpecSt {
            mode: self.mode,
            acc: self.acc,
            lens: self.lens@,
            total: self.total,
            failed: false,
        }
    }

    /// Every byte of the current input consumed so far, in order, over all
    /// chunks.
    pub closed spec fn fed_bytes(self) -> Seq<u8> {
        self.fed@
    }

    /// The abstract state the scanner held when the current input began:
    /// at a record boundary, with the lengths of all earlier inputs kept.
    pub closed spec fn base_spec(self) -> SpecSt {
        self.base@
    }

    /// The minimum-length filter the scanner was created with.
    pub closed spec fn min_spec(self) -> u64 {
        self.min_len
    }

    /// The scanner is exactly the byte machine run, from the state at the
    /// start of the current input, over the bytes consumed so far: what it
    /// holds can never depend on how those bytes were chunked.
    pub open spec fn inv(self) -> bool {
        &&& self.abs() == spec_run(self.base_spec(), self.fed_bytes(), self.min_spec())
        &&& self.base_spec().mode == Mode::AwaitHeader
        &&& self.base_spec().acc == 0
        &&& !self.base_spec().failed
    }

    pub fn new(min_len: u64) -> (s: Scanner)
        ensures
            s.inv(),
            s.fed_bytes() == Seq::<u8>::empty(),
            s.min_spec() == min_len,
            s.abs() == init_st(),
            s.base_spec() == init_st(),
    {
        let s = Scanner {
            mode: Mode::AwaitHeader,
            acc: 0,
            lens: Vec::new(),
            total: 0,
            min_len,
            fed: Ghost(Seq::empty()),
            base: Ghost(init_st()),
        };
        proof {
            assert(s.abs() =~= init_st());
        }
        s
    }

    /// Hands out the collected lengths and their total.
    pub fn results(self) -> (r: (Vec<u32>, u64))
        ensures
            r.0@ == self.abs().lens,
            r.1 == self.abs().total,
    {
        (self.lens, self.total)
    }

    /// Closes the open record, counting it iff it beats the filter.
    fn emit_record(&mut self)
        ensures
            final(self).abs() == spec_emit(old(self).abs(), old(self).min_spec()),
            final(self).fed_bytes() == old(self).fed_bytes(),
            final(self).min_spec() == old(self).min_spec(),
            final(self).base_spec() == old(self).base_spec(),
    {
        if self.acc > self.min_len {
            let v: u32 = (self.acc % 0x1_0000_0000) as u32;
            self.lens.push(v);
            self.total = sat_add64(self.total, self.acc);
            proof {
                assert(final(self).abs() =~= spec_emit(old(self).abs(), old(self).min_spec()));
            }
        }
    }
}

} // verus!

verus! {

impl Scanner {
    /// Runs the scanner over everything available in `buf`, suspending when
    /// a primitive needs more data than the chunk holds. The bytes consumed
    /// are exactly a prefix of the unread region, and the scanner ends up in
    /// the byte machine's state after those bytes — whatever the chunking.
    pub fn scan_chunk(&mut self, buf: &mut Buffer) -> (r: Result<(), ScanError>)
        requires
            old(self).inv(),
            old(buf).wf(),
        ensures
            final(buf).wf(),
            final(buf).cap_spec() == old(buf).cap_spec(),
            final(self).min_spec() == old(self).min_spec(),
            final(self).base_spec() == old(self).base_spec(),
            old(self).fed_bytes().len() <= final(self).fed_bytes().len(),
            final(self).fed_bytes().len() - old(self).fed_bytes().len() <= old(
                buf,
            ).unread().len(),
            (final(self).fed_bytes() == old(self).fed_bytes() + old(buf).unread().take(
                final(self).fed_bytes().len() - old(self).fed_bytes().len(),
            )),
            (final(buf).unread() == old(buf).unread().skip(
                final(self).fed_bytes().len() - old(self).fed_bytes().len(),
            )),
            r matches Ok(()) ==> final(self).inv(),
            r matches Ok(()) ==> (final(buf).unread().len() == 0 || {
                &&& (final(self).abs().mode == Mode::HeadSkip || final(self).abs().mode
                    == Mode::Line || final(self).abs().mode == Mode::SepSkip)
                &&& forall|k: int|
                    0 <= k < final(buf).unread().len() ==> final(buf).unread()[k] != LINE_END
            }),
            r matches Err(e) ==> {
                &&& e == ScanError::MalformedRecordStart
                &&& spec_run(
                    old(self).base_spec(),
                    old(self).fed_bytes() + old(buf).unread(),
                    old(self).min_spec(),
                ).failed
            },
    {
        let ghost all0 = buf.unread();
        let ghost fedin = self.fed@;
        let ghost min = self.min_len;
        let ghost bas = self.base@;
        loop
            invariant
                buf.wf(),
                buf.cap_spec() == old(buf).cap_spec(),
                self.min_len == old(self).min_len,
                min == old(self).min_len,
                all0 == old(buf).unread(),
                fedin == old(self).fed_bytes(),
                bas == old(self).base_spec(),
                self.base@ == bas,
                fedin.len() <= self.fed@.len(),
                self.fed@.len() - fedin.len() <= all0.len(),
                self.fed@ == fedin + all0.take(self.fed@.len() - fedin.len()),
                buf.unread() == all0.skip(self.fed@.len() - fedin.len()),
                self.inv(),
            ensures
                buf.wf(),
                buf.cap_spec() == old(buf).cap_spec(),
                self.min_len == old(self).min_len,
                self.base@ == old(self).base_spec(),
                fedin.len() <= self.fed@.len(),
                self.fed@.len() - fedin.len() <= all0.len(),
                self.fed@ == fedin + all0.take(self.fed@.len() - fedin.len()),
                buf.unread() == all0.skip(self.fed@.len() - fedin.len()),
                self.inv(),
                buf.unread().len() == 0 || {
                    &&& (self.mode == Mode::HeadSkip || self.mode == Mode::Line || self.mode
                        == Mode::SepSkip)
                    &&& forall|k: int|
                        0 <= k < buf.unread().len() ==> buf.unread()[k] != LINE_END
                },
            decreases buf.unread().len(),
        {
            let ghost d0: int = self.fed@.len() - fedin.len();
            let ghost u0 = buf.unread();
            let ghost st0 = self.abs();
            let ghost fed0 = self.fed@;
            match self.mode {
                Mode::AwaitHeader => {
                    match buf.next_byte(true) {
                        None => {
                            break ;
                        },
                        Some(b) => {
                            self.fed = Ghost(fed0 + seq![b]);
                            proof {
                                assert(seq![b] =~= u0.take(1));
                                assert(all0.take(d0 + 1) =~= all0.take(d0) + u0.take(1));
                                assert(self.fed@ =~= fedin + all0.take(d0 + 1));
                                assert(u0.skip(1) =~= all0.skip(d0 + 1));
                                lemma_run_chunking(bas, fed0, seq![b], min);
                                lemma_run_one(st0, b, min);
                            }
                            if b == FASTA_MARK || b == FASTQ_MARK {
                                self.mode = Mode::HeadSkip;
                                proof {
                                    assert(self.abs() =~= spec_step(st0, b, min));
                                }
                            } else {
                                proof {
                                    assert(spec_run(bas, self.fed@, min).failed);
                                    assert(fedin + all0 =~= self.fed@ + all0.skip(d0 + 1));
                                    lemma_run_chunking(bas, self.fed@, all0.skip(d0 + 1), min);
                                    lemma_run_failed(
                                        spec_run(bas, self.fed@, min),
                                        all0.skip(d0 + 1),
                                        min,
                                    );
                                }
                                return Err(ScanError::MalformedRecordStart);
                            }
                        },
                    }
                },
                Mode::HeadSkip => {
                    match buf.consume_next_line() {
                        None => {
                            break ;
                        },
                        Some(p) => {
                            self.fed = Ghost(fed0 + u0.take(p as int + 1));
                            self.mode = Mode::Line;
                            self.acc = 0;
                            proof {
                                let k: int = p as int + 1;
                                assert(all0.take(d0 + k) =~= all0.take(d0) + u0.take(k));
                                assert(self.fed@ =~= fedin + all0.take(d0 + k));
                                assert(u0.skip(k) =~= all0.skip(d0 + k));
                                lemma_run_chunking(bas, fed0, u0.take(k), min);
                                assert(u0.take(k) =~= u0.take(p as int) + seq![u0[p as int]]);
                                lemma_run_chunking(st0, u0.take(p as int), seq![u0[p as int]], min);
                                assert(forall|j: int|
                                    0 <= j < p ==> u0.take(p as int)[j] == u0[j]);
                                lemma_run_skip_mode(st0, u0.take(p as int), min);
                                lemma_run_one(st0, u0[p as int], min);
                                assert(self.abs() =~= spec_step(st0, LINE_END, min));
                            }
                        },
                    }
                },
                Mode::Line => {
                    match buf.consume_next_line() {
                        None => {
                            break ;
                        },
                        Some(p) => {
                            self.fed = Ghost(fed0 + u0.take(p as int + 1));
                            self.acc = sat_add64(self.acc, p as u64);
                            self.mode = Mode::Eol;
                            proof {
                                let k: int = p as int + 1;
                                assert(all0.take(d0 + k) =~= all0.take(d0) + u0.take(k));
                                assert(self.fed@ =~= fedin + all0.take(d0 + k));
                                assert(u0.skip(k) =~= all0.skip(d0 + k));
                                lemma_run_chunking(bas, fed0, u0.take(k), min);
                                assert(u0.take(k) =~= u0.take(p as int) + seq![u0[p as int]]);
                                lemma_run_chunking(st0, u0.take(p as int), seq![u0[p as int]], min);
                                assert(forall|j: int|
                                    0 <= j < p ==> u0.take(p as int)[j] == u0[j]);
                                lemma_run_line(st0, u0.take(p as int), min);
                                let st1 = spec_run(st0, u0.take(p as int), min);
                                assert(st1.acc == sat_addn(st0.acc, p as nat));
                                assert(sat_addn(st0.acc, p as nat) == sat_add(st0.acc, p as u64));
                                lemma_run_one(st1, u0[p as int], min);
                                assert(self.abs() =~= spec_step(st1, LINE_END, min));
                            }
                        },
                    }
                },
                Mode::Eol => {
                    match buf.next_byte(true) {
                        None => {
                            break ;
                        },
                        Some(b) => {
                            self.fed = Ghost(fed0 + seq![b]);
                            proof {
                                assert(seq![b] =~= u0.take(1));
                                assert(all0.take(d0 + 1) =~= all0.take(d0) + u0.take(1));
                                assert(self.fed@ =~= fedin + all0.take(d0 + 1));
                                assert(u0.skip(1) =~= all0.skip(d0 + 1));
                                lemma_run_chunking(bas, fed0, seq![b], min);
                                lemma_run_one(st0, b, min);
                            }
                            if b == FASTA_MARK || b == FASTQ_MARK {
                                self.emit_record();
                                self.acc = 0;
                                self.mode = Mode::HeadSkip;
                                proof {
                                    assert(self.abs() =~= spec_step(st0, b, min));
                                }
                            } else if b == SEP_MARK {
                                self.emit_record();
                                self.mode = Mode::SepSkip;
                                proof {
                                    assert(self.abs() =~= spec_step(st0, b, min));
                                }
                            } else if b == LINE_END {
                                proof {
                                    assert(self.abs() =~= spec_step(st0, b, min));
                                }
                            } else {
                                self.acc = sat_add64(self.acc, 1);
                                self.mode = Mode::Line;
                                proof {
                                    assert(self.abs() =~= spec_step(st0, b, min));
                                }
                            }
                        },
                    }
                },
                Mode::SepSkip => {
                    match buf.consume_next_line() {
                        None => {
                            break ;
                        },
                        Some(p) => {
                            self.fed = Ghost(fed0 + u0.take(p as int + 1));
                            self.mode = Mode::QualSkip { left: sat_add64(self.acc, 1) };
                            self.acc = 0;
                            proof {
                                let k: int = p as int + 1;
                                assert(all0.take(d0 + k) =~= all0.take(d0) + u0.take(k));
                                assert(self.fed@ =~= fedin + all0.take(d0 + k));
                                assert(u0.skip(k) =~= all0.skip(d0 + k));
                                lemma_run_chunking(bas, fed0, u0.take(k), min);
                                assert(u0.take(k) =~= u0.take(p as int) + seq![u0[p as int]]);
                                lemma_run_chunking(st0, u0.take(p as int), seq![u0[p as int]], min);
                                assert(forall|j: int|
                                    0 <= j < p ==> u0.take(p as int)[j] == u0[j]);
                                lemma_run_skip_mode(st0, u0.take(p as int), min);
                                lemma_run_one(st0, u0[p as int], min);
                                assert(self.abs() =~= spec_step(st0, LINE_END, min));
                            }
                        },
                    }
                },
                Mode::QualSkip { left } => {
                    proof {
                        lemma_run_qual_left_ok(bas, fed0, min);
                        assert(left >= 1);
                    }
                    let want: usize = if left <= usize::MAX as u64 {
                        left as usize
                    } else {
                        usize::MAX
                    };
                    let k = buf.skip_bytes(want);
                    if k == 0 {
                        proof {
                            assert(buf.unread() =~= u0);
                        }
                        break ;
                    }
                    self.fed = Ghost(fed0 + u0.take(k as int));
                    proof {
                        assert(k as u64 <= left);
                    }
                    let newleft = left - (k as u64);
                    if newleft == 0 {
                        self.mode = Mode::AwaitHeader;
                    } else {
                        self.mode = Mode::QualSkip { left: newleft };
                    }
                    proof {
                        assert(all0.take(d0 + k as int) =~= all0.take(d0) + u0.take(k as int));
                        assert(self.fed@ =~= fedin + all0.take(d0 + k as int));
                        assert(u0.skip(k as int) =~= all0.skip(d0 + k as int));
                        lemma_run_chunking(bas, fed0, u0.take(k as int), min);
                        lemma_run_qual(st0, u0.take(k as int), min, left);
                        assert(self.abs() =~= spec_run(st0, u0.take(k as int), min));
                    }
                },
            }
        }
        Ok(())
    }
}

} // verus!

verus! {

impl Scanner {
    /// Consumes every remaining unread byte one at a time. Used at end of
    /// input, and when a single line overflows the whole arena so that the
    /// line-level primitives cannot make progress.
    pub fn drain_chunk(&mut self, buf: &mut Buffer) -> (r: Result<(), ScanError>)
        requires
            old(self).inv(),
            old(buf).wf(),
        ensures
            final(buf).wf(),
            final(buf).cap_spec() == old(buf).cap_spec(),
            final(self).min_spec() == old(self).min_spec(),
            final(self).base_spec() == old(self).base_spec(),
            r matches Ok(()) ==> {
                &&& final(buf).unread().len() == 0
                &&& final(self).fed_bytes() == old(self).fed_bytes() + old(buf).unread()
                &&& final(self).inv()
            },
            r matches Err(e) ==> {
                &&& e == ScanError::MalformedRecordStart
                &&& spec_run(
                    old(self).base_spec(),
                    old(self).fed_bytes() + old(buf).unread(),
                    old(self).min_spec(),
                ).failed
            },
    {
        let ghost all0 = buf.unread();
        let ghost fedin = self.fed@;
        let ghost min = self.min_len;
        let ghost bas = self.base@;
        loop
            invariant
                buf.wf(),
                buf.cap_spec() == old(buf).cap_spec(),
                self.min_len == old(self).min_len,
                min == old(self).min_len,
                all0 == old(buf).unread(),
                fedin == old(self).fed_bytes(),
                bas == old(self).base_spec(),
                self.base@ == bas,
                fedin.len() <= self.fed@.len(),
                self.fed@.len() - fedin.len() <= all0.len(),
                self.fed@ == fedin + all0.take(self.fed@.len() - fedin.len()),
                buf.unread() == all0.skip(self.fed@.len() - fedin.len()),
                self.inv(),
            ensures
                buf.wf(),
                buf.cap_spec() == old(buf).cap_spec(),
                self.min_len == old(self).min_len,
                self.base@ == old(self).base_spec(),
                buf.unread().len() == 0,
                self.fed@ == fedin + all0,
                self.inv(),
            decreases buf.unread().len(),
        {
            let ghost d0: int = self.fed@.len() - fedin.len();
            let ghost u0 = buf.unread();
            let ghost st0 = self.abs();
            let ghost fed0 = self.fed@;
            match buf.next_byte(true) {
                None => {
                    proof {
                        assert(all0.take(d0) =~= all0);
                    }
                    break ;
                },
                Some(b) => {
                    self.fed = Ghost(fed0 + seq![b]);
                    proof {
                        assert(seq![b] =~= u0.take(1));
                        assert(all0.take(d0 + 1) =~= all0.take(d0) + u0.take(1));
                        assert(self.fed@ =~= fedin + all0.take(d0 + 1));
                        assert(u0.skip(1) =~= all0.skip(d0 + 1));
                        lemma_run_chunking(bas, fed0, seq![b], min);
                        lemma_run_one(st0, b, min);
                    }
                    match self.mode {
                        Mode::AwaitHeader => {
                            if b == FASTA_MARK || b == FASTQ_MARK {
                                self.mode = Mode::HeadSkip;
                            } else {
                                proof {
                                    assert(spec_run(bas, self.fed@, min).failed);
                                    assert(fedin + all0 =~= self.fed@ + all0.skip(d0 + 1));
                                    lemma_run_chunking(bas, self.fed@, all0.skip(d0 + 1), min);
                                    lemma_run_failed(
                                        spec_run(bas, self.fed@, min),
                                        all0.skip(d0 + 1),
                                        min,
                                    );
                                }
                                return Err(ScanError::MalformedRecordStart);
                            }
                        },
                        Mode::HeadSkip => {
                            if b == LINE_END {
                                self.mode = Mode::Line;
                                self.acc = 0;
                            }
                        },
                        Mode::Line => {
                            if b == LINE_END {
                                self.mode = Mode::Eol;
                            } else {
                                self.acc = sat_add64(self.acc, 1);
                            }
                        },
                        Mode::Eol => {
                            if b == FASTA_MARK || b == FASTQ_MARK {
                                self.emit_record();
                                self.acc = 0;
                                self.mode = Mode::HeadSkip;
                            } else if b == SEP_MARK {
                                self.emit_record();
                                self.mode = Mode::SepSkip;
                            } else if b == LINE_END {
                            } else {
                                self.acc = sat_add64(self.acc, 1);
                                self.mode = Mode::Line;
                            }
                        },
                        Mode::SepSkip => {
                            if b == LINE_END {
                                self.mode = Mode::QualSkip { left: sat_add64(self.acc, 1) };
                                self.acc = 0;
                            }
                        },
                        Mode::QualSkip { left } => {
                            if left <= 1 {
                                self.mode = Mode::AwaitHeader;
                            } else {
                                self.mode = Mode::QualSkip { left: left - 1 };
                            }
                        },
                    }
                    proof {
                        assert(self.abs() =~= spec_step(st0, b, min));
                    }
                },
            }
        }
        Ok(())
    }

    /// End of one input: drains what is left in the buffer, reports a
    /// truncation if a header, separator or quality region is still owed
    /// bytes, otherwise closes and counts the open record, and resets the
    /// carry state for the next input.
    pub fn finish_input(&mut self, buf: &mut Buffer) -> (r: Result<(), ScanError>)
        requires
            old(self).inv(),
            old(buf).wf(),
        ensures
            final(buf).wf(),
            final(buf).cap_spec() == old(buf).cap_spec(),
            final(self).min_spec() == old(self).min_spec(),
            r matches Ok(()) ==> {
                &&& final(buf).unread().len() == 0
                &&& final(self).inv()
                &&& final(self).fed_bytes().len() == 0
                &&& final(self).base_spec() == final(self).abs()
                &&& Ok::<SpecSt, ScanError>(final(self).abs()) == spec_finish(
                    spec_run(
                        old(self).base_spec(),
                        old(self).fed_bytes() + old(buf).unread(),
                        old(self).min_spec(),
                    ),
                    old(self).min_spec(),
                )
            },
            r matches Err(e) ==> Err::<SpecSt, ScanError>(e) == spec_finish(
                spec_run(
                    old(self).base_spec(),
                    old(self).fed_bytes() + old(buf).unread(),
                    old(self).min_spec(),
                ),
                old(self).min_spec(),
            ),
    {
        match self.drain_chunk(buf) {
            Err(e) => {
                proof {
                    assert(spec_run(
                        old(self).base_spec(),
                        old(self).fed_bytes() + old(buf).unread(),
                        old(self).min_spec(),
                    ).failed);
                }
                Err(e)
            },
            Ok(()) => {
                let ghost runst = self.abs();
                match self.mode {
                    Mode::AwaitHeader => {
                        self.acc = 0;
                        self.base = Ghost(self.abs());
                        self.fed = Ghost(Seq::empty());
                        proof {
                            assert(self.abs() =~= (SpecSt { acc: 0, ..runst }));
                        }
                        Ok(())
                    },
                    Mode::Line | Mode::Eol => {
                        self.emit_record();
                        self.acc = 0;
                        self.mode = Mode::AwaitHeader;
                        self.base = Ghost(self.abs());
                        self.fed = Ghost(Seq::empty());
                        proof {
                            assert(self.abs() =~= (SpecSt {
                                mode: Mode::AwaitHeader,
                                acc: 0,
                                ..spec_emit(runst, self.min_len)
                            }));
                        }
                        Ok(())
                    },
                    _ => {
                        proof {
                            assert(spec_finish(runst, self.min_len) == Err::<
                                SpecSt,
                                ScanError,
                            >(ScanError::TruncatedRecord));
                        }
                        Err(ScanError::TruncatedRecord)
                    },
                }
            },
        }
    }
}

} // verus!

verus! {

/// Scans one whole input through a bounded arena of `chunk_cap` bytes, just
/// as the streaming pipeline does chunk by chunk, and returns the record
/// lengths with their running total. The outcome equals the byte machine
/// run over the whole input followed by the end-of-input flush: the arena
/// size can never change it.
pub fn scan_all(input: &[u8], chunk_cap: usize, min_len: u64) -> (r: Result<
    (Vec<u32>, u64),
    ScanError,
>)
    requires
        1 <= chunk_cap,
    ensures
        (match spec_finish(spec_run(init_st(), input@, min_len), min_len) {
            Ok(stf) => r matches Ok(v) && v.0@ == stf.lens && v.1 == stf.total,
            Err(e) => r matches Err(e2) && e2 == e,
        }),
{
    let mut sc = Scanner::new(min_len);
    let mut buf = Buffer::new(chunk_cap);
    let n = input.len();
    let mut idx: usize = 0;
    while idx < n
        invariant
            sc.inv(),
            sc.base_spec() == init_st(),
            sc.min_spec() == min_len,
            buf.wf(),
            buf.cap_spec() == chunk_cap,
            1 <= chunk_cap,
            idx <= n,
            n == input@.len(),
            sc.fed_bytes() + buf.unread() == input@.take(idx as int),
        decreases n - idx, buf.unread().len(),
    {
        let ghost u_head = buf.unread();
        let ghost idx0: int = idx as int;
        buf.compact();
        let free = buf.free_space();
        let rem = n - idx;
        let take = if free < rem {
            free
        } else {
            rem
        };
        let ghost fed1 = sc.fed_bytes();
        let ghost u1 = buf.unread();
        buf.append_from(input, idx, idx + take);
        idx = idx + take;
        proof {
            assert(fed1 + u1 == input@.take(idx0));
            assert(buf.unread() == u1 + input@.subrange(idx0, idx0 + take as int));
            assert(input@.take(idx0 + take as int) =~= input@.take(idx0) + input@.subrange(
                idx0,
                idx0 + take as int,
            ));
            assert(sc.fed_bytes() + buf.unread() =~= input@.take(idx as int));
        }
        let ghost fed2 = sc.fed_bytes();
        let ghost u2 = buf.unread();
        match sc.scan_chunk(&mut buf) {
            Err(e) => {
                proof {
                    assert(fed2 + u2 == input@.take(idx as int));
                    assert(spec_run(init_st(), fed2 + u2, min_len).failed);
                    assert(input@ =~= input@.take(idx as int) + input@.skip(idx as int));
                    lemma_run_chunking(
                        init_st(),
                        input@.take(idx as int),
                        input@.skip(idx as int),
                        min_len,
                    );
                    lemma_run_failed(
                        spec_run(init_st(), input@.take(idx as int), min_len),
                        input@.skip(idx as int),
                        min_len,
                    );
                }
                return Err(e);
            },
            Ok(()) => {},
        }
        proof {
            let d: int = sc.fed_bytes().len() - fed2.len();
            assert(sc.fed_bytes() == fed2 + u2.take(d));
            assert(buf.unread() == u2.skip(d));
            assert(u2.take(d) + u2.skip(d) =~= u2);
            assert(sc.fed_bytes() + buf.unread() =~= (fed2 + u2.take(d)) + u2.skip(d));
            assert((fed2 + u2.take(d)) + u2.skip(d) =~= fed2 + u2);
            assert(sc.fed_bytes() + buf.unread() =~= input@.take(idx as int));
        }
        if take == 0 {
            let ghost fed3 = sc.fed_bytes();
            let ghost u3 = buf.unread();
            match sc.drain_chunk(&mut buf) {
                Err(e) => {
                    proof {
                        assert(fed3 + u3 == input@.take(idx as int));
                        assert(spec_run(init_st(), fed3 + u3, min_len).failed);
                        assert(input@ =~= input@.take(idx as int) + input@.skip(idx as int));
                        lemma_run_chunking(
                            init_st(),
                            input@.take(idx as int),
                            input@.skip(idx as int),
                            min_len,
                        );
                        lemma_run_failed(
                            spec_run(init_st(), input@.take(idx as int), min_len),
                            input@.skip(idx as int),
                            min_len,
                        );
                    }
                    return Err(e);
                },
                Ok(()) => {},
            }
            proof {
                assert(sc.fed_bytes() == fed3 + u3);
                assert(buf.unread().len() == 0);
                assert(sc.fed_bytes() + buf.unread() =~= fed3 + u3);
                assert(sc.fed_bytes() + buf.unread() =~= input@.take(idx as int));
                assert(u_head.len() == chunk_cap);
            }
        }
    }
    proof {
        assert(input@.take(n as int) =~= input@);
    }
    match sc.finish_input(&mut buf) {
        Err(e) => {
            return Err(e);
        },
        Ok(()) => {},
    }
    let (lens, total) = sc.results();
    Ok((lens, total))
}

} // verus!

verus! {

/// The strict minimum-length filter: at a record boundary the record just
/// scanned joins the length set exactly when its length strictly exceeds
/// the minimum — a record of exactly the minimum length is excluded. The
/// stored value equals the record's length whenever it fits the set's
/// 32-bit width.
pub proof fn lemma_min_length_filter(st: SpecSt, b: u8, min: u64)
    requires
        !st.failed,
        st.mode == Mode::Eol,
        b == FASTA_MARK || b == FASTQ_MARK || b == SEP_MARK,
    ensures
        st.acc > min <==> spec_step(st, b, min).lens == st.lens.push(trunc32(st.acc)),
        st.acc <= min ==> spec_step(st, b, min).lens == st.lens,
        st.acc > min ==> spec_step(st, b, min).total == sat_add(st.total, st.acc),
        st.acc > min && st.acc <= u32::MAX ==> spec_step(st, b, min).lens.last() == st.acc,
{
    if st.acc <= min {
        assert(spec_step(st, b, min).lens.len() == st.lens.len());
        if spec_step(st, b, min).lens == st.lens.push(trunc32(st.acc)) {
            assert(st.lens.push(trunc32(st.acc)).len() == st.lens.len() + 1);
            assert(false);
        }
    }
}

} // verus!

verus! {

/// The same strict filter at end of input: the record still open when the
/// input ends joins the length set exactly when its length strictly exceeds
/// the minimum.
pub proof fn lemma_min_length_filter_finish(st: SpecSt, min: u64)
    requires
        !st.failed,
        st.mode == Mode::Line || st.mode == Mode::Eol,
    ensures
        spec_finish(st, min) matches Ok(stf) && {
            &&& (st.acc > min <==> stf.lens == st.lens.push(trunc32(st.acc)))
            &&& (st.acc <= min ==> stf.lens == st.lens)
        },
{
    let stf = spec_finish(st, min).unwrap();
    if st.acc <= min {
        if stf.lens == st.lens.push(trunc32(st.acc)) {
            assert(st.lens.push(trunc32(st.acc)).len() == st.lens.len() + 1);
            assert(false);
        }
    }
}

} // verus!
