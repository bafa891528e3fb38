//! Formatting of records and the buffered record writer.
//!
//! A record is rendered as `[<timestamp>] <line>` plus a newline, one output
//! line per physical line of the message — each line carries its own
//! timestamp.  The writer owns a destination path and a circular buffer of
//! pending output; a record that does not fit in the remaining space asks
//! the caller to flush first, so the buffer never holds a cut record
//! within capacity.  File I/O itself happens on the caller's side of the
//! flush protocol: `pending` hands out the bytes to write and
//! `mark_flushed` clears them once they are safely on disk, so a failed
//! flush leaves the buffer intact.

use vstd::prelude::*;

verus! {

use vstd::utf8::valid_utf8;
use vstd::utf8::encode_utf8;
use vstd::utf8::encode_utf8_valid_utf8;
use vstd::utf8::valid_utf8_concat;
use vstd::slice::slice_index_get;
use crate::log_buffer::LogBuffer;
use crate::record::LogEntry;
use crate::text::ascii_printable;
use crate::text::extract_model;
use crate::text::ring_append;
use crate::text::lemma_ascii_block_valid;
use crate::text::lemma_lf_split;

/// Index of the first newline byte, or `s.len()` when there is none.
pub open spec fn first_lf(s: Seq<u8>) -> int
    decreases s.len(),
{
    if s.len() == 0 {
        0
    } else if s[0] == 0x0au8 {
        0
    } else {
        1 + first_lf(s.skip(1))
    }
}

/// One output line: `[<timestamp>] <line>` and a trailing newline.
pub open spec fn render_line(ts: Seq<u8>, line: Seq<u8>) -> Seq<u8> {
    seq![0x5bu8] + ts + seq![0x5du8, 0x20u8] + line + seq![0x0au8]
}

/// The whole formatted record: each physical line of the message becomes
/// one output line with its own timestamp.  An empty message renders no
/// output line; a trailing newline does not add an empty one.
pub open spec fn formatted(ts: Seq<u8>, m: Seq<u8>) -> Seq<u8>
    decreases m.len(),
{
    if m.len() == 0 {
        Seq::empty()
    } else {
        let p = first_lf(m);
        if 0 <= p < m.len() {
            render_line(ts, m.take(p)) + formatted(ts, m.skip(p + 1))
        } else {
            render_line(ts, m)
        }
    }
}

/// The bytes a record contributes to the output.
pub open spec fn entry_output(e: LogEntry) -> Seq<u8> {
    formatted(e.timestamp@, encode_utf8(e.message@))
}

pub proof fn lemma_first_lf_bounds(s: Seq<u8>)
    ensures
        0 <= first_lf(s) <= s.len(),
        first_lf(s) < s.len() ==> s[first_lf(s)] == 0x0au8,
        forall|j: int| 0 <= j < first_lf(s) ==> #[trigger] s[j] != 0x0au8,
    decreases s.len(),
{
    if s.len() == 0 {
    } else if s[0] == 0x0au8 {
    } else {
        lemma_first_lf_bounds(s.skip(1));
        let f = first_lf(s);
        if f < s.len() {
            assert(s.skip(1)[f - 1] == s[f]);
        }
        assert forall|j: int| 0 <= j < f implies #[trigger] s[j] != 0x0au8 by {
            if j > 0 {
                assert(s.skip(1)[j - 1] == s[j]);
            }
        }
    }
}

/// The first newline is at `i` exactly when nothing before `i` is a newline
/// and the byte at `i` (if any) is one.
pub proof fn lemma_first_lf_unique(s: Seq<u8>, i: int)
    requires
        0 <= i <= s.len(),
        forall|j: int| 0 <= j < i ==> #[trigger] s[j] != 0x0au8,
        i < s.len() ==> s[i] == 0x0au8,
    ensures
        first_lf(s) == i,
    decreases s.len(),
{
    if s.len() == 0 {
    } else if i == 0 {
    } else {
        assert(s[0] != 0x0au8);
        assert forall|j: int| 0 <= j < i - 1 implies #[trigger] s.skip(1)[j] != 0x0au8 by {
            assert(s.skip(1)[j] == s[j + 1]);
        }
        if i - 1 < s.len() - 1 {
            assert(s.skip(1)[i - 1] == s[i]);
        }
        lemma_first_lf_unique(s.skip(1), i - 1);
    }
}

/// One rendered output line is valid UTF-8 when the timestamp is printable
/// ASCII and the line body is valid UTF-8.
pub proof fn lemma_render_line_valid(ts: Seq<u8>, line: Seq<u8>)
    requires
        ascii_printable(ts),
        valid_utf8(line),
    ensures
        valid_utf8(render_line(ts, line)),
{
    let pre = seq![0x5bu8] + ts + seq![0x5du8, 0x20u8];
    assert forall|i: int| 0 <= i < pre.len() implies #[trigger] pre[i] < 0x80 by {
        if 1 <= i < 1 + ts.len() {
            assert(pre[i] == ts[i - 1]);
            assert(0x20 <= ts[i - 1] < 0x7f);
        }
    }
    lemma_ascii_block_valid(pre);
    valid_utf8_concat(pre, line);
    lemma_ascii_block_valid(seq![0x0au8]);
    valid_utf8_concat(pre + line, seq![0x0au8]);
    assert(render_line(ts, line) =~= (pre + line) + seq![0x0au8]);
}

/// A formatted record is valid UTF-8.
pub proof fn lemma_formatted_valid(ts: Seq<u8>, m: Seq<u8>)
    requires
        ascii_printable(ts),
        valid_utf8(m),
    ensures
        valid_utf8(formatted(ts, m)),
    decreases m.len(),
{
    if m.len() == 0 {
        assert(valid_utf8(Seq::<u8>::empty()));
    } else {
        lemma_first_lf_bounds(m);
        let p = first_lf(m);
        if p < m.len() {
            lemma_lf_split(m, p);
            lemma_render_line_valid(ts, m.take(p));
            lemma_formatted_valid(ts, m.skip(p + 1));
            valid_utf8_concat(render_line(ts, m.take(p)), formatted(ts, m.skip(p + 1)));
        } else {
            lemma_render_line_valid(ts, m);
        }
    }
}

/// Law: a record contributes whole output lines — its formatted bytes open
/// with `[` and end with a newline whenever the message is non-empty.  So
/// records appended to the buffer one after the other never merge onto one
/// line and never leave a line half-written; which of two overlapping
/// callers comes first is the exclusive lock's serialization, outside this
/// core.
pub proof fn law_record_is_whole_lines(ts: Seq<u8>, m: Seq<u8>)
    ensures
        m.len() > 0 ==> formatted(ts, m).len() > 0,
        formatted(ts, m).len() > 0 ==> formatted(ts, m)[0] == 0x5bu8,
        formatted(ts, m).len() > 0 ==> formatted(ts, m).last() == 0x0au8,
    decreases m.len(),
{
    if m.len() > 0 {
        lemma_first_lf_bounds(m);
        let p = first_lf(m);
        if p < m.len() {
            law_record_is_whole_lines(ts, m.skip(p + 1));
            let head = render_line(ts, m.take(p));
            let rest = formatted(ts, m.skip(p + 1));
            assert(head.len() > 0);
            assert(formatted(ts, m) == head + rest);
            assert(formatted(ts, m)[0] == head[0]);
            assert(head[0] == 0x5bu8);
            if rest.len() == 0 {
                assert(formatted(ts, m).last() == head.last());
                assert(head.last() == 0x0au8);
            } else {
                assert(formatted(ts, m).last() == rest.last());
            }
        } else {
            let line = render_line(ts, m);
            assert(line[0] == 0x5bu8);
            assert(line.last() == 0x0au8);
        }
    }
}

/// Renders the record as output lines, one per physical line of the
/// message, each prefixed with the record's capture timestamp.
pub fn format_entry(entry: &LogEntry) -> (r: Vec<u8>)
    requires
        entry.inv(),
    ensures
        r@ == entry_output(*entry),
        valid_utf8(r@),
{
    let msg: &[u8] = entry.message.as_str().as_bytes();
    let ghost b = msg@;
    let ghost ts = entry.timestamp@;
    proof {
        encode_utf8_valid_utf8(entry.message@);
        lemma_formatted_valid(ts, b);
    }
    let n = msg.len();
    let mut out: Vec<u8> = Vec::new();
    proof {
        assert(b.skip(0) =~= b);
        assert(Seq::<u8>::empty() + formatted(ts, b) =~= formatted(ts, b));
    }
    let mut p: usize = 0;
    while p < n
        invariant
            p <= n,
            n == b.len(),
            b == msg@,
            valid_utf8(b),
            ts == entry.timestamp@,
            ascii_printable(ts),
            out@ + formatted(ts, b.skip(p as int)) == formatted(ts, b),
        decreases n - p,
    {
        let ghost out0 = out@;
        let mut q: usize = p;
        while q < n
            invariant_except_break
                p <= q <= n,
                n == b.len(),
                b == msg@,
                forall|j: int| p <= j < q ==> #[trigger] b[j] != 0x0au8,
            ensures
                p <= q <= n,
                forall|j: int| p <= j < q ==> #[trigger] b[j] != 0x0au8,
                q < n ==> b[q as int] == 0x0au8,
            decreases n - q,
        {
            if *slice_index_get(msg, q) == 0x0au8 {
                break ;
            }
            q += 1;
        }
        out.push(0x5bu8);
        let ghost out1 = out@;
        let tn = entry.timestamp.len();
        let mut t: usize = 0;
        while t < tn
            invariant
                t <= tn,
                tn == entry.timestamp@.len(),
                ts == entry.timestamp@,
                out@ == out1 + ts.take(t as int),
            decreases tn - t,
        {
            let c = entry.timestamp[t];
            out.push(c);
            proof {
                assert(out@ =~= out1 + ts.take(t as int + 1));
            }
            t += 1;
        }
        out.push(0x5du8);
        out.push(0x20u8);
        let ghost out2 = out@;
        let mut k: usize = p;
        while k < q
            invariant
                p <= k <= q,
                q <= n,
                n == b.len(),
                b == msg@,
                out@ == out2 + b.subrange(p as int, k as int),
            decreases q - k,
        {
            let c = *slice_index_get(msg, k);
            out.push(c);
            proof {
                assert(out@ =~= out2 + b.subrange(p as int, k as int + 1));
            }
            k += 1;
        }
        out.push(0x0au8);
        proof {
            let s = b.skip(p as int);
            assert forall|j: int| 0 <= j < q - p implies #[trigger] s[j] != 0x0au8 by {
                assert(s[j] == b[p + j]);
            }
            if (q as int) < n {
                assert(s[q - p] == b[q as int]);
            }
            lemma_first_lf_unique(s, q - p);
            assert(ts.take(tn as int) =~= ts);
            assert(out@ =~= out0 + render_line(ts, b.subrange(p as int, q as int)));
            if q < n {
                assert(s.take(q - p) =~= b.subrange(p as int, q as int));
                assert(s.skip(q - p + 1) =~= b.skip(q as int + 1));
                assert(formatted(ts, s) == render_line(ts, b.subrange(p as int, q as int))
                    + formatted(ts, b.skip(q as int + 1)));
                assert(out@ + formatted(ts, b.skip(q as int + 1)) =~= out0 + formatted(ts, s));
            } else {
                assert(s =~= b.subrange(p as int, q as int));
                assert(formatted(ts, s) == render_line(ts, s));
                assert(b.skip(n as int) =~= Seq::<u8>::empty());
                assert(formatted(ts, b.skip(n as int)) == Seq::<u8>::empty());
                assert(out@ + formatted(ts, b.skip(n as int)) =~= out0 + formatted(ts, s));
            }
        }
        if q < n {
            p = q + 1;
        } else {
            p = n;
        }
    }
    proof {
        assert(b.skip(n as int) =~= Seq::<u8>::empty());
        assert(formatted(ts, b.skip(n as int)) == Seq::<u8>::empty());
        assert(out@ =~= out@ + formatted(ts, b.skip(n as int)));
    }
    out
}

/// What a call to `write` did.
#[derive(Clone, Copy, PartialEq, Eq, Structural, Debug)]
pub enum WriteOutcome {
    /// The record was appended to the buffer.
    Buffered,
    /// The record did not fit: the caller must flush, then append it.
    NeedsFlush,
}

/// Owns the destination path and the circular buffer of pending output.
pub struct FileWriter {
    path: String,
    buffer: LogBuffer,
}

impl FileWriter {
    pub closed spec fn inv(self) -> bool {
        self.buffer.inv()
    }

    /// The buffer's fixed capacity.
    pub closed spec fn cap(self) -> int {
        self.buffer.cap()
    }

    /// The pending output bytes, in chronological order.
    pub closed spec fn buffered(self) -> Seq<u8> {
        self.buffer.contents()
    }

    /// Every byte appended since the last flush, in order.
    pub closed spec fn history(self) -> Seq<u8> {
        self.buffer.history()
    }

    /// The destination path.
    pub closed spec fn path_spec(self) -> Seq<char> {
        self.path@
    }

    /// Stores the destination path; the file itself is only touched at
    /// flush time, by the caller of `pending` / `mark_flushed`.
    pub fn new(path: String, capacity: usize) -> (r: FileWriter)
        requires
            capacity >= 1,
        ensures
            r.inv(),
            r.cap() == capacity,
            r.path_spec() == path@,
            r.buffered() == Seq::<u8>::empty(),
            r.history() == Seq::<u8>::empty(),
    {
        FileWriter { path, buffer: LogBuffer::new(capacity) }
    }

    /// The destination path, for the caller performing the flush.
    pub fn path(&self) -> (r: &String)
        ensures
            r@ == self.path_spec(),
    {
        &self.path
    }

    /// How many more bytes fit before a flush is needed.
    pub fn space_remaining(&self) -> (r: usize)
        requires
            self.inv(),
        ensures
            r as int == self.cap() - self.buffered().len(),
    {
        self.buffer.space_remaining()
    }

    /// True when no output is pending.
    pub fn is_empty(&self) -> (r: bool)
        requires
            self.inv(),
        ensures
            r == (self.buffered().len() == 0),
    {
        self.buffer.is_empty()
    }

    /// Formats the record and appends it when it fits in the remaining
    /// space; otherwise leaves the writer untouched and answers
    /// `NeedsFlush`, so the caller flushes before the record is appended
    /// and the buffer never drops part of a record that could have fit.
    pub fn write(&mut self, entry: &LogEntry) -> (r: WriteOutcome)
        requires
            old(self).inv(),
            entry.inv(),
        ensures
            final(self).inv(),
            final(self).cap() == old(self).cap(),
            final(self).path_spec() == old(self).path_spec(),
            entry_output(*entry).len() <= old(self).cap() - old(self).buffered().len() ==> ({
                &&& r == WriteOutcome::Buffered
                &&& final(self).buffered() == old(self).buffered() + entry_output(*entry)
                &&& final(self).history() == old(self).history() + entry_output(*entry)
            }),
            entry_output(*entry).len() > old(self).cap() - old(self).buffered().len() ==> ({
                &&& r == WriteOutcome::NeedsFlush
                &&& *final(self) == *old(self)
            }),
    {
        let rec = format_entry(entry);
        let space = self.buffer.space_remaining();
        if rec.len() <= space {
            proof {
                self.buffer.lemma_inv();
            }
            self.buffer.append_bytes(rec.as_slice());
            proof {
                assert(ring_append(old(self).buffered(), rec@, old(self).cap())
                    == old(self).buffered() + rec@);
            }
            WriteOutcome::Buffered
        } else {
            WriteOutcome::NeedsFlush
        }
    }

    /// Appends the formatted record unconditionally: used right after a
    /// flush has emptied the buffer.  A record longer than the whole
    /// capacity wraps, keeping its newest bytes.
    pub fn append_entry(&mut self, entry: &LogEntry)
        requires
            old(self).inv(),
            entry.inv(),
        ensures
            final(self).inv(),
            final(self).cap() == old(self).cap(),
            final(self).path_spec() == old(self).path_spec(),
            final(self).buffered() == ring_append(
                old(self).buffered(),
                entry_output(*entry),
                old(self).cap(),
            ),
            final(self).history() == old(self).history() + entry_output(*entry),
    {
        let rec = format_entry(entry);
        self.buffer.append_bytes(rec.as_slice());
    }

    /// The bytes a flush must write: the buffered text from the first
    /// code-point boundary onward.  Does not consume the buffer — only a
    /// successful flush, acknowledged through `mark_flushed`, empties it,
    /// so a failed flush loses nothing.
    pub fn pending(&mut self) -> (r: Vec<u8>)
        requires
            old(self).inv(),
        ensures
            final(self).inv(),
            final(self).cap() == old(self).cap(),
            final(self).path_spec() == old(self).path_spec(),
            final(self).buffered() == old(self).buffered(),
            final(self).history() == old(self).history(),
            r@ == extract_model(old(self).buffered()),
            valid_utf8(r@),
    {
        self.buffer.extract()
    }

    /// Acknowledges a successful flush: the pending output is on disk, so
    /// the buffer is cleared for the next accumulation pass.
    pub fn mark_flushed(&mut self)
        requires
            old(self).inv(),
        ensures
            final(self).inv(),
            final(self).cap() == old(self).cap(),
            final(self).path_spec() == old(self).path_spec(),
            final(self).buffered() == Seq::<u8>::empty(),
            final(self).history() == Seq::<u8>::empty(),
    {
        self.buffer.clear()
    }
}

/// Law: after the flush forced by an oversized write has emptied the
/// buffer, the appended record is all the buffer holds (a record longer
/// than the whole capacity keeps its newest bytes).
pub proof fn law_record_alone_after_flush(rec: Seq<u8>, cap: int)
    requires
        cap >= 1,
        rec.len() <= cap,
    ensures
        ring_append(Seq::<u8>::empty(), rec, cap) == rec,
{
    assert(Seq::<u8>::empty() + rec =~= rec);
}

} // verus!
