//! A fixed-capacity circular byte buffer for accumulating UTF-8 text.
//!
//! Writes land at the `end` cursor and wrap around modulo the capacity; once
//! the cursor has passed the capacity the buffer holds the most recent
//! `capacity` bytes of everything written since the last clear.  Extraction
//! first rotates the storage so the chronologically oldest byte is first,
//! then returns the bytes from the first UTF-8 leading byte onward — a
//! wraparound may have cut a multi-byte code point, and skipping to the next
//! code-point boundary drops at most one partial character rather than
//! returning malformed text.

use vstd::prelude::*;

verus! {

use vstd::utf8::valid_utf8;
use vstd::utf8::encode_utf8;
use vstd::utf8::encode_utf8_valid_utf8;
use vstd::utf8::valid_utf8_concat;
use vstd::slice::slice_index_get;
use crate::text::is_utf8_leader_byte;
use crate::text::is_utf8_leader;
use crate::text::first_leader;
use crate::text::extract_model;
use crate::text::tail_within;
use crate::text::ring_append;
use crate::text::lemma_tail_within_cat;
use crate::text::lemma_first_leader_unique;
use crate::text::lemma_leader_suffix_valid;

/// A circular text buffer: fixed-length byte storage, a `start` and an `end`
/// cursor, and a `wrapped` flag that records that the write cursor has gone
/// past the capacity since the last clear.
pub struct LogBuffer {
    storage: Vec<u8>,
    start: usize,
    end: usize,
    wrapped: bool,
    hist: Ghost<Seq<u8>>,
}

impl LogBuffer {
    /// The fixed capacity in bytes.
    pub closed spec fn cap(self) -> int {
        self.storage@.len() as int
    }

    /// The buffered bytes in chronological order.
    pub closed spec fn contents(self) -> Seq<u8> {
        if self.wrapped {
            self.storage@.skip(self.end as int) + self.storage@.take(self.end as int)
        } else {
            self.storage@.take(self.end as int)
        }
    }

    /// Every byte written since the last clear, in order.
    pub closed spec fn history(self) -> Seq<u8> {
        self.hist@
    }

    /// Structural invariant: cursors in range and the contents are the most
    /// recent `cap` bytes of the history.
    spec fn inv_core(self) -> bool {
        &&& self.storage@.len() >= 1
        &&& self.start == 0
        &&& (self.end as int) < self.cap()
        &&& (self.wrapped <==> self.history().len() >= self.cap())
        &&& (!self.wrapped ==> self.end as int == self.history().len())
        &&& self.contents() == tail_within(self.history(), self.cap())
    }

    /// Full invariant: additionally, only whole UTF-8 text was written, so
    /// the history is valid UTF-8.
    pub closed spec fn inv(self) -> bool {
        &&& self.inv_core()
        &&& valid_utf8(self.history())
    }

    /// Facts every caller may use about a well-formed buffer.
    pub proof fn lemma_inv(self)
        requires
            self.inv(),
        ensures
            self.cap() >= 1,
            valid_utf8(self.history()),
            self.contents() == tail_within(self.history(), self.cap()),
            self.contents().len() <= self.cap(),
            self.contents().len() == if self.history().len() <= self.cap() {
                self.history().len() as int
            } else {
                self.cap()
            },
    {
    }

    /// Creates a buffer with zeroed storage of the given fixed capacity,
    /// starting empty.
    pub fn new(capacity: usize) -> (r: LogBuffer)
        requires
            capacity >= 1,
        ensures
            r.inv(),
            r.cap() == capacity,
            r.contents() == Seq::<u8>::empty(),
            r.history() == Seq::<u8>::empty(),
    {
        let mut storage: Vec<u8> = Vec::new();
        let mut i: usize = 0;
        while i < capacity
            invariant
                i <= capacity,
                storage@.len() == i,
            decreases capacity - i,
        {
            storage.push(0u8);
            i += 1;
        }
        let r = LogBuffer { storage, start: 0, end: 0, wrapped: false, hist: Ghost(Seq::empty()) };
        proof {
            assert(r.contents() =~= Seq::<u8>::empty());
            assert(tail_within(r.history(), r.cap()) =~= Seq::<u8>::empty());
        }
        r
    }

    /// The capacity the buffer was created with.
    pub fn capacity(&self) -> (r: usize)
        ensures
            r as int == self.cap(),
    {
        self.storage.len()
    }

    /// Zeroes the storage and resets the cursors: the buffer is empty again.
    pub fn clear(&mut self)
        requires
            old(self).inv(),
        ensures
            final(self).inv(),
            final(self).cap() == old(self).cap(),
            final(self).contents() == Seq::<u8>::empty(),
            final(self).history() == Seq::<u8>::empty(),
    {
        let cap = self.storage.len();
        let mut i: usize = 0;
        while i < cap
            invariant
                i <= cap,
                self.storage@.len() == cap,
            decreases cap - i,
        {
            self.storage.set(i, 0u8);
            i += 1;
        }
        self.wrapped = false;
        self.start = 0;
        self.end = 0;
        self.hist = Ghost(Seq::empty());
        proof {
            assert(self.contents() =~= Seq::<u8>::empty());
            assert(tail_within(self.history(), self.cap()) =~= Seq::<u8>::empty());
        }
    }

    /// True when nothing is buffered.
    pub fn is_empty(&self) -> (r: bool)
        requires
            self.inv(),
        ensures
            r == (self.contents().len() == 0),
    {
        self.start == self.end && !self.wrapped
    }

    /// How many more bytes fit before the buffer would wrap.
    pub fn space_remaining(&self) -> (r: usize)
        requires
            self.inv(),
        ensures
            r as int == self.cap() - self.contents().len(),
    {
        if self.wrapped {
            0
        } else {
            self.storage.len() - self.end
        }
    }

    /// Writes one byte at the `end` cursor, wrapping modulo the capacity.
    fn push_byte(&mut self, b: u8)
        requires
            old(self).inv_core(),
        ensures
            final(self).inv_core(),
            final(self).cap() == old(self).cap(),
            final(self).history() == old(self).history() + seq![b],
            final(self).contents() == ring_append(old(self).contents(), seq![b], old(self).cap()),
    {
        let cap = self.storage.len();
        let e = self.end;
        self.storage.set(e, b);
        self.hist = Ghost(self.hist@ + seq![b]);
        if e + 1 == cap {
            self.wrapped = true;
            self.end = 0;
        } else {
            self.end = e + 1;
        }
        proof {
            let c = old(self).contents();
            let capi = old(self).cap();
            let st0 = old(self).storage@;
            let st1 = self.storage@;
            let e0 = old(self).end as int;
            if !old(self).wrapped {
                assert(c =~= st0.take(e0));
                assert(c.len() == e0);
                if e0 + 1 < capi {
                    assert(self.contents() =~= c + seq![b]);
                } else {
                    assert(self.contents() =~= st1.skip(0) + st1.take(0));
                    assert(st1.skip(0) + st1.take(0) =~= st1);
                    assert(st1 =~= c + seq![b]);
                }
                assert(ring_append(c, seq![b], capi) == c + seq![b]);
            } else {
                assert(c.len() == capi);
                assert(ring_append(c, seq![b], capi) == (c + seq![b]).skip(1));
                if e0 + 1 < capi {
                    assert(self.contents() =~= (c + seq![b]).skip(1));
                } else {
                    assert(self.contents() =~= st1.skip(0) + st1.take(0));
                    assert(st1.skip(0) + st1.take(0) =~= st1);
                    assert(st1 =~= (c + seq![b]).skip(1));
                }
            }
            lemma_tail_within_cat(old(self).history(), seq![b], capi);
            assert(old(self).history() + seq![b] == self.history());
            assert(tail_within(old(self).history(), capi) == c);
            assert(self.contents() == tail_within(self.history(), capi));
        }
    }

    /// Appends whole-code-point UTF-8 bytes, wrapping the write cursor and
    /// setting `wrapped` once the cursor passes the capacity.  Never rejects
    /// input for being too long: callers flush first when they must not lose
    /// the oldest bytes.
    pub fn append_bytes(&mut self, chunk: &[u8])
        requires
            old(self).inv(),
            valid_utf8(chunk@),
        ensures
            final(self).inv(),
            final(self).cap() == old(self).cap(),
            final(self).history() == old(self).history() + chunk@,
            final(self).contents() == ring_append(
                old(self).contents(),
                chunk@,
                old(self).cap(),
            ),
    {
        let n = chunk.len();
        let mut i: usize = 0;
        while i < n
            invariant
                i <= n,
                n == chunk@.len(),
                self.inv_core(),
                self.cap() == old(self).cap(),
                self.history() == old(self).history() + chunk@.take(i as int),
                self.contents() == ring_append(
                    old(self).contents(),
                    chunk@.take(i as int),
                    old(self).cap(),
                ),
            decreases n - i,
        {
            let b = *slice_index_get(chunk, i);
            let ghost pre = self.contents();
            let ghost taken = chunk@.take(i as int);
            self.push_byte(b);
            proof {
                let c = old(self).contents();
                let capi = old(self).cap();
                lemma_tail_within_cat(c + taken, seq![b], capi);
                assert((c + taken) + seq![b] =~= c + chunk@.take(i as int + 1));
                assert(self.contents() == ring_append(c, chunk@.take(i as int + 1), capi));
                assert(old(self).history() + taken + seq![b] =~= old(self).history()
                    + chunk@.take(i as int + 1));
            }
            i += 1;
        }
        proof {
            assert(chunk@.take(n as int) =~= chunk@);
            valid_utf8_concat(old(self).history(), chunk@);
        }
    }

    /// Appends the UTF-8 bytes of `s`.
    pub fn write_str(&mut self, s: &str)
        requires
            old(self).inv(),
        ensures
            final(self).inv(),
            final(self).cap() == old(self).cap(),
            final(self).history() == old(self).history() + encode_utf8(s@),
            final(self).contents() == ring_append(
                old(self).contents(),
                encode_utf8(s@),
                old(self).cap(),
            ),
    {
        proof {
            encode_utf8_valid_utf8(s@);
        }
        let bytes = s.as_bytes();
        self.append_bytes(bytes);
    }

    /// Rotates the storage so the logically oldest byte becomes the first
    /// physical byte: afterwards the contents are one contiguous region at
    /// the start of storage.
    fn rotate(&mut self)
        requires
            old(self).inv(),
        ensures
            final(self).inv(),
            final(self).cap() == old(self).cap(),
            final(self).contents() == old(self).contents(),
            final(self).history() == old(self).history(),
            final(self).wrapped == old(self).wrapped,
            final(self).wrapped ==> final(self).end == 0,
            !final(self).wrapped ==> final(self).end == old(self).end,
            final(self).contents() == final(self).storage@.take(final(self).contents().len() as int),
    {
        if self.wrapped && self.end != 0 {
            let cap = self.storage.len();
            let e = self.end;
            let mut rotated: Vec<u8> = Vec::new();
            let mut i: usize = e;
            while i < cap
                invariant
                    e <= i <= cap,
                    cap == self.storage@.len(),
                    e == self.end,
                    rotated@ == self.storage@.subrange(e as int, i as int),
                decreases cap - i,
            {
                let b = self.storage[i];
                rotated.push(b);
                proof {
                    assert(rotated@ =~= self.storage@.subrange(e as int, i as int + 1));
                }
                i += 1;
            }
            let mut j: usize = 0;
            while j < e
                invariant
                    j <= e,
                    e < cap,
                    cap == self.storage@.len(),
                    e == self.end,
                    rotated@ == self.storage@.skip(e as int) + self.storage@.take(j as int),
                decreases e - j,
            {
                let b = self.storage[j];
                rotated.push(b);
                proof {
                    assert(rotated@ =~= self.storage@.skip(e as int) + self.storage@.take(
                        j as int + 1,
                    ));
                }
                j += 1;
            }
            proof {
                assert(self.storage@.subrange(e as int, cap as int) =~= self.storage@.skip(
                    e as int,
                ));
            }
            self.storage = rotated;
            self.end = 0;
            proof {
                assert(self.contents() =~= self.storage@);
                assert(self.contents() =~= old(self).contents());
                assert(self.contents() =~= self.storage@.take(self.contents().len() as int));
            }
        } else {
            proof {
                if self.wrapped {
                    assert(self.contents() =~= self.storage@);
                    assert(self.contents() =~= self.storage@.take(self.contents().len() as int));
                } else {
                    assert(self.contents() =~= self.storage@.take(self.contents().len() as int));
                }
            }
        }
    }

    /// Rotates the storage, then returns the buffered bytes from the first
    /// UTF-8 leading byte to the last written byte.  The result is valid
    /// UTF-8; a wraparound may cost at most the partial code point at the
    /// seam.  Extraction does not consume: only `clear` empties the buffer.
    pub fn extract(&mut self) -> (r: Vec<u8>)
        requires
            old(self).inv(),
        ensures
            final(self).inv(),
            final(self).cap() == old(self).cap(),
            final(self).contents() == old(self).contents(),
            final(self).history() == old(self).history(),
            r@ == extract_model(old(self).contents()),
            valid_utf8(r@),
    {
        self.rotate();
        let len = if self.wrapped {
            self.storage.len()
        } else {
            self.end
        };
        proof {
            assert(self.contents().len() == len as int);
        }
        let ghost c = self.contents();
        let mut i: usize = 0;
        while i < len
            invariant_except_break
                i <= len,
                len as int == c.len(),
                c == self.contents(),
                c == self.storage@.take(len as int),
                len <= self.storage@.len(),
                forall|j: int| 0 <= j < i ==> !is_utf8_leader_byte(#[trigger] c[j]),
            ensures
                i <= len,
                len as int == c.len(),
                c == self.storage@.take(len as int),
                len <= self.storage@.len(),
                forall|j: int| 0 <= j < i ==> !is_utf8_leader_byte(#[trigger] c[j]),
                i < len ==> is_utf8_leader_byte(c[i as int]),
            decreases len - i,
        {
            let b = self.storage[i];
            proof {
                assert(c[i as int] == self.storage@[i as int]);
            }
            if is_utf8_leader(b) {
                break ;
            }
            i += 1;
        }
        proof {
            lemma_first_leader_unique(c, i as int);
        }
        let mut out: Vec<u8> = Vec::new();
        let mut j: usize = i;
        while j < len
            invariant
                i <= j <= len,
                len <= self.storage@.len(),
                c == self.storage@.take(len as int),
                out@ == c.subrange(i as int, j as int),
            decreases len - j,
        {
            let b = self.storage[j];
            out.push(b);
            proof {
                assert(c[j as int] == self.storage@[j as int]);
                assert(out@ =~= c.subrange(i as int, j as int + 1));
            }
            j += 1;
        }
        proof {
            assert(out@ =~= c.skip(i as int));
            assert(out@ == extract_model(c));
            let h = self.history();
            let capi = self.cap();
            let k = if h.len() <= capi {
                0
            } else {
                h.len() - capi
            };
            assert(c == h.skip(k));
            if (i as int) < c.len() {
                assert(c[i as int] == h[k + i]);
                lemma_leader_suffix_valid(h, k + i);
                assert(c.skip(i as int) =~= h.skip(k + i));
            } else {
                assert(c.skip(i as int) =~= Seq::<u8>::empty());
                assert(valid_utf8(Seq::<u8>::empty()));
            }
        }
        out
    }
}

} // verus!
