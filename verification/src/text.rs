//! Byte-level model of buffered text.
//!
//! The circular buffer stores UTF-8 text as raw bytes.  This module gives the
//! specification vocabulary for that: which bytes open a UTF-8 code point,
//! where the first such byte sits in a byte sequence, what a bounded
//! ("ring") append keeps, and what extraction returns.  It also proves the
//! general laws about writing within capacity and about wraparound.

use vstd::prelude::*;

verus! {

use vstd::utf8::*;

/// True when every byte is printable ASCII (space through tilde).
pub open spec fn ascii_printable(s: Seq<u8>) -> bool {
    forall|i: int| 0 <= i < s.len() ==> 0x20 <= #[trigger] s[i] < 0x7f
}

/// True when the byte matches one of the four UTF-8 leading-byte patterns
/// (`0xxxxxxx`, `110xxxxx`, `1110xxxx`, `11110xxx`).
pub open spec fn is_utf8_leader_byte(b: u8) -> bool {
    ||| is_leading_byte_width_1(b)
    ||| is_leading_byte_width_2(b)
    ||| is_leading_byte_width_3(b)
    ||| is_leading_byte_width_4(b)
}

/// Runtime check for `is_utf8_leader_byte`.
pub fn is_utf8_leader(b: u8) -> (r: bool)
    ensures
        r == is_utf8_leader_byte(b),
{
    b <= 0x7f || (0xc0 <= b && b <= 0xf7)
}

/// Index of the first leading byte in `s`, or `s.len()` when there is none.
pub open spec fn first_leader(s: Seq<u8>) -> int
    decreases s.len(),
{
    if s.len() == 0 {
        0
    } else if is_utf8_leader_byte(s[0]) {
        0
    } else {
        1 + first_leader(s.skip(1))
    }
}

/// What extraction returns for given buffer contents: the suffix that starts
/// at the first UTF-8 leading byte (empty when no byte is a leading byte).
pub open spec fn extract_model(s: Seq<u8>) -> Seq<u8> {
    s.skip(first_leader(s))
}

/// The last `cap` bytes of `s`, or all of `s` when it is no longer than `cap`.
pub open spec fn tail_within(s: Seq<u8>, cap: int) -> Seq<u8> {
    if s.len() <= cap {
        s
    } else {
        s.skip(s.len() - cap)
    }
}

/// Contents of a circular buffer of capacity `cap` holding `c` after `x` is
/// appended: the most recent `cap` bytes of the chronological stream.
pub open spec fn ring_append(c: Seq<u8>, x: Seq<u8>, cap: int) -> Seq<u8> {
    tail_within(c + x, cap)
}

pub proof fn lemma_first_leader_bounds(s: Seq<u8>)
    ensures
        0 <= first_leader(s) <= s.len(),
        first_leader(s) < s.len() ==> is_utf8_leader_byte(s[first_leader(s)]),
        forall|j: int| 0 <= j < first_leader(s) ==> !is_utf8_leader_byte(#[trigger] s[j]),
    decreases s.len(),
{
    if s.len() == 0 {
    } else if is_utf8_leader_byte(s[0]) {
    } else {
        lemma_first_leader_bounds(s.skip(1));
        let f = first_leader(s);
        assert(f == 1 + first_leader(s.skip(1)));
        if f < s.len() {
            assert(s.skip(1)[f - 1] == s[f]);
        }
        assert forall|j: int| 0 <= j < f implies !is_utf8_leader_byte(#[trigger] s[j]) by {
            if j > 0 {
                assert(s.skip(1)[j - 1] == s[j]);
            }
        }
    }
}

/// The first leading byte is at `i` exactly when no byte before `i` is a
/// leading byte and the byte at `i` (if any) is one.
pub proof fn lemma_first_leader_unique(s: Seq<u8>, i: int)
    requires
        0 <= i <= s.len(),
        forall|j: int| 0 <= j < i ==> !is_utf8_leader_byte(#[trigger] s[j]),
        i < s.len() ==> is_utf8_leader_byte(s[i]),
    ensures
        first_leader(s) == i,
    decreases s.len(),
{
    if s.len() == 0 {
    } else if i == 0 {
    } else {
        assert(!is_utf8_leader_byte(s[0]));
        assert forall|j: int| 0 <= j < i - 1 implies !is_utf8_leader_byte(
            #[trigger] s.skip(1)[j],
        ) by {
            assert(s.skip(1)[j] == s[j + 1]);
        }
        if i - 1 < s.len() - 1 {
            assert(s.skip(1)[i - 1] == s[i]);
        }
        lemma_first_leader_unique(s.skip(1), i - 1);
    }
}

/// A sequence of bytes below 0x80 is valid UTF-8.
pub proof fn lemma_ascii_block_valid(s: Seq<u8>)
    requires
        forall|i: int| 0 <= i < s.len() ==> #[trigger] s[i] < 0x80,
    ensures
        valid_utf8(s),
    decreases s.len(),
{
    if s.len() > 0 {
        let b = s[0];
        assert(is_leading_byte_width_1(b));
        assert(valid_leading_and_continuation_bytes_first_codepoint(s));
        assert(length_of_first_codepoint(s) == 1);
        assert((b & 0x7f) < 0x80) by (bit_vector);
        assert(decode_first_codepoint(s) < 0x80);
        assert(valid_first_scalar(s));
        let rest = pop_first_scalar(s);
        assert(rest =~= s.skip(1));
        assert forall|i: int| 0 <= i < rest.len() implies #[trigger] rest[i] < 0x80 by {
            assert(rest[i] == s[i + 1]);
        }
        lemma_ascii_block_valid(rest);
    }
}

/// A non-empty valid UTF-8 sequence opens with a leading byte.
pub proof fn lemma_valid_leader_at_zero(s: Seq<u8>)
    requires
        valid_utf8(s),
        s.len() > 0,
    ensures
        is_utf8_leader_byte(s[0]),
        first_leader(s) == 0,
{
    assert(valid_first_scalar(s));
    assert(valid_leading_and_continuation_bytes_first_codepoint(s));
}

/// The suffix of a valid UTF-8 sequence that starts at a leading byte is
/// itself valid UTF-8.
pub proof fn lemma_leader_suffix_valid(s: Seq<u8>, k: int)
    requires
        valid_utf8(s),
        0 <= k < s.len(),
        is_utf8_leader_byte(s[k]),
    ensures
        valid_utf8(s.skip(k)),
{
    is_char_boundary_iff_is_leading_byte(s, k);
    valid_utf8_split(s, k);
    assert(s.subrange(k, s.len() as int) =~= s.skip(k));
}

/// Splitting valid UTF-8 at a newline byte leaves two valid UTF-8 parts.
pub proof fn lemma_lf_split(s: Seq<u8>, p: int)
    requires
        valid_utf8(s),
        0 <= p < s.len(),
        s[p] == 0x0au8,
    ensures
        valid_utf8(s.take(p)),
        valid_utf8(s.skip(p + 1)),
{
    is_char_boundary_iff_not_is_continuation_byte(s, p);
    assert(!is_continuation_byte(s[p]));
    valid_utf8_split(s, p);
    assert(s.subrange(0, p) =~= s.take(p));
    let t = s.subrange(p, s.len() as int);
    assert(valid_utf8(t));
    assert(t.len() > 0);
    assert(t[0] == 0x0au8);
    assert(is_leading_byte_width_1(t[0]));
    assert(length_of_first_scalar(t) == 1);
    assert(valid_utf8(pop_first_scalar(t)));
    assert(pop_first_scalar(t) =~= s.skip(p + 1));
}

/// Keeping the last `cap` bytes commutes with appending more bytes.
pub proof fn lemma_tail_within_cat(s: Seq<u8>, y: Seq<u8>, cap: int)
    requires
        cap >= 1,
    ensures
        tail_within(tail_within(s, cap) + y, cap) == tail_within(s + y, cap),
{
    if s.len() <= cap {
    } else {
        let a = tail_within(s, cap);
        assert(a.len() == cap);
        let lhs = tail_within(a + y, cap);
        let rhs = tail_within(s + y, cap);
        if y.len() == 0 {
            assert(a + y =~= a);
            assert(s + y =~= s);
            assert(lhs =~= a);
            assert(rhs =~= a);
        } else {
            assert(lhs == (a + y).skip(y.len() as int));
            assert(rhs == (s + y).skip(s.len() + y.len() - cap));
            assert(lhs.len() == cap);
            assert(rhs.len() == cap);
            assert forall|i: int| 0 <= i < cap implies lhs[i] == rhs[i] by {
                if y.len() + i < cap {
                    assert(lhs[i] == a[y.len() + i]);
                    assert(a[y.len() + i] == s[s.len() - cap + y.len() + i]);
                    assert(rhs[i] == s[s.len() + y.len() - cap + i]);
                } else {
                    assert(lhs[i] == y[y.len() + i - cap]);
                    assert(rhs[i] == y[y.len() + i - cap]);
                }
            }
            assert(lhs =~= rhs);
        }
    }
}

/// The concatenation, in order, of a sequence of written chunks.
pub open spec fn concat_chunks(chunks: Seq<Seq<u8>>) -> Seq<u8>
    decreases chunks.len(),
{
    if chunks.len() == 0 {
        Seq::empty()
    } else {
        concat_chunks(chunks.drop_last()) + chunks.last()
    }
}

/// The total byte length of a sequence of written chunks.
pub open spec fn total_len(chunks: Seq<Seq<u8>>) -> int
    decreases chunks.len(),
{
    if chunks.len() == 0 {
        0
    } else {
        total_len(chunks.drop_last()) + chunks.last().len()
    }
}

/// Buffer contents after the chunks are appended, in order, to an empty
/// circular buffer of capacity `cap`.
pub open spec fn buffered_after(chunks: Seq<Seq<u8>>, cap: int) -> Seq<u8>
    decreases chunks.len(),
{
    if chunks.len() == 0 {
        Seq::empty()
    } else {
        ring_append(buffered_after(chunks.drop_last(), cap), chunks.last(), cap)
    }
}

pub proof fn lemma_concat_chunks_len(chunks: Seq<Seq<u8>>)
    ensures
        concat_chunks(chunks).len() == total_len(chunks),
    decreases chunks.len(),
{
    if chunks.len() > 0 {
        lemma_concat_chunks_len(chunks.drop_last());
    }
}

/// The concatenation of valid UTF-8 chunks is valid UTF-8.
pub proof fn lemma_concat_chunks_valid(chunks: Seq<Seq<u8>>)
    requires
        forall|i: int| 0 <= i < chunks.len() ==> valid_utf8(#[trigger] chunks[i]),
    ensures
        valid_utf8(concat_chunks(chunks)),
    decreases chunks.len(),
{
    if chunks.len() == 0 {
        assert(valid_utf8(Seq::<u8>::empty()));
    } else {
        lemma_concat_chunks_valid(chunks.drop_last());
        valid_utf8_concat(concat_chunks(chunks.drop_last()), chunks.last());
    }
}

/// A circular buffer filled from empty holds the most recent `cap` bytes of
/// the chronological stream.
pub proof fn lemma_buffered_after_is_tail(chunks: Seq<Seq<u8>>, cap: int)
    requires
        cap >= 1,
    ensures
        buffered_after(chunks, cap) == tail_within(concat_chunks(chunks), cap),
    decreases chunks.len(),
{
    if chunks.len() == 0 {
    } else {
        lemma_buffered_after_is_tail(chunks.drop_last(), cap);
        lemma_tail_within_cat(concat_chunks(chunks.drop_last()), chunks.last(), cap);
    }
}

/// Law: writes whose total length stays within the capacity are kept whole
/// and in order, and extraction returns exactly their concatenation.
pub proof fn law_extract_within_capacity(chunks: Seq<Seq<u8>>, cap: int)
    requires
        cap >= 1,
        total_len(chunks) <= cap,
        forall|i: int| 0 <= i < chunks.len() ==> valid_utf8(#[trigger] chunks[i]),
    ensures
        buffered_after(chunks, cap) == concat_chunks(chunks),
        valid_utf8(concat_chunks(chunks)),
        extract_model(concat_chunks(chunks)) == concat_chunks(chunks),
{
    lemma_concat_chunks_len(chunks);
    lemma_buffered_after_is_tail(chunks, cap);
    lemma_concat_chunks_valid(chunks);
    let s = concat_chunks(chunks);
    if s.len() > 0 {
        lemma_valid_leader_at_zero(s);
    }
    assert(first_leader(s) == 0);
    assert(s.skip(0) =~= s);
}

/// Law: writing more than the capacity leaves the buffer full, holding the
/// last `cap` bytes of the chronological stream, and extraction returns a
/// valid-UTF-8 suffix of that stream beginning at a code-point boundary.
pub proof fn law_extract_after_wraparound(chunks: Seq<Seq<u8>>, cap: int)
    requires
        cap >= 1,
        total_len(chunks) > cap,
        forall|i: int| 0 <= i < chunks.len() ==> valid_utf8(#[trigger] chunks[i]),
    ensures
        buffered_after(chunks, cap) == concat_chunks(chunks).skip(total_len(chunks) - cap),
        buffered_after(chunks, cap).len() == cap,
        valid_utf8(extract_model(buffered_after(chunks, cap))),
        extract_model(buffered_after(chunks, cap)) == concat_chunks(chunks).skip(
            total_len(chunks) - cap + first_leader(buffered_after(chunks, cap)),
        ),
{
    lemma_concat_chunks_len(chunks);
    lemma_buffered_after_is_tail(chunks, cap);
    lemma_concat_chunks_valid(chunks);
    let s = concat_chunks(chunks);
    let k = total_len(chunks) - cap;
    let b = buffered_after(chunks, cap);
    assert(b == s.skip(k));
    let f = first_leader(b);
    lemma_first_leader_bounds(b);
    if f < b.len() {
        assert(b[f] == s[k + f]);
        lemma_leader_suffix_valid(s, k + f);
        assert(b.skip(f) =~= s.skip(k + f));
    } else {
        assert(b.skip(f) =~= Seq::<u8>::empty());
        assert(s.skip(k + f) =~= Seq::<u8>::empty());
        assert(valid_utf8(Seq::<u8>::empty()));
    }
}

/// Law: an empty buffer extracts to nothing.  With `clear`'s contract this
/// says a cleared buffer reads back empty, and that a second flush with no
/// intervening writes has nothing to write.
pub proof fn law_extract_empty()
    ensures
        extract_model(Seq::<u8>::empty()) == Seq::<u8>::empty(),
{
    let s = Seq::<u8>::empty();
    assert(first_leader(s) == 0);
    assert(s.skip(0) =~= s);
}

} // verus!
