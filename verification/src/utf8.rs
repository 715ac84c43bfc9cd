//! Byte-level UTF-8 boundary search.
//!
//! Two questions are answered here. Given bytes and a cut offset that may
//! fall inside a multi-byte character, where is the nearest character start
//! at or before the offset? And given text and a number of free bytes, how
//! many leading bytes of the text can be copied without splitting a
//! character? The first is computed by walking backward over continuation
//! bytes, the second is specified by walking forward over characters; the
//! lemmas of this module show that they agree on text.

use vstd::prelude::*;
use vstd::string::*;
use vstd::utf8::*;

verus! {

/// Where the backward walk from `offset` stops: at most four bytes below
/// `offset`, with only continuation bytes above the stop, and either on a
/// byte that is no continuation byte or at the end of the walk's reach.
pub open spec fn is_scan_stop(bytes: Seq<u8>, offset: int, stop: int) -> bool {
    &&& 0 <= stop <= offset < bytes.len()
    &&& offset - stop <= 4
    &&& forall|j: int| stop < j <= offset ==> is_continuation_byte(#[trigger] bytes[j])
    &&& (stop == 0 || offset - stop == 4 || !is_continuation_byte(bytes[stop]))
}

/// `n` is the largest character boundary of `bytes` that is at most `avail`.
pub open spec fn is_longest_fit(bytes: Seq<u8>, avail: int, n: int) -> bool {
    &&& 0 <= n <= avail
    &&& n <= bytes.len()
    &&& is_char_boundary(bytes, n)
    &&& forall|k: int| n < k <= avail && k <= bytes.len() ==> !#[trigger] is_char_boundary(bytes, k)
}

/// How many leading characters of `chars` can be encoded into `avail` bytes:
/// characters are taken from the front until the next one no longer fits.
pub open spec fn copyable_chars(chars: Seq<char>, avail: int) -> nat
    decreases chars.len(),
{
    if chars.len() == 0 {
        0
    } else {
        let width = encode_scalar(chars[0] as u32).len();
        if width > avail {
            0
        } else {
            1 + copyable_chars(chars.drop_first(), avail - width)
        }
    }
}

/// The encoded length of the leading characters that fit into `avail` bytes.
pub open spec fn copyable_bytes(chars: Seq<char>, avail: int) -> nat {
    encode_utf8(chars.take(copyable_chars(chars, avail) as int)).len()
}

/// Returns `true` if the byte is a UTF-8 continuation byte (`10xxxxxx`).
pub fn is_utf8_continuation(byte: u8) -> (r: bool)
    ensures
        r == is_continuation_byte(byte),
{
    proof {
        utf8_byte_ranges_bitwise(byte);
    }
    byte & 0b1100_0000 == 0b1000_0000
}

/// The smaller of two lengths.
pub fn const_min(a: usize, b: usize) -> (r: usize)
    ensures
        r == if a <= b { a } else { b },
{
    if a <= b {
        a
    } else {
        b
    }
}

/// The number of bytes in the encoding of the character that `lead` starts:
/// one for an ASCII byte, otherwise as many as the byte has leading one bits.
pub fn utf8_char_width(lead: u8) -> (r: usize)
    ensures
        r == length_of_first_codepoint(seq![lead]),
        1 <= r <= 4,
{
    if lead < 0x80 {
        1
    } else if 0xc0 <= lead && lead < 0xe0 {
        2
    } else if 0xe0 <= lead && lead < 0xf0 {
        3
    } else {
        4
    }
}

/// Returns the nearest offset at or before `offset` at which `bytes` can be
/// cut without splitting a character.
///
/// An offset at or past the end gives the length. Otherwise the bytes at
/// `offset`, `offset - 1`, ... are looked at, four of them at most, and the
/// walk stops on the first that is no continuation byte, or at offset 0.
/// For bytes that are valid UTF-8 the result is the largest character
/// boundary that is at most `offset`.
pub fn nearest_boundary_at_or_before(bytes: &[u8], offset: usize) -> (r: usize)
    ensures
        r <= offset,
        r <= bytes@.len(),
        offset >= bytes@.len() ==> r == bytes@.len(),
        offset < bytes@.len() ==> is_scan_stop(bytes@, offset as int, r as int),
        valid_utf8(bytes@) ==> is_longest_fit(bytes@, offset as int, r as int),
{
    if offset >= bytes.len() {
        proof {
            if valid_utf8(bytes@) {
                is_char_boundary_start_end_of_seq(bytes@);
            }
        }
        return bytes.len();
    }
    let floor: usize = offset.saturating_sub(4);
    let mut i: usize = offset;
    while i > floor
        invariant
            floor <= i <= offset < bytes@.len(),
            floor == if offset >= 4 { offset - 4 } else { 0 },
            forall|j: int| i < j <= offset ==> is_continuation_byte(#[trigger] bytes@[j]),
        ensures
            is_scan_stop(bytes@, offset as int, i as int),
        decreases i,
    {
        if !is_utf8_continuation(bytes[i]) {
            break;
        }
        i -= 1;
    }
    proof {
        if valid_utf8(bytes@) {
            lemma_scan_stop_is_longest_fit(bytes@, offset as int, i as int);
        }
    }
    i
}

/// Returns how many leading bytes of `s` can be copied into `idx` bytes of
/// room without splitting a character: the length of `s` if all of it fits,
/// otherwise the largest character boundary of `s` that is at most `idx`.
pub fn utf8_truncator(s: &str, idx: usize) -> (r: usize)
    ensures
        r == copyable_bytes(s@, idx as int),
        is_longest_fit(s.spec_bytes(), idx as int, r as int),
        s.spec_bytes().subrange(0, r as int) == encode_utf8(
            s@.take(copyable_chars(s@, idx as int) as int),
        ),
{
    let r: usize = nearest_boundary_at_or_before(s.as_bytes(), idx);
    proof {
        encode_utf8_valid_utf8(s@);
        lemma_copyable_is_longest_fit(s@, idx as int);
        lemma_longest_fit_unique(
            s.spec_bytes(),
            idx as int,
            r as int,
            copyable_bytes(s@, idx as int) as int,
        );
    }
    r
}

/// In valid UTF-8 no byte is the fourth of four continuation bytes in a row.
pub proof fn lemma_no_four_continuation_bytes(bytes: Seq<u8>, j: int)
    requires
        valid_utf8(bytes),
        3 <= j < bytes.len(),
    ensures
        !is_continuation_byte(bytes[j]) || !is_continuation_byte(bytes[j - 1])
            || !is_continuation_byte(bytes[j - 2]) || !is_continuation_byte(bytes[j - 3]),
    decreases bytes.len(),
{
    let width = length_of_first_scalar(bytes);
    let rest = pop_first_scalar(bytes);
    if j - 3 >= width {
        lemma_no_four_continuation_bytes(rest, j - width);
    } else if j > 3 {
        // The second character starts at `width`, which is one of the four.
        reveal_with_fuel(valid_utf8, 2);
    }
}

/// On valid UTF-8 the backward walk stops on the largest character boundary
/// that is at most the offset it started from.
pub proof fn lemma_scan_stop_is_longest_fit(bytes: Seq<u8>, offset: int, stop: int)
    requires
        valid_utf8(bytes),
        is_scan_stop(bytes, offset, stop),
    ensures
        is_longest_fit(bytes, offset, stop),
{
    if stop != 0 {
        if is_continuation_byte(bytes[stop]) {
            lemma_no_four_continuation_bytes(bytes, offset);
        } else {
            is_char_boundary_iff_not_is_continuation_byte(bytes, stop);
        }
    }
    assert forall|k: int| stop < k <= offset && k <= bytes.len() implies !#[trigger] is_char_boundary(
        bytes,
        k,
    ) by {
        is_char_boundary_iff_not_is_continuation_byte(bytes, k);
    }
}

/// A prefix of valid UTF-8 that is valid UTF-8 itself ends on a character
/// boundary.
pub proof fn lemma_valid_prefix_is_boundary(bytes: Seq<u8>, k: int)
    requires
        valid_utf8(bytes),
        0 <= k <= bytes.len(),
        valid_utf8(bytes.subrange(0, k)),
    ensures
        is_char_boundary(bytes, k),
    decreases bytes.len(),
{
    if k != 0 {
        let prefix = bytes.subrange(0, k);
        let width = length_of_first_scalar(bytes);
        assert(pop_first_scalar(prefix) =~= pop_first_scalar(bytes).subrange(0, k - width));
        lemma_valid_prefix_is_boundary(pop_first_scalar(bytes), k - width);
    }
}

/// There is only one largest boundary.
pub proof fn lemma_longest_fit_unique(bytes: Seq<u8>, avail: int, n1: int, n2: int)
    requires
        is_longest_fit(bytes, avail, n1),
        is_longest_fit(bytes, avail, n2),
    ensures
        n1 == n2,
{
}

/// Encoding distributes over concatenation.
pub proof fn lemma_encode_utf8_concat(a: Seq<char>, b: Seq<char>)
    ensures
        encode_utf8(a + b) == encode_utf8(a) + encode_utf8(b),
    decreases a.len(),
{
    if a.len() > 0 {
        lemma_encode_utf8_concat(a.drop_first(), b);
        assert((a + b).drop_first() =~= a.drop_first() + b);
    }
}

/// Appending encoded text to valid UTF-8 gives valid UTF-8, which decodes to
/// the characters of both.
pub proof fn lemma_append_text(bytes: Seq<u8>, chars: Seq<char>)
    requires
        valid_utf8(bytes),
    ensures
        valid_utf8(bytes + encode_utf8(chars)),
        decode_utf8(bytes + encode_utf8(chars)) == decode_utf8(bytes) + chars,
{
    decode_utf8_encode_utf8(bytes);
    lemma_encode_utf8_concat(decode_utf8(bytes), chars);
    encode_utf8_valid_utf8(decode_utf8(bytes) + chars);
    encode_utf8_decode_utf8(decode_utf8(bytes) + chars);
}

/// A single character encodes to its scalar's bytes.
pub proof fn lemma_encode_single(ch: char)
    ensures
        encode_utf8(seq![ch]) == encode_scalar(ch as u32),
        1 <= encode_scalar(ch as u32).len() <= 4,
{
    reveal_with_fuel(encode_utf8, 2);
}

/// Only the empty text has an empty encoding.
pub proof fn lemma_encode_nonempty(chars: Seq<char>)
    ensures
        encode_utf8(chars).len() == 0 <==> chars.len() == 0,
{
    if chars.len() > 0 {
        lemma_encode_single(chars[0]);
    }
}

/// One step of the forward walk: the character at `index` adds its scalar's
/// bytes to the encoding of those before it, leads the encoding of those
/// from it on, and its first byte tells how many bytes it takes.
pub proof fn lemma_encode_step(chars: Seq<char>, index: int)
    requires
        0 <= index < chars.len(),
    ensures
        encode_utf8(chars.take(index + 1)) == encode_utf8(chars.take(index)) + encode_scalar(
            chars[index] as u32,
        ),
        encode_utf8(chars.skip(index)) == encode_scalar(chars[index] as u32) + encode_utf8(
            chars.skip(index + 1),
        ),
        1 <= encode_scalar(chars[index] as u32).len() <= 4,
        length_of_first_codepoint(seq![encode_utf8(chars.skip(index))[0]]) == encode_scalar(
            chars[index] as u32,
        ).len(),
{
    let ch = chars[index];
    lemma_encode_single(ch);
    assert(chars.take(index + 1) =~= chars.take(index) + seq![ch]);
    lemma_encode_utf8_concat(chars.take(index), seq![ch]);
    assert(chars.skip(index).drop_first() =~= chars.skip(index + 1));
    encode_utf8_first_scalar(chars.skip(index));
}

/// The forward walk over characters and the backward walk over bytes agree:
/// the characters that fit into `avail` bytes end on the largest character
/// boundary of the encoding that is at most `avail`.
pub proof fn lemma_copyable_is_longest_fit(chars: Seq<char>, avail: int)
    requires
        0 <= avail,
    ensures
        copyable_chars(chars, avail) <= chars.len(),
        is_longest_fit(encode_utf8(chars), avail, copyable_bytes(chars, avail) as int),
        encode_utf8(chars).subrange(0, copyable_bytes(chars, avail) as int) == encode_utf8(
            chars.take(copyable_chars(chars, avail) as int),
        ),
    decreases chars.len(),
{
    let bytes = encode_utf8(chars);
    encode_utf8_valid_utf8(chars);
    if chars.len() > 0 {
        let width = encode_scalar(chars[0] as u32).len() as int;
        let rest = chars.drop_first();
        let tail = encode_utf8(rest);
        encode_utf8_first_scalar(chars);
        encode_utf8_valid_utf8(rest);
        assert(pop_first_scalar(bytes) =~= tail);
        reveal_with_fuel(is_char_boundary, 2);
        if width <= avail {
            lemma_copyable_is_longest_fit(rest, avail - width);
            let m = copyable_chars(rest, avail - width) as int;
            let n = copyable_bytes(rest, avail - width) as int;
            assert(chars.take(m + 1) =~= seq![chars[0]] + rest.take(m));
            lemma_encode_utf8_concat(seq![chars[0]], rest.take(m));
            reveal_with_fuel(encode_utf8, 2);
            assert forall|k: int| width + n < k <= avail && k <= bytes.len() implies !#[trigger] is_char_boundary(
                bytes,
                k,
            ) by {
                assert(is_char_boundary(bytes, k) == is_char_boundary(tail, k - width));
            }
        }
    }
}

/// Text is copied whole exactly when its encoding is no longer than the room:
/// then every character is taken.
pub proof fn lemma_copyable_all_iff_fits(chars: Seq<char>, avail: int)
    requires
        0 <= avail,
    ensures
        copyable_bytes(chars, avail) == encode_utf8(chars).len() <==> encode_utf8(chars).len()
            <= avail,
        encode_utf8(chars).len() <= avail ==> copyable_chars(chars, avail) == chars.len(),
{
    let bytes = encode_utf8(chars);
    let m = copyable_chars(chars, avail) as int;
    lemma_copyable_is_longest_fit(chars, avail);
    encode_utf8_valid_utf8(chars);
    is_char_boundary_start_end_of_seq(bytes);
    if bytes.len() <= avail {
        assert(bytes.subrange(0, bytes.len() as int) =~= bytes);
        encode_utf8_decode_utf8(chars);
        encode_utf8_decode_utf8(chars.take(m));
    }
}

} // verus!
