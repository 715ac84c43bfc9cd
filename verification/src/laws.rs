//! What holds of the library as a whole, stated over the spec functions that
//! the contracts of its functions use, and proved.

use vstd::prelude::*;
use vstd::string::*;
use vstd::utf8::*;
use crate::buffer::MicroStr;
use crate::convert::{debug_text, decimal};
use crate::utf8::{
    copyable_bytes, copyable_chars, is_scan_stop, lemma_copyable_all_iff_fits,
    lemma_copyable_is_longest_fit, lemma_longest_fit_unique, lemma_scan_stop_is_longest_fit,
    lemma_valid_prefix_is_boundary,
};

verus! {

/// The content of a well-formed string is text: it is valid UTF-8 within the
/// capacity, the characters that it decodes to encode to exactly the content
/// again, and decoding those gives the same characters.
pub proof fn law_content_is_text<const CAP: usize>(text: MicroStr<CAP>)
    requires
        text.wf(),
    ensures
        text.spec_bytes_len() <= CAP,
        valid_utf8(text.spec_bytes()),
        encode_utf8(text@) == text.spec_bytes(),
        decode_utf8(encode_utf8(text@)) == text@,
{
    decode_utf8_encode_utf8(text.spec_bytes());
}

/// Appending, truncating and clearing keep a well-formed string well formed,
/// whatever is appended and wherever the string is cut.
pub proof fn law_mutation_keeps_text<const CAP: usize>(
    before: MicroStr<CAP>,
    after: MicroStr<CAP>,
    chars: Seq<char>,
    n: int,
)
    requires
        before.wf(),
        after.is_appended_from(before, chars) || (0 <= n < before@.len() && after.is_truncated_from(
            before,
            n,
        )) || after.is_cleared_from(before),
    ensures
        after.wf(),
        encode_utf8(after@) == after.spec_bytes(),
{
    after.lemma_storage_len();
    if !after.is_appended_from(before, chars) && after.is_truncated_from(before, n) {
        encode_utf8_valid_utf8(before@.take(n));
    }
    law_content_is_text(after);
}

/// No operation takes the length past the capacity, in a well-formed string
/// or another, and for a capacity of 0 too.
pub proof fn law_length_within_capacity<const CAP: usize>(
    before: MicroStr<CAP>,
    after: MicroStr<CAP>,
    chars: Seq<char>,
    source: Seq<u8>,
    n: int,
)
    requires
        before.spec_bytes_len() <= CAP,
        after.is_appended_from(before, chars) || after.is_truncated_from(before, n)
            || after.is_cleared_from(before) || after.is_filled_with(chars) || after.is_copied_from(
            source,
        ),
    ensures
        after.spec_bytes_len() <= CAP,
{
}

/// Behind the content there is a 0 wherever there is room for one: every
/// constructor leaves one there, and so does every append, truncation and
/// clearing, whatever lay behind the content before.
pub proof fn law_sentinel_behind_content<const CAP: usize>(
    before: MicroStr<CAP>,
    after: MicroStr<CAP>,
    chars: Seq<char>,
    source: Seq<u8>,
    n: int,
)
    requires
        before.spec_bytes_len() <= CAP,
        after.is_appended_from(before, chars) || after.is_truncated_from(before, n)
            || after.is_cleared_from(before) || after.is_filled_with(chars) || after.is_copied_from(
            source,
        ),
    ensures
        after.is_terminated(),
{
    before.lemma_storage_len();
    after.lemma_storage_len();
}

/// Appending over zeros leaves zeros: a string that has only zeros behind its
/// content still has after an append.
pub proof fn law_append_keeps_zero_tail<const CAP: usize>(
    before: MicroStr<CAP>,
    after: MicroStr<CAP>,
    chars: Seq<char>,
)
    requires
        before.is_zero_tailed(),
        after.is_appended_from(before, chars),
    ensures
        after.is_zero_tailed(),
{
    before.lemma_storage_len();
    after.lemma_storage_len();
}

/// The debug form, character by character: the name, the capacity in
/// decimal between angle brackets, and the content between quotes in braces.
pub proof fn law_debug_form(cap: nat, content: Seq<char>)
    ensures
        debug_text(cap, content) == seq!['M', 'i', 'c', 'r', 'o', 'S', 't', 'r', '<'] + decimal(cap)
            + seq!['>', '{', '"'] + content + seq!['"', '}'],
{
    reveal_strlit("MicroStr<");
    reveal_strlit(">{\"");
    reveal_strlit("\"}");
    assert("MicroStr<"@ =~= seq!['M', 'i', 'c', 'r', 'o', 'S', 't', 'r', '<']);
    assert(">{\""@ =~= seq!['>', '{', '"']);
    assert("\"}"@ =~= seq!['"', '}']);
}

/// Where the backward walk stops on valid UTF-8, the bytes can be cut: the
/// stop is neither past the offset nor past the end, both sides of it are
/// valid UTF-8, so that it is inside no character, and no later cut up to the
/// offset leaves valid UTF-8 before it.
pub proof fn law_nearest_boundary_is_clean_cut(bytes: Seq<u8>, offset: int, stop: int)
    requires
        valid_utf8(bytes),
        0 <= offset,
        offset >= bytes.len() ==> stop == bytes.len(),
        offset < bytes.len() ==> is_scan_stop(bytes, offset, stop),
    ensures
        0 <= stop <= offset,
        stop <= bytes.len(),
        is_char_boundary(bytes, stop),
        valid_utf8(bytes.subrange(0, stop)),
        valid_utf8(bytes.subrange(stop, bytes.len() as int)),
        forall|k: int|
            stop < k <= offset && k <= bytes.len() ==> !valid_utf8(#[trigger] bytes.subrange(0, k)),
{
    if offset < bytes.len() {
        lemma_scan_stop_is_longest_fit(bytes, offset, stop);
    } else {
        is_char_boundary_start_end_of_seq(bytes);
    }
    valid_utf8_split(bytes, stop);
    assert forall|k: int| stop < k <= offset && k <= bytes.len() implies !valid_utf8(
        #[trigger] bytes.subrange(0, k),
    ) by {
        if valid_utf8(bytes.subrange(0, k)) {
            lemma_valid_prefix_is_boundary(bytes, k);
        }
    }
}

/// On text the two walks agree: where the backward walk over the encoding
/// stops is where the forward walk over the characters ends.
pub proof fn law_backward_and_forward_walks_agree(chars: Seq<char>, avail: int, stop: int)
    requires
        0 <= avail,
        avail >= encode_utf8(chars).len() ==> stop == encode_utf8(chars).len(),
        avail < encode_utf8(chars).len() ==> is_scan_stop(encode_utf8(chars), avail, stop),
    ensures
        stop == copyable_bytes(chars, avail),
        encode_utf8(chars).subrange(0, stop) == encode_utf8(
            chars.take(copyable_chars(chars, avail) as int),
        ),
{
    let bytes = encode_utf8(chars);
    encode_utf8_valid_utf8(chars);
    if avail < bytes.len() {
        lemma_scan_stop_is_longest_fit(bytes, avail, stop);
    } else {
        is_char_boundary_start_end_of_seq(bytes);
    }
    lemma_copyable_is_longest_fit(chars, avail);
    lemma_longest_fit_unique(bytes, avail, stop, copyable_bytes(chars, avail) as int);
}

/// What is appended of a text into `avail` bytes of room is a prefix of its
/// encoding that is no longer than the room, is valid UTF-8, and is the
/// longest such prefix: every longer one that would fit is cut inside a
/// character.
pub proof fn law_appended_prefix_is_longest(chars: Seq<char>, avail: int)
    requires
        0 <= avail,
    ensures
        copyable_bytes(chars, avail) <= avail,
        copyable_bytes(chars, avail) <= encode_utf8(chars).len(),
        copyable_chars(chars, avail) <= chars.len(),
        encode_utf8(chars.take(copyable_chars(chars, avail) as int)) == encode_utf8(chars).subrange(
            0,
            copyable_bytes(chars, avail) as int,
        ),
        valid_utf8(encode_utf8(chars).subrange(0, copyable_bytes(chars, avail) as int)),
        forall|k: int|
            copyable_bytes(chars, avail) < k <= avail && k <= encode_utf8(chars).len()
                ==> !valid_utf8(#[trigger] encode_utf8(chars).subrange(0, k)),
{
    let bytes = encode_utf8(chars);
    let n = copyable_bytes(chars, avail) as int;
    lemma_copyable_is_longest_fit(chars, avail);
    encode_utf8_valid_utf8(chars);
    encode_utf8_valid_utf8(chars.take(copyable_chars(chars, avail) as int));
    assert forall|k: int| n < k <= avail && k <= bytes.len() implies !valid_utf8(
        #[trigger] bytes.subrange(0, k),
    ) by {
        if valid_utf8(bytes.subrange(0, k)) {
            lemma_valid_prefix_is_boundary(bytes, k);
        }
    }
}

/// Text that fits is kept whole: a string made from text whose encoding is
/// no longer than the capacity holds its characters and its bytes, all of
/// them and no others.
pub proof fn law_fitting_text_round_trips<const CAP: usize>(text: MicroStr<CAP>, chars: Seq<char>)
    requires
        encode_utf8(chars).len() <= CAP,
        text.is_filled_with(chars.take(copyable_chars(chars, CAP as int) as int)),
    ensures
        copyable_bytes(chars, CAP as int) == encode_utf8(chars).len(),
        text@ == chars,
        text.spec_bytes() == encode_utf8(chars),
{
    lemma_copyable_all_iff_fits(chars, CAP as int);
}

/// Clearing twice is clearing once, and a cleared string has no bytes and
/// no characters.
pub proof fn law_clear_is_idempotent<const CAP: usize>(
    before: MicroStr<CAP>,
    once: MicroStr<CAP>,
    twice: MicroStr<CAP>,
)
    requires
        once.is_cleared_from(before),
        twice.is_cleared_from(once),
    ensures
        twice == once,
        once.spec_bytes_len() == 0,
        once.spec_bytes().len() == 0,
        once@.len() == 0,
{
    before.lemma_storage_len();
    once.lemma_storage_len();
    twice.lemma_storage_len();
    assert(twice.storage() =~= once.storage());
    MicroStr::lemma_ext_equal(twice, once);
}

/// Strings of different capacities are equal exactly if their contents are,
/// and for well-formed strings exactly if their characters are.
pub proof fn law_equality_is_by_content<const A: usize, const B: usize>(
    a: MicroStr<A>,
    b: MicroStr<B>,
)
    requires
        a.wf(),
        b.wf(),
    ensures
        a.spec_bytes() == b.spec_bytes() <==> a@ == b@,
{
    decode_utf8_encode_utf8(a.spec_bytes());
    decode_utf8_encode_utf8(b.spec_bytes());
}

} // verus!
