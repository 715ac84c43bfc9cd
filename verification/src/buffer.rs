//! The fixed-capacity string type.
//!
//! A [`MicroStr`] owns an array of `CAP` bytes and a length. The leading
//! `length` bytes are its content; what lies behind them is storage that
//! earlier operations left there. Two things hold of every value and are the
//! type invariant: the length never exceeds the capacity, and a 0 stands
//! behind the content wherever there is room for one
//! ([`MicroStr::is_terminated`]). That the content is valid UTF-8 is the
//! well-formedness predicate [`MicroStr::wf`], which every constructor from
//! text establishes and every mutator keeps, but which the constructors from
//! raw bytes and the mutable byte view ([`MicroStr::as_mut_bytes`]) leave in
//! the caller's hands.
//!
//! The methods that read the content as text ask for a well-formed string.
//! The traits of `core` cannot ask: to them a string that is not well formed
//! has no text. It dereferences to the empty text, and printing it fails.

use vstd::prelude::*;
use vstd::string::*;
use vstd::utf8::*;
use crate::core_specs::{array_prefix_mut, char_to_bytes_utf8, str_from_utf8_mut};
use crate::utf8::{
    const_min, copyable_bytes, copyable_chars, lemma_append_text, lemma_copyable_all_iff_fits,
    lemma_encode_nonempty, lemma_encode_single, lemma_encode_step, utf8_char_width,
    utf8_truncator,
};

verus! {

/// `storage` with `data` written over it from offset `at` on.
pub open spec fn overwrite(storage: Seq<u8>, at: int, data: Seq<u8>) -> Seq<u8> {
    storage.subrange(0, at) + data + storage.subrange(at + data.len(), storage.len() as int)
}

/// `storage` with a 0 written at offset `end`, where it has such an offset.
pub open spec fn terminate(storage: Seq<u8>, end: int) -> Seq<u8> {
    if 0 <= end < storage.len() {
        storage.update(end, 0u8)
    } else {
        storage
    }
}

/// `n` zero bytes.
pub open spec fn zeros(n: nat) -> Seq<u8> {
    Seq::new(n, |i: int| 0u8)
}

/// Text written over zeros, with a 0 behind it, is the text and then zeros.
proof fn lemma_written_over_zeros(cap: nat, data: Seq<u8>)
    requires
        data.len() <= cap,
    ensures
        terminate(overwrite(zeros(cap), 0, data), data.len() as int) == data + zeros(
            (cap - data.len()) as nat,
        ),
{
    assert(terminate(overwrite(zeros(cap), 0, data), data.len() as int) =~= data + zeros(
        (cap - data.len()) as nat,
    ));
}

/// Copies the leading `n` bytes of `src` into `dst` from offset `at` on.
fn copy_into<const N: usize>(dst: &mut [u8; N], at: usize, src: &[u8], n: usize)
    requires
        at + n <= N,
        n <= src@.len(),
    ensures
        final(dst)@ == overwrite(old(dst)@, at as int, src@.subrange(0, n as int)),
    no_unwind
{
    let mut i: usize = 0;
    while i < n
        invariant
            i <= n,
            at + n <= N,
            n <= src@.len(),
            dst@ == overwrite(old(dst)@, at as int, src@.subrange(0, i as int)),
        decreases n - i,
    {
        dst[at + i] = src[i];
        i += 1;
    }
}

/// A string of at most `CAP` bytes, stored inline.
pub struct MicroStr<const CAP: usize> {
    buffer: [u8; CAP],
    len: usize,
}

impl<const CAP: usize> View for MicroStr<CAP> {
    type V = Seq<char>;

    /// The characters that the content encodes.
    open spec fn view(&self) -> Seq<char> {
        decode_utf8(self.spec_bytes())
    }
}

impl<const CAP: usize> MicroStr<CAP> {
    #[verifier::type_invariant]
    spec fn length_and_sentinel(&self) -> bool {
        &&& self.len <= CAP
        &&& self.len < CAP ==> self.buffer@[self.len as int] == 0
    }

    /// The whole backing array, content and what lies behind it.
    pub closed spec fn storage(&self) -> Seq<u8> {
        self.buffer@
    }

    /// The number of content bytes.
    pub closed spec fn spec_bytes_len(&self) -> nat {
        self.len as nat
    }

    /// The content: the leading `spec_bytes_len()` bytes of the storage.
    pub open spec fn spec_bytes(&self) -> Seq<u8> {
        self.storage().subrange(0, self.spec_bytes_len() as int)
    }

    /// The content fits the capacity and is valid UTF-8.
    pub open spec fn wf(&self) -> bool {
        &&& self.storage().len() == CAP
        &&& self.spec_bytes_len() <= CAP
        &&& valid_utf8(self.spec_bytes())
    }

    /// The byte behind the content is 0, where there is one: a reader that
    /// looks for a terminator finds the end of the content.
    pub open spec fn is_terminated(&self) -> bool {
        self.spec_bytes_len() < self.storage().len() ==> self.storage()[self.spec_bytes_len() as int]
            == 0
    }

    /// All bytes behind the content are 0.
    pub open spec fn is_zero_tailed(&self) -> bool {
        forall|i: int|
            self.spec_bytes_len() <= i < self.storage().len() ==> #[trigger] self.storage()[i] == 0
    }

    // What the operations make of a string.

    /// A string made by copying the leading bytes of `source`, as many as
    /// there are or as fit, over zeros.
    pub open spec fn is_copied_from(&self, source: Seq<u8>) -> bool {
        let n = if source.len() <= CAP {
            source.len() as int
        } else {
            CAP as int
        };
        &&& self.spec_bytes_len() == n
        &&& self.spec_bytes() == source.subrange(0, n)
        &&& self.storage() == source.subrange(0, n) + zeros((CAP - n) as nat)
        &&& self.wf() <==> valid_utf8(source.subrange(0, n))
    }

    /// A string made of nothing but `chars`: their encoding, then zeros.
    pub open spec fn is_filled_with(&self, chars: Seq<char>) -> bool {
        &&& self.wf()
        &&& self@ == chars
        &&& self.spec_bytes() == encode_utf8(chars)
        &&& self.storage() == encode_utf8(chars) + zeros((CAP - encode_utf8(chars).len()) as nat)
    }

    /// What appending the characters `chars` makes of `before`: their
    /// encoding is written behind the content and becomes part of it, a 0 is
    /// written behind the new content where there is room for one, the rest
    /// of the storage stays, and text stays text.
    pub open spec fn is_appended_from(&self, before: Self, chars: Seq<char>) -> bool {
        &&& self.spec_bytes_len() == before.spec_bytes_len() + encode_utf8(chars).len()
        &&& self.spec_bytes_len() <= CAP
        &&& self.storage() == terminate(
            overwrite(before.storage(), before.spec_bytes_len() as int, encode_utf8(chars)),
            self.spec_bytes_len() as int,
        )
        &&& self.spec_bytes() == before.spec_bytes() + encode_utf8(chars)
        &&& before.wf() ==> self.wf() && self@ == before@ + chars
    }

    /// What cutting `before` down to its first `n` characters gives.
    pub open spec fn is_truncated_from(&self, before: Self, n: int) -> bool {
        &&& self@ == before@.take(n)
        &&& self.spec_bytes() == encode_utf8(before@.take(n))
        &&& self.spec_bytes_len() == encode_utf8(before@.take(n)).len()
        &&& self.spec_bytes_len() < before.spec_bytes_len()
        &&& self.storage() == before.storage().update(self.spec_bytes_len() as int, 0u8)
    }

    /// What `clear` makes of `before`.
    pub open spec fn is_cleared_from(&self, before: Self) -> bool {
        &&& self.spec_bytes_len() == 0
        &&& self.storage() == if CAP > 0 {
            before.storage().update(0, 0u8)
        } else {
            before.storage()
        }
    }

    /// Two values with the same storage and length are the same value.
    pub proof fn lemma_ext_equal(a: Self, b: Self)
        requires
            a.storage() == b.storage(),
            a.spec_bytes_len() == b.spec_bytes_len(),
        ensures
            a == b,
    {
        assert(a.buffer =~= b.buffer);
    }

    /// The storage is always `CAP` bytes long.
    pub proof fn lemma_storage_len(&self)
        ensures
            self.storage().len() == CAP,
    {
    }

    /// Whatever is written over the content, the storage afterwards is the
    /// old one with that written over its front.
    proof fn lemma_rewritten_content(&self, n: int)
        requires
            0 <= n <= CAP,
        ensures
            forall|written: Seq<u8>|
                written.len() == n ==> (#[trigger] (written + self.storage().subrange(
                    n,
                    CAP as int,
                ))).subrange(0, n) == written && written + self.storage().subrange(n, CAP as int)
                    == overwrite(self.storage(), 0, written),
    {
        let behind = self.storage().subrange(n, CAP as int);
        assert forall|written: Seq<u8>| written.len() == n implies (#[trigger] (written
            + behind)).subrange(0, n) == written && written + behind == overwrite(
            self.storage(),
            0,
            written,
        ) by {
            assert((written + behind).subrange(0, n) =~= written);
            assert(written + behind =~= overwrite(self.storage(), 0, written));
        }
    }

    /// Encoded text is valid UTF-8 and decodes to what was encoded.
    proof fn lemma_encoded_is_text()
        ensures
            forall|chars: Seq<char>|
                valid_utf8(#[trigger] encode_utf8(chars)) && decode_utf8(encode_utf8(chars))
                    == chars,
    {
        assert forall|chars: Seq<char>|
            valid_utf8(#[trigger] encode_utf8(chars)) && decode_utf8(encode_utf8(chars))
                == chars by {
            encode_utf8_valid_utf8(chars);
            encode_utf8_decode_utf8(chars);
        }
    }

    // Constructors.

    /// Creates an empty string over zeroed storage.
    pub fn new() -> (r: Self)
        ensures
            r.wf(),
            r.spec_bytes_len() == 0,
            r@ == Seq::<char>::empty(),
            r.storage() == zeros(CAP as nat),
            r.is_terminated(),
    {
        Self { buffer: [0; CAP], len: 0 }
    }

    /// Creates a string from as much of `s` as fits into `CAP` bytes: see
    /// [`MicroStr::push_str`]. Returns `Ok` if that is all of `s`, and
    /// otherwise in `Err` the string together with its length in bytes.
    pub fn from_str(s: &str) -> (res: Result<Self, (Self, usize)>)
        ensures
            ({
                let text = match res {
                    Ok(text) => text,
                    Err((text, _)) => text,
                };
                text.is_filled_with(s@.take(copyable_chars(s@, CAP as int) as int))
            }),
            res is Ok <==> s.spec_bytes().len() <= CAP,
            res is Ok ==> res->Ok_0.is_filled_with(s@) && res->Ok_0.is_terminated(),
            res is Err ==> res->Err_0.1 == copyable_bytes(s@, CAP as int)
                && res->Err_0.0.is_terminated(),
    {
        let mut result = Self::new();
        let ghost empty = result;
        let pushed = result.push_str(s);
        proof {
            let chars = s@.take(copyable_chars(s@, CAP as int) as int);
            lemma_written_over_zeros(CAP as nat, encode_utf8(chars));
            assert(empty@ + chars =~= chars);
            if pushed is Ok {
                lemma_written_over_zeros(CAP as nat, encode_utf8(s@));
                assert(empty@ + s@ =~= s@);
            }
        }
        match pushed {
            Ok(()) => Ok(result),
            Err(bytes) => Err((result, bytes)),
        }
    }

    /// Creates a string from as much of `s` as fits into `CAP` bytes, as
    /// [`MicroStr::from_str`] does, without saying whether that was all.
    pub fn from_const(s: &str) -> (r: Self)
        ensures
            r.is_filled_with(s@.take(copyable_chars(s@, CAP as int) as int)),
            s.spec_bytes().len() <= CAP ==> r.is_filled_with(s@),
            r.is_terminated(),
    {
        let mut result = Self::new();
        let ghost empty = result;
        let truncating: usize = utf8_truncator(s, CAP);
        let ghost chars = s@.take(copyable_chars(s@, CAP as int) as int);
        result.append_bytes(s.as_bytes(), truncating, Ghost(chars));
        proof {
            lemma_copyable_all_iff_fits(s@, CAP as int);
            lemma_written_over_zeros(CAP as nat, encode_utf8(chars));
            assert(empty@ + chars =~= chars);
            if s.spec_bytes().len() <= CAP {
                assert(s@.take(s@.len() as int) =~= s@);
            }
        }
        result
    }

    /// Creates a string from the leading `min(N, CAP)` bytes of `buf`, as
    /// they are. Nothing is looked at: the string is well formed exactly if
    /// those bytes are valid UTF-8, which is for the caller to know.
    pub fn from_raw_buffer<const N: usize>(buf: [u8; N]) -> (r: Self)
        ensures
            r.is_copied_from(buf@),
            r.is_terminated(),
    {
        let len: usize = const_min(N, CAP);
        let mut buffer: [u8; CAP] = [0; CAP];
        copy_into(&mut buffer, 0, buf.as_slice(), len);
        let r = Self { buffer, len };
        proof {
            assert(r.storage() =~= buf@.subrange(0, len as int) + zeros((CAP - len) as nat));
            assert(r.spec_bytes() =~= buf@.subrange(0, len as int));
        }
        r
    }

    /// Creates a string from the leading `min(s.len(), CAP)` bytes of `s`, as
    /// they are. Text that fits is taken whole; text that does not is cut
    /// where the capacity ends, inside a character or not, and the string is
    /// well formed exactly if the cut is a character boundary.
    pub fn from_str_unchecked(s: &str) -> (r: Self)
        ensures
            r.is_copied_from(s.spec_bytes()),
            s.spec_bytes().len() <= CAP ==> r.is_filled_with(s@),
            r.is_terminated(),
    {
        let bytes = s.as_bytes();
        let to_copy: usize = const_min(bytes.len(), CAP);
        let mut buf: [u8; CAP] = [0; CAP];
        copy_into(&mut buf, 0, bytes, to_copy);
        let r = Self { buffer: buf, len: to_copy };
        proof {
            assert(r.storage() =~= bytes@.subrange(0, to_copy as int) + zeros(
                (CAP - to_copy) as nat,
            ));
            assert(r.spec_bytes() =~= bytes@.subrange(0, to_copy as int));
            if bytes@.len() <= CAP {
                assert(bytes@.subrange(0, to_copy as int) =~= bytes@);
                encode_utf8_valid_utf8(s@);
                encode_utf8_decode_utf8(s@);
            }
        }
        r
    }

    /// Takes `buf` for the storage as it is. The content ends before the
    /// first 0 byte, or fills the storage where there is none. Nothing else is
    /// looked at: the string is well formed exactly if the bytes before that
    /// 0 are valid UTF-8, which is for the caller to know.
    pub fn from_terminated_buffer(buf: [u8; CAP]) -> (r: Self)
        ensures
            r.storage() == buf@,
            r.spec_bytes_len() <= CAP,
            r.spec_bytes_len() < CAP ==> buf@[r.spec_bytes_len() as int] == 0,
            forall|i: int| 0 <= i < r.spec_bytes_len() ==> buf@[i] != 0,
            r.wf() <==> valid_utf8(buf@.subrange(0, r.spec_bytes_len() as int)),
            r.is_terminated(),
    {
        let mut len: usize = 0;
        while len < CAP && buf[len] != 0
            invariant
                len <= CAP,
                forall|i: int| 0 <= i < len ==> buf@[i] != 0,
            decreases CAP - len,
        {
            len += 1;
        }
        Self { buffer: buf, len }
    }

    // What a string holds.

    /// The capacity in bytes.
    pub fn capacity(&self) -> (r: usize)
        ensures
            r == CAP,
    {
        CAP
    }

    /// The number of bytes that can still be appended.
    pub fn extra_capacity(&self) -> (r: usize)
        ensures
            r == CAP - self.spec_bytes_len(),
    {
        proof {
            use_type_invariant(self);
        }
        CAP - self.len
    }

    /// Whether the content is empty.
    pub fn is_empty(&self) -> (r: bool)
        ensures
            r == (self.spec_bytes_len() == 0),
    {
        self.len == 0
    }

    /// The length of the content in bytes.
    pub fn bytes_len(&self) -> (r: usize)
        ensures
            r == self.spec_bytes_len(),
            r == self.spec_bytes().len(),
            r <= CAP,
            self.is_terminated(),
    {
        proof {
            use_type_invariant(self);
        }
        self.len
    }

    /// The whole storage as a byte slice: the content, the 0 behind it where
    /// there is room for one, and what lies behind that. This is what a
    /// reader that looks for the terminator is given.
    pub fn as_storage_bytes(&self) -> (r: &[u8])
        ensures
            r@ == self.storage(),
            r@.len() == CAP,
            self.spec_bytes_len() <= CAP,
            self.is_terminated(),
    {
        proof {
            use_type_invariant(self);
        }
        self.buffer.as_slice()
    }

    /// The content as a byte slice.
    pub fn as_bytes(&self) -> (r: &[u8])
        ensures
            r@ == self.spec_bytes(),
    {
        proof {
            use_type_invariant(self);
        }
        &self.buffer[0..self.len]
    }

    /// Whether the string is well formed: whether its content is valid
    /// UTF-8. It is, unless a mutable view or a constructor from raw bytes
    /// was given bytes that are not.
    pub fn is_text(&self) -> (r: bool)
        ensures
            r == self.wf(),
    {
        proof {
            use_type_invariant(self);
        }
        core::str::from_utf8(self.as_bytes()).is_ok()
    }

    /// The content as text.
    pub fn as_str(&self) -> (r: &str)
        requires
            self.wf(),
        ensures
            r@ == self@,
            r.spec_bytes() == self.spec_bytes(),
    {
        match core::str::from_utf8(self.as_bytes()) {
            Ok(text) => {
                proof {
                    encode_utf8_decode_utf8(text@);
                }
                text
            },
            Err(_) => unreached(),
        }
    }

    /// The number of characters in the content.
    pub fn len(&self) -> (r: usize)
        requires
            self.wf(),
        ensures
            r == self@.len(),
    {
        self.as_str().unicode_len()
    }

    /// The content as an owned `String`.
    pub fn to_string(&self) -> (r: String)
        requires
            self.wf(),
        ensures
            r@ == self@,
    {
        String::from_str(self.as_str())
    }

    /// Gives up the string for its storage: all `CAP` bytes, the content
    /// first.
    pub fn into_raw_buffer(self) -> (r: [u8; CAP])
        ensures
            r@ == self.storage(),
            self.is_terminated(),
    {
        proof {
            use_type_invariant(&self);
        }
        self.buffer
    }

    // Mutable views.

    /// The content as a mutable byte slice. What the caller writes through
    /// it becomes the content, valid UTF-8 or not: the string is well formed
    /// afterwards exactly if the bytes written are.
    pub fn as_mut_bytes(&mut self) -> (r: &mut [u8])
        ensures
            r@ == old(self).spec_bytes(),
            final(self).spec_bytes_len() == old(self).spec_bytes_len(),
            final(self).spec_bytes() == final(r)@,
            final(self).storage() == overwrite(old(self).storage(), 0, final(r)@),
            final(self).wf() <==> valid_utf8(final(r)@),
            final(self).is_terminated(),
    {
        proof {
            use_type_invariant(&*self);
            self.lemma_rewritten_content(self.len as int);
        }
        array_prefix_mut(&mut self.buffer, self.len)
    }

    /// The content as mutable text. What the caller makes of it becomes the
    /// content.
    pub fn as_str_mut(&mut self) -> (r: &mut str)
        requires
            old(self).wf(),
        ensures
            r@ == old(self)@,
            r.spec_bytes() == old(self).spec_bytes(),
            final(self).spec_bytes_len() == old(self).spec_bytes_len(),
            final(self).spec_bytes() == final(r).spec_bytes(),
            final(self).storage() == overwrite(old(self).storage(), 0, final(r).spec_bytes()),
            final(self).wf(),
            final(self)@ == final(r)@,
            final(self).is_terminated(),
    {
        proof {
            use_type_invariant(&*self);
            self.lemma_rewritten_content(self.len as int);
            Self::lemma_encoded_is_text();
        }
        let bytes = array_prefix_mut(&mut self.buffer, self.len);
        str_from_utf8_mut(bytes)
    }

    // Mutators.

    /// Writes the leading `n` bytes of `src`, which encode `chars`, behind
    /// the content and makes them part of it, with a 0 behind them where
    /// there is room for one.
    fn append_bytes(&mut self, src: &[u8], n: usize, Ghost(chars): Ghost<Seq<char>>)
        requires
            n <= src@.len(),
            src@.subrange(0, n as int) == encode_utf8(chars),
            old(self).spec_bytes_len() + n <= CAP,
        ensures
            final(self).is_appended_from(*old(self), chars),
            final(self).is_terminated(),
    {
        proof {
            use_type_invariant(&*self);
        }
        let start: usize = self.len;
        let end: usize = start + n;
        if end < CAP {
            self.buffer[end] = 0;
        }
        self.len = end;
        copy_into(&mut self.buffer, start, src, n);
        proof {
            assert(final(self).storage() =~= terminate(
                overwrite(old(self).storage(), start as int, encode_utf8(chars)),
                end as int,
            ));
            assert(final(self).spec_bytes() =~= old(self).spec_bytes() + encode_utf8(chars));
            if old(self).wf() {
                lemma_append_text(old(self).spec_bytes(), chars);
            }
        }
    }

    /// Appends all of `s` without looking at the capacity, which the caller
    /// has made sure of. A 0 is written behind the new content where there
    /// is room for one.
    pub fn push_str_unchecked(&mut self, s: &str)
        requires
            old(self).spec_bytes_len() + s.spec_bytes().len() <= CAP,
        ensures
            final(self).is_appended_from(*old(self), s@),
            final(self).is_terminated(),
    {
        let bytes = s.as_bytes();
        let n: usize = bytes.len();
        proof {
            assert(s.spec_bytes().subrange(0, n as int) =~= s.spec_bytes());
        }
        self.append_bytes(bytes, n, Ghost(s@));
    }

    /// Appends `ch` without looking at the capacity, which the caller has
    /// made sure of. A 0 is written behind the new content where there is
    /// room for one.
    pub fn push_unchecked(&mut self, ch: char)
        requires
            old(self).spec_bytes_len() + encode_scalar(ch as u32).len() <= CAP,
        ensures
            final(self).is_appended_from(*old(self), seq![ch]),
            final(self).spec_bytes() == old(self).spec_bytes() + encode_scalar(ch as u32),
            final(self).is_terminated(),
    {
        let char_len: usize = ch.len_utf8();
        let char_bytes = char_to_bytes_utf8(ch);
        let ghost chars = seq![ch];
        proof {
            lemma_encode_single(ch);
        }
        self.append_bytes(char_bytes.as_slice(), char_len, Ghost(chars));
    }

    /// Appends `ch` if its encoding fits into the free room, with a 0
    /// behind it where there is room for one, and otherwise leaves the
    /// string as it is and returns `Err`.
    pub fn push(&mut self, ch: char) -> (res: Result<(), ()>)
        ensures
            res is Ok <==> old(self).spec_bytes_len() + encode_scalar(ch as u32).len() <= CAP,
            res is Ok ==> final(self).is_appended_from(*old(self), seq![ch]),
            res is Ok ==> final(self).spec_bytes() == old(self).spec_bytes() + encode_scalar(
                ch as u32,
            ),
            res is Err ==> *final(self) == *old(self),
            final(self).is_terminated(),
    {
        proof {
            use_type_invariant(&*self);
        }
        if ch.len_utf8() <= CAP - self.len {
            self.push_unchecked(ch);
            return Ok(());
        }
        Err(())
    }

    /// Appends as much of `s` as fits: all of it, or else its longest run of
    /// leading characters whose encoding is no longer than the free room. A
    /// 0 is written behind the new content where there is room for one.
    /// Returns `Ok` if all of `s` was appended, and otherwise in `Err` the
    /// number of bytes that were.
    pub fn push_str(&mut self, s: &str) -> (res: Result<(), usize>)
        ensures
            final(self).is_appended_from(
                *old(self),
                s@.take(copyable_chars(s@, CAP - old(self).spec_bytes_len()) as int),
            ),
            res is Ok <==> s.spec_bytes().len() <= CAP - old(self).spec_bytes_len(),
            res is Ok ==> final(self).is_appended_from(*old(self), s@),
            res is Err ==> res->Err_0 == copyable_bytes(s@, CAP - old(self).spec_bytes_len()),
            final(self).is_terminated(),
    {
        let avail: usize = self.extra_capacity();
        let truncating_len: usize = utf8_truncator(s, avail);
        let bytes = s.as_bytes();
        proof {
            lemma_copyable_all_iff_fits(s@, avail as int);
            if s.spec_bytes().len() <= avail {
                assert(s@.take(s@.len() as int) =~= s@);
            }
        }
        self.append_bytes(
            bytes,
            truncating_len,
            Ghost(s@.take(copyable_chars(s@, avail as int) as int)),
        );
        if truncating_len == bytes.len() {
            Ok(())
        } else {
            Err(truncating_len)
        }
    }

    /// Cuts the content down to its first `char_idx` characters and writes a
    /// 0 behind them. A string of no more characters than that stays as
    /// it is.
    pub fn truncate(&mut self, char_idx: usize)
        requires
            old(self).wf(),
        ensures
            final(self).wf(),
            final(self).is_terminated(),
            char_idx >= old(self)@.len() ==> *final(self) == *old(self),
            char_idx < old(self)@.len() ==> final(self).is_truncated_from(
                *old(self),
                char_idx as int,
            ),
    {
        let ghost chars = self@;
        let ghost bytes = self.spec_bytes();
        proof {
            use_type_invariant(&*self);
            decode_utf8_encode_utf8(bytes);
            assert(chars.skip(0) =~= chars);
        }
        let mut byte_idx: usize = 0;
        let mut count: usize = 0;
        while byte_idx < self.len && count < char_idx
            invariant
                *self == *old(self),
                self.len <= CAP,
                bytes == self.spec_bytes(),
                bytes == encode_utf8(chars),
                byte_idx <= self.len,
                count <= chars.len(),
                count <= char_idx,
                bytes.subrange(0, byte_idx as int) == encode_utf8(chars.take(count as int)),
                bytes.subrange(byte_idx as int, bytes.len() as int) == encode_utf8(
                    chars.skip(count as int),
                ),
            decreases self.len - byte_idx,
        {
            proof {
                let rest = bytes.subrange(byte_idx as int, bytes.len() as int);
                lemma_encode_nonempty(chars.skip(count as int));
                lemma_encode_step(chars, count as int);
                let width = encode_scalar(chars[count as int] as u32).len() as int;
                assert(rest.len() >= width);
                assert(rest.subrange(0, width) =~= encode_scalar(chars[count as int] as u32));
                assert(rest.subrange(width, rest.len() as int) =~= encode_utf8(
                    chars.skip(count + 1),
                ));
            }
            byte_idx += utf8_char_width(self.buffer[byte_idx]);
            count += 1;
        }
        if byte_idx < self.len {
            proof {
                lemma_encode_nonempty(chars.skip(count as int));
                encode_utf8_valid_utf8(chars.take(count as int));
                encode_utf8_decode_utf8(chars.take(count as int));
            }
            self.buffer[byte_idx] = 0;
            self.len = byte_idx;
            proof {
                assert(self.spec_bytes() =~= bytes.subrange(0, byte_idx as int));
            }
        } else {
            proof {
                lemma_encode_nonempty(chars.skip(count as int));
            }
        }
    }

    /// Empties the string. The first byte of the storage becomes 0, where
    /// there is one; the others stay.
    pub fn clear(&mut self)
        ensures
            final(self).is_cleared_from(*old(self)),
            final(self).wf(),
            final(self).is_terminated(),
            final(self)@ == Seq::<char>::empty(),
    {
        proof {
            use_type_invariant(&*self);
        }
        if CAP > 0 {
            self.buffer[0] = 0;
        }
        self.len = 0;
    }
}

impl<const CAP: usize> core::ops::Deref for MicroStr<CAP> {
    type Target = str;

    /// The content as text, where the string is well formed. A string that
    /// is not has no text, and dereferences to the empty one.
    fn deref(&self) -> (r: &str)
        ensures
            self.wf() ==> r@ == self@ && r.spec_bytes() == self.spec_bytes(),
            !self.wf() ==> r@ == Seq::<char>::empty(),
    {
        match core::str::from_utf8(self.as_bytes()) {
            Ok(text) => {
                proof {
                    use_type_invariant(self);
                    encode_utf8_decode_utf8(text@);
                }
                text
            },
            Err(_) => {
                proof {
                    use_type_invariant(self);
                    reveal_strlit("");
                }
                ""
            },
        }
    }
}

impl<const CAP: usize> core::ops::DerefMut for MicroStr<CAP> {
    /// The content as mutable text, where the string is well formed: see
    /// [`MicroStr::as_str_mut`]. A string that is not has no text, and
    /// dereferences to the empty one, through which nothing can be changed.
    fn deref_mut(&mut self) -> (r: &mut str)
        ensures
            old(self).wf() ==> r@ == old(self)@ && r.spec_bytes() == old(self).spec_bytes(),
            !old(self).wf() ==> r@ == Seq::<char>::empty(),
            final(self).spec_bytes_len() == old(self).spec_bytes_len(),
            old(self).wf() ==> final(self).wf() && final(self)@ == final(r)@,
            old(self).wf() ==> final(self).storage() == overwrite(
                old(self).storage(),
                0,
                final(r).spec_bytes(),
            ),
            !old(self).wf() ==> final(self).storage() == old(self).storage(),
            final(self).is_terminated(),
    {
        let n: usize = if self.is_text() {
            self.len
        } else {
            0
        };
        proof {
            use_type_invariant(&*self);
            self.lemma_rewritten_content(n as int);
            Self::lemma_encoded_is_text();
            assert(self.storage().subrange(0, CAP as int) =~= self.storage());
        }
        let bytes = array_prefix_mut(&mut self.buffer, n);
        str_from_utf8_mut(bytes)
    }
}

impl<const CAP: usize> Clone for MicroStr<CAP> {
    /// A copy with the same storage and length.
    fn clone(&self) -> (r: Self)
        ensures
            r == *self,
            r.is_terminated(),
    {
        proof {
            use_type_invariant(self);
        }
        Self { buffer: self.buffer, len: self.len }
    }
}

impl<const CAP: usize> Default for MicroStr<CAP> {
    /// An empty string, as [`MicroStr::new`] makes it.
    fn default() -> (r: Self)
        ensures
            r.wf(),
            r.spec_bytes_len() == 0,
            r@ == Seq::<char>::empty(),
            r.storage() == zeros(CAP as nat),
            r.is_terminated(),
    {
        Self::new()
    }
}

impl<const A: usize, const B: usize> PartialEq<MicroStr<B>> for MicroStr<A> {
    /// Two strings are equal if their contents are, whatever their
    /// capacities and whatever lies behind the contents.
    fn eq(&self, other: &MicroStr<B>) -> (r: bool) {
        let a = self.as_bytes();
        let b = other.as_bytes();
        if a.len() != b.len() {
            return false;
        }
        let mut i: usize = 0;
        while i < a.len()
            invariant
                i <= a@.len(),
                a@.len() == b@.len(),
                a@ == self.spec_bytes(),
                b@ == other.spec_bytes(),
                forall|j: int| 0 <= j < i ==> a@[j] == b@[j],
            decreases a@.len() - i,
        {
            if a[i] != b[i] {
                return false;
            }
            i += 1;
        }
        proof {
            assert(a@ =~= b@);
        }
        true
    }
}

impl<const A: usize, const B: usize> vstd::std_specs::cmp::PartialEqSpecImpl<MicroStr<B>> for MicroStr<A> {
    open spec fn obeys_eq_spec() -> bool {
        true
    }

    open spec fn eq_spec(&self, other: &MicroStr<B>) -> bool {
        self.spec_bytes() =~= other.spec_bytes()
    }
}

} // verus!
