//! Contracts for the functions and types of `core` and `alloc` that this
//! library uses and that vstd leaves without one. None of them is proved:
//! each says what the documentation of the function says, in terms of vstd's
//! definition of UTF-8, or says nothing where the outcome lies with the
//! caller's formatter.

use vstd::prelude::*;
use vstd::string::*;
use vstd::utf8::*;
use crate::convert::decimal;

verus! {

/// `char::len_utf8` returns the number of bytes that the character takes
/// when encoded in UTF-8.
pub assume_specification[ char::len_utf8 ](ch: char) -> (r: usize)
    ensures
        r == encode_scalar(ch as u32).len(),
        1 <= r <= 4,
;

/// Calls `char::encode_utf8` on an array of four bytes, which is room enough
/// for any character: the encoding of `ch` is written to the front of it.
#[verifier::external_body]
pub(crate) fn char_to_bytes_utf8(ch: char) -> (r: [u8; 4])
    ensures
        r@.subrange(0, encode_scalar(ch as u32).len() as int) == encode_scalar(ch as u32),
{
    let mut result: [u8; 4] = [0; 4];
    ch.encode_utf8(&mut result);
    result
}

/// The error of `core::str::from_utf8`.
#[verifier::external_type_specification]
#[verifier::external_body]
pub struct ExUtf8Error(core::str::Utf8Error);

/// `core::str::from_utf8` succeeds exactly on valid UTF-8, and the string
/// slice that it then returns has the bytes that it was given.
pub assume_specification[ core::str::from_utf8 ](v: &[u8]) -> (r: Result<
    &str,
    core::str::Utf8Error,
>)
    ensures
        r is Ok <==> valid_utf8(v@),
        r is Ok ==> r->Ok_0.spec_bytes() == v@,
;

/// Calls `core::str::from_utf8_mut` on bytes that are valid UTF-8, on which
/// it succeeds: the string slice has the bytes that it was given, and the
/// bytes are afterwards what the string slice has become, which is as long as
/// it was.
#[verifier::external_body]
pub(crate) fn str_from_utf8_mut(v: &mut [u8]) -> (r: &mut str)
    requires
        valid_utf8(old(v)@),
    ensures
        r.spec_bytes() == old(v)@,
        final(r).spec_bytes().len() == old(v)@.len(),
        final(v)@ == final(r).spec_bytes(),
{
    core::str::from_utf8_mut(v).unwrap()
}

/// Calls the range form of `IndexMut::index_mut` on an array: the result
/// borrows the leading `n` elements, and what is written through it is what
/// the array holds there afterwards; the elements behind them stay.
#[verifier::external_body]
pub(crate) fn array_prefix_mut<const N: usize>(array: &mut [u8; N], n: usize) -> (r: &mut [u8])
    requires
        n <= N,
    ensures
        r@ == old(array)@.subrange(0, n as int),
        final(r)@.len() == n,
        final(array)@ == final(r)@ + old(array)@.subrange(n as int, N as int),
    no_unwind
{
    &mut array[..n]
}

/// The sink that the formatter traits write to.
#[verifier::external_type_specification]
#[verifier::external_body]
pub struct ExFormatter<'a>(core::fmt::Formatter<'a>);

/// The error of the formatter traits. It says nothing but that writing
/// failed.
#[verifier::external_type_specification]
#[verifier::external_body]
pub struct ExFmtError(core::fmt::Error);

/// What `format_args!` makes: a format string with its arguments.
#[verifier::external_type_specification]
#[verifier::external_body]
pub struct ExArguments<'a>(core::fmt::Arguments<'a>);

/// `Formatter::write_str` hands text to the sink, which takes it or fails.
pub assume_specification<'a>[ core::fmt::Formatter::<'a>::write_str ](
    f: &mut core::fmt::Formatter<'a>,
    data: &str,
) -> Result<(), core::fmt::Error>
;

/// `Arguments::as_str` gives the format string where there is nothing to
/// format at run time.
pub assume_specification<'a>[ core::fmt::Arguments::<'a>::as_str ](
    args: &core::fmt::Arguments<'a>,
) -> Option<&'static str>
;

/// Makes the one value of `core::fmt::Error`.
#[verifier::external_body]
pub(crate) fn fmt_error() -> core::fmt::Error {
    core::fmt::Error
}

/// Calls `format!` with a `usize` and nothing else: the number comes out in
/// decimal, without sign, padding or leading zeros.
#[verifier::external_body]
pub(crate) fn decimal_string(n: usize) -> (r: String)
    ensures
        r@ == decimal(n as nat),
{
    format!("{}", n)
}

} // verus!
