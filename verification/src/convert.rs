//! Conversions between [`MicroStr`] and heap-allocated strings, and the
//! printed forms of a string.

use vstd::prelude::*;
use vstd::string::*;
use vstd::utf8::*;
use crate::buffer::MicroStr;
use crate::core_specs::decimal_string;
use crate::utf8::copyable_chars;

verus! {

/// Why text was refused: its encoding is longer than the capacity.
#[derive(Debug, Clone, Copy, PartialEq, Eq, Structural)]
pub struct CapacityError {
    /// The length of the text in bytes.
    pub needed: usize,
    /// The capacity that it was meant for.
    pub capacity: usize,
}

/// The character of a decimal digit.
pub open spec fn digit_char(d: nat) -> char
    recommends
        d < 10,
{
    (48 + d) as char
}

/// A number in decimal, without sign or leading zeros.
pub open spec fn decimal(n: nat) -> Seq<char>
    decreases n,
{
    if n < 10 {
        seq![digit_char(n)]
    } else {
        decimal(n / 10).push(digit_char(n % 10))
    }
}

/// The debug form of a string of capacity `cap` that holds `content`: the
/// type's name, the capacity in angle brackets, and the content in quotes
/// and braces, with nothing escaped.
pub open spec fn debug_text(cap: nat, content: Seq<char>) -> Seq<char> {
    "MicroStr<"@ + decimal(cap) + ">{\""@ + content + "\"}"@
}

impl<const CAP: usize> MicroStr<CAP> {
    /// The debug form: see [`debug_text`].
    pub fn debug_string(&self) -> (r: String)
        requires
            self.wf(),
        ensures
            r@ == debug_text(CAP as nat, self@),
    {
        let number = decimal_string(CAP);
        String::from_str("MicroStr<").concat(number.as_str()).concat(">{\"").concat(
            self.as_str(),
        ).concat("\"}")
    }

    /// Creates a string from all of `s`, or none of it: text that does not
    /// fit is refused, not cut. This is for text that comes from outside, as
    /// when decoding, whose sender never agreed to a truncation.
    pub fn try_from_str(s: &str) -> (res: Result<Self, CapacityError>)
        ensures
            res is Ok <==> s.spec_bytes().len() <= CAP,
            res is Ok ==> res->Ok_0.is_filled_with(s@) && res->Ok_0.is_terminated(),
            res is Err ==> res->Err_0.needed == s.spec_bytes().len() && res->Err_0.capacity == CAP,
    {
        let needed: usize = s.as_bytes().len();
        if needed > CAP {
            return Err(CapacityError { needed, capacity: CAP });
        }
        Ok(Self::from_const(s))
    }

    /// The string that holds the leading characters of `chars`, as many as
    /// fit, over zeros.
    pub open spec fn spec_from(chars: Seq<char>) -> Self {
        choose|text: Self| #[trigger]
            text.is_filled_with(chars.take(copyable_chars(chars, CAP as int) as int))
    }
}

impl<const CAP: usize> From<String> for MicroStr<CAP> {
    /// Creates a string from as much of `value` as fits, as
    /// [`MicroStr::from_str`] does.
    fn from(value: String) -> (r: Self)
        ensures
            r.is_filled_with(value@.take(copyable_chars(value@, CAP as int) as int)),
            encode_utf8(value@).len() <= CAP ==> r.is_filled_with(value@),
            r.is_terminated(),
    {
        let r = match Self::from_str(value.as_str()) {
            Ok(s) => s,
            Err((s, _)) => s,
        };
        proof {
            Self::lemma_ext_equal(r, Self::spec_from(value@));
        }
        r
    }
}

impl<const CAP: usize> vstd::std_specs::convert::FromSpecImpl<String> for MicroStr<CAP> {
    open spec fn obeys_from_spec() -> bool {
        true
    }

    open spec fn from_spec(value: String) -> Self {
        Self::spec_from(value@)
    }
}

impl<const CAP: usize> From<MicroStr<CAP>> for String {
    /// The text of `value` on the heap. A string that is not well formed has
    /// no text, and gives the empty one.
    fn from(value: MicroStr<CAP>) -> (r: String)
        ensures
            value.wf() ==> r@ == value@,
            !value.wf() ==> r@ == Seq::<char>::empty(),
    {
        let text: &str = &value;
        String::from_str(text)
    }
}

impl<const CAP: usize> vstd::std_specs::convert::FromSpecImpl<MicroStr<CAP>> for String {
    /// A heap string is more than its text, so that no one value can be
    /// named as the result: the contract of `from` says what text it has.
    open spec fn obeys_from_spec() -> bool {
        false
    }

    open spec fn from_spec(value: MicroStr<CAP>) -> String {
        arbitrary()
    }
}

} // verus!
