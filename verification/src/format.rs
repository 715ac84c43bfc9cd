//! The formatter traits: printing a string, and writing into one with
//! `write!`.
//!
//! What is printed is what [`MicroStr::to_string`] and
//! [`MicroStr::debug_string`] return; their contracts say what that is. A
//! string that is not well formed has no text to print, and printing it
//! fails.

use vstd::prelude::*;
use vstd::string::*;
use vstd::utf8::*;
use crate::buffer::MicroStr;
use crate::core_specs::fmt_error;
use crate::utf8::copyable_chars;

verus! {

impl<const CAP: usize> MicroStr<CAP> {
    /// What writing makes of `before`, whatever was written and however it
    /// ended: the old content still leads the new, which is within the
    /// capacity and has a 0 behind it where there is room, and text stays
    /// text.
    pub open spec fn is_written_from(&self, before: Self) -> bool {
        &&& before.spec_bytes_len() <= self.spec_bytes_len() <= CAP
        &&& self.spec_bytes().subrange(0, before.spec_bytes_len() as int) == before.spec_bytes()
        &&& self.is_terminated()
        &&& before.wf() ==> self.wf()
    }

    /// Appends the format string `literal` as [`MicroStr::push_str`] does,
    /// and fails where not all of it fits. Where there is none, because
    /// there were arguments to format, nothing is appended and the call
    /// fails.
    pub fn write_literal(&mut self, literal: Option<&str>) -> (r: Result<(), core::fmt::Error>)
        ensures
            literal is None ==> r is Err && *final(self) == *old(self),
            literal is Some ==> final(self).is_appended_from(
                *old(self),
                literal->Some_0@.take(
                    copyable_chars(literal->Some_0@, CAP - old(self).spec_bytes_len()) as int,
                ),
            ),
            r is Ok <==> literal is Some && literal->Some_0.spec_bytes().len() <= CAP - old(
                self,
            ).spec_bytes_len(),
            final(self).is_written_from(*old(self)),
    {
        match literal {
            Some(s) => {
                let pushed = self.push_str(s);
                proof {
                    old(self).lemma_storage_len();
                    let appended = encode_utf8(
                        s@.take(copyable_chars(s@, CAP - old(self).spec_bytes_len()) as int),
                    );
                    assert((old(self).spec_bytes() + appended).subrange(
                        0,
                        old(self).spec_bytes_len() as int,
                    ) =~= old(self).spec_bytes());
                }
                match pushed {
                    Ok(()) => Ok(()),
                    Err(_) => Err(fmt_error()),
                }
            },
            None => {
                let kept: usize = self.bytes_len();
                proof {
                    assert(self.spec_bytes().subrange(0, kept as int) =~= self.spec_bytes());
                }
                Err(fmt_error())
            },
        }
    }
}

impl<const CAP: usize> core::fmt::Display for MicroStr<CAP> {
    /// Writes the content.
    fn fmt(&self, f: &mut core::fmt::Formatter<'_>) -> (r: Result<(), core::fmt::Error>)
        ensures
            !self.wf() ==> r is Err,
    {
        if !self.is_text() {
            return Err(fmt_error());
        }
        f.write_str(self.as_str())
    }
}

impl<const CAP: usize> core::fmt::Debug for MicroStr<CAP> {
    /// Writes the debug form: see [`MicroStr::debug_string`].
    fn fmt(&self, f: &mut core::fmt::Formatter<'_>) -> (r: Result<(), core::fmt::Error>)
        ensures
            !self.wf() ==> r is Err,
    {
        if !self.is_text() {
            return Err(fmt_error());
        }
        let text = self.debug_string();
        f.write_str(text.as_str())
    }
}

impl<const CAP: usize> core::fmt::Write for MicroStr<CAP> {
    /// Appends `c`, or fails and appends nothing where it does not fit.
    fn write_char(&mut self, c: char) -> (r: Result<(), core::fmt::Error>)
        ensures
            r is Ok <==> old(self).spec_bytes_len() + encode_scalar(c as u32).len() <= CAP,
            r is Ok ==> final(self).is_appended_from(*old(self), seq![c]),
            r is Err ==> *final(self) == *old(self),
            final(self).is_terminated(),
    {
        match self.push(c) {
            Ok(()) => Ok(()),
            Err(()) => Err(fmt_error()),
        }
    }

    /// Appends a format string that has nothing to format: see
    /// [`MicroStr::write_literal`]. Arguments that would have to be
    /// formatted are refused.
    fn write_fmt(&mut self, args: core::fmt::Arguments<'_>) -> (r: Result<(), core::fmt::Error>)
        ensures
            final(self).is_written_from(*old(self)),
    {
        self.write_literal(args.as_str())
    }

    /// Appends as much of `s` as fits, as [`MicroStr::push_str`] does, and
    /// fails where that is not all of it.
    fn write_str(&mut self, s: &str) -> (r: Result<(), core::fmt::Error>)
        ensures
            final(self).is_appended_from(
                *old(self),
                s@.take(copyable_chars(s@, CAP - old(self).spec_bytes_len()) as int),
            ),
            r is Ok <==> s.spec_bytes().len() <= CAP - old(self).spec_bytes_len(),
            final(self).is_terminated(),
    {
        self.write_literal(Some(s))
    }
}

} // verus!
