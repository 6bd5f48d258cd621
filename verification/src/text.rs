//! Reading a text character by character.
//!
//! A `str` is stored encoded, so that finding its n-th character takes a
//! walk from the start. Where the text is plain ASCII, every character is
//! one byte and can be read in place. `Text` remembers which of the two
//! holds, and the length.

use vstd::prelude::*;
use vstd::string::StrSliceExecFns;
use vstd::utf8::is_ascii_chars;

verus! {

/// A borrowed text with its length in characters.
pub struct Text<'a> {
    chars: &'a str,
    ascii: bool,
    len: usize,
}

impl<'a> Text<'a> {
    /// The length is that of the text, and `ascii` is set only for a text
    /// of ASCII characters.
    pub closed spec fn wf(&self) -> bool {
        &&& self.len == self.chars@.len()
        &&& self.ascii ==> is_ascii_chars(self.chars@)
    }

    /// The characters of the text.
    pub closed spec fn view(&self) -> Seq<char> {
        self.chars@
    }

    /// Takes the measure of a text.
    pub fn new(chars: &'a str) -> (text: Self)
        ensures
            text.wf(),
            text@ == chars@,
    {
        Text { chars, ascii: chars.is_ascii(), len: chars.unicode_len() }
    }

    /// The number of characters.
    pub fn len(&self) -> (len: usize)
        requires
            self.wf(),
        ensures
            len == self@.len(),
    {
        self.len
    }

    /// The character at position `at`.
    pub fn char_at(&self, at: usize) -> (c: char)
        requires
            self.wf(),
            at < self@.len(),
        ensures
            c == self@[at as int],
    {
        if self.ascii {
            let byte: u8 = self.chars.get_ascii(at);
            byte as char
        } else {
            self.chars.get_char(at)
        }
    }

    /// The part of the text from position `from` up to, not including, `to`.
    pub fn slice(&self, from: usize, to: usize) -> (part: &'a str)
        requires
            self.wf(),
            from <= to <= self@.len(),
        ensures
            part@ == self@.subrange(from as int, to as int),
    {
        if self.ascii {
            self.chars.substring_ascii(from, to)
        } else {
            self.chars.substring_char(from, to)
        }
    }
}

} // verus!
