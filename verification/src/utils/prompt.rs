//! A sink that collects what is written to it as text.

use crate::utils::text::{chars_of, lemma_split_on, split_chars, split_on};
use vstd::prelude::*;
use vstd::string::StringSliceAdditionalSpecFns;
use vstd::utf8::{decode_utf8, encode_utf8_decode_utf8, valid_utf8};

verus! {

/// `std::str::from_utf8` hands out the bytes as text if they are UTF-8, and
/// nothing otherwise. The text is made of exactly these bytes.
#[verifier::external_body]
fn text_of_bytes(data: &[u8]) -> (r: Option<&str>)
    ensures
        r is Some <==> valid_utf8(data@),
        r matches Some(s) ==> s.spec_bytes() == data@,
{
    std::str::from_utf8(data).ok()
}

/// The error of bytes that are no text.
#[derive(Debug, Clone, Copy, PartialEq, Eq, Structural)]
pub enum WriteError {
    /// The bytes are not UTF-8.
    NotUtf8,
}

/// Collects text.
pub struct StringWriter {
    pub string: String,
}

impl View for StringWriter {
    type V = Seq<char>;

    open spec fn view(&self) -> Seq<char> {
        self.string@
    }
}

impl StringWriter {
    pub fn new() -> (r: StringWriter)
        ensures
            r@ == Seq::<char>::empty(),
    {
        StringWriter { string: String::new() }
    }

    /// All that was written.
    pub fn as_string(&self) -> (r: &str)
        ensures
            r@ == self@,
    {
        self.string.as_str()
    }

    /// What was written, line by line: the parts between the line breaks.
    pub fn as_vec(&self) -> (r: Vec<String>)
        ensures
            r.deep_view() == split_on(self@, '\n'),
    {
        let chars = chars_of(self.as_string());
        split_chars(&chars, '\n')
    }

    /// The lines of a table that was written: all lines but what follows the
    /// last line break.
    pub fn printed_lines(&self) -> (r: Vec<String>)
        ensures
            r.deep_view() == split_on(self@, '\n').drop_last(),
    {
        let mut lines = self.as_vec();
        let ghost all = lines.deep_view();
        if lines.len() > 0 {
            let _ = lines.pop();
        }
        proof {
            lemma_split_on(self@, '\n');
            assert(lines.deep_view() =~= all.drop_last());
        }
        lines
    }

    /// Appends the text that `data` encodes and hands out the number of
    /// bytes taken, which is all of them. Bytes that are not UTF-8 are the
    /// error, and nothing is appended.
    pub fn write(&mut self, data: &[u8]) -> (r: Result<usize, WriteError>)
        ensures
            valid_utf8(data@)
                ==> r == Ok::<usize, WriteError>(data@.len() as usize) && final(self)@
                == old(self)@ + decode_utf8(data@),
            !valid_utf8(data@)
                ==> r == Err::<usize, WriteError>(WriteError::NotUtf8) && final(self)@
                == old(self)@,
    {
        match text_of_bytes(data) {
            Some(s) => {
                proof {
                    encode_utf8_decode_utf8(s@);
                }
                self.string.append(s);
                Ok(data.len())
            },
            None => Err(WriteError::NotUtf8),
        }
    }

    /// Nothing is held back, so there is nothing to do.
    pub fn flush(&mut self)
        ensures
            final(self)@ == old(self)@,
    {
    }
}

} // verus!
