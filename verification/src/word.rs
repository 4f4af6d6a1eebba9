//! A raw command-line argument: platform bytes plus their decoded text.

use vstd::prelude::*;
use vstd::utf8::{encode_utf8, valid_utf8};

verus! {

/// The mathematical value of a [`Word`]: the decoded text when decoding
/// succeeded, and the raw platform bytes.
#[verifier::ext_equal]
pub struct WordM {
    pub utf8: Option<Seq<char>>,
    pub os: Seq<u8>,
}

/// One raw argument. `os` holds the platform-native bytes; `utf8` holds their
/// decoded form when, and only when, the bytes are valid UTF-8.
#[derive(Debug)]
pub struct Word {
    pub utf8: Option<String>,
    pub os: Vec<u8>,
}

impl View for Word {
    type V = WordM;

    open spec fn view(&self) -> WordM {
        WordM { utf8: self.utf8.deep_view(), os: self.os@ }
    }
}

impl DeepView for Word {
    type V = WordM;

    open spec fn deep_view(&self) -> WordM {
        self.view()
    }
}

impl WordM {
    /// The decoded text matches the bytes: present exactly when the bytes are
    /// valid UTF-8, and equal to their decoding (stated via the encoding).
    pub open spec fn wf(self) -> bool {
        match self.utf8 {
            Some(s) => self.os == encode_utf8(s),
            None => !valid_utf8(self.os),
        }
    }

    /// The model of a word built from decoded text alone.
    pub open spec fn of_text(s: Seq<char>) -> WordM {
        WordM { utf8: Some(s), os: encode_utf8(s) }
    }
}

impl Word {
    /// Builds a word from decoded text.
    pub fn from_text(s: &str) -> (w: Word)
        ensures
            w@ == WordM::of_text(s@),
            w@.wf(),
    {
        Word { utf8: Some(s.to_owned()), os: s.as_bytes_vec() }
    }

    /// Copies a word; the copy has the same model value.
    pub fn duplicate(&self) -> (w: Word)
        ensures
            w@ == self@,
    {
        let utf8 = match &self.utf8 {
            Some(s) => Some(s.clone()),
            None => None,
        };
        let os = vstd::slice::slice_to_vec(self.os.as_slice());
        let w = Word { utf8, os };
        proof {
            assert(w@.utf8 == self@.utf8);
            assert(w@ == self@);
        }
        w
    }
}

} // verus!
