//! A preprocessed command-line token.

use vstd::prelude::*;
use crate::word::{Word, WordM};

verus! {

/// The mathematical value of an [`Arg`].
#[verifier::ext_equal]
pub enum ArgM {
    Short(char),
    Long(Seq<char>),
    Word(WordM),
}

/// One preprocessed command-line token.
#[derive(Debug)]
pub enum Arg {
    /// one character of a short flag cluster, `-v`
    Short(char),
    /// a long flag name without the leading dashes, `--verbose`
    Long(String),
    /// a free-standing word: a positional, a command, or an option's value
    Word(Word),
}

impl View for Arg {
    type V = ArgM;

    open spec fn view(&self) -> ArgM {
        match self {
            Arg::Short(c) => ArgM::Short(*c),
            Arg::Long(l) => ArgM::Long(l@),
            Arg::Word(w) => ArgM::Word(w@),
        }
    }
}

impl DeepView for Arg {
    type V = ArgM;

    open spec fn deep_view(&self) -> ArgM {
        self.view()
    }
}

/// The model of a short flag token.
pub open spec fn mk_short(c: char) -> ArgM {
    ArgM::Short(c)
}

/// How a token prints in diagnostics: `-c` for a short flag, `--name` for a
/// long flag, and the decoded text for a word (absent when the word's bytes
/// did not decode).
pub open spec fn spec_render(a: ArgM) -> Option<Seq<char>> {
    match a {
        ArgM::Short(c) => Some(seq!['-', c]),
        ArgM::Long(l) => Some(seq!['-', '-'] + l),
        ArgM::Word(w) => w.utf8,
    }
}

/// The diagnostic form of a flag token: `-c` for a short flag, `--name` for
/// a long flag. Meaningful only for `Short` and `Long`.
pub open spec fn named_render(a: ArgM) -> Seq<char> {
    match a {
        ArgM::Short(c) => seq!['-', c],
        ArgM::Long(l) => seq!['-', '-'] + l,
        ArgM::Word(w) => w.utf8->Some_0,
    }
}

/// Relies on `String::push`: appends exactly the given character.
#[verifier::external_body]
pub(crate) fn push_char(s: &mut String, c: char)
    ensures
        final(s)@ == old(s)@.push(c),
{
    s.push(c);
}

impl Arg {
    /// Whether this token is the short flag `short`.
    pub fn is_short(&self, short: char) -> (r: bool)
        ensures
            r == (self@ matches ArgM::Short(c) && c == short),
    {
        match self {
            Arg::Short(c) => *c == short,
            Arg::Long(_) => false,
            Arg::Word(..) => false,
        }
    }

    /// Whether this token is the long flag `long`.
    pub fn is_long(&self, long: &str) -> (r: bool)
        ensures
            r == (self@ matches ArgM::Long(l) && l == long@),
    {
        match self {
            Arg::Long(l) => {
                let owned = long.to_owned();
                *l == owned
            },
            Arg::Short(_) => false,
            Arg::Word(..) => false,
        }
    }

    /// The diagnostic form of a flag token, per [`named_render`].
    pub fn render_named(&self) -> (r: String)
        requires
            !(self matches Arg::Word(_)),
        ensures
            r@ == named_render(self@),
    {
        match self {
            Arg::Short(c) => {
                let mut s = String::new();
                push_char(&mut s, '-');
                push_char(&mut s, *c);
                proof {
                    assert(s@ =~= seq!['-', *c]);
                }
                s
            },
            Arg::Long(l) => {
                let mut s = String::new();
                push_char(&mut s, '-');
                push_char(&mut s, '-');
                s.append(l.as_str());
                proof {
                    assert(s@ =~= seq!['-', '-'] + l@);
                }
                s
            },
            Arg::Word(_) => {
                String::new()
            },
        }
    }

    /// The token's diagnostic form, per [`spec_render`]. `None` exactly for a
    /// word whose bytes did not decode.
    pub fn render(&self) -> (r: Option<String>)
        ensures
            match r {
                Some(s) => spec_render(self@) == Some(s@),
                None => spec_render(self@) is None,
            },
    {
        match self {
            Arg::Short(c) => {
                let mut s = String::new();
                push_char(&mut s, '-');
                push_char(&mut s, *c);
                proof {
                    assert(s@ =~= seq!['-', *c]);
                }
                Some(s)
            },
            Arg::Long(l) => {
                let mut s = String::new();
                push_char(&mut s, '-');
                push_char(&mut s, '-');
                s.append(l.as_str());
                proof {
                    assert(s@ =~= seq!['-', '-'] + l@);
                }
                Some(s)
            },
            Arg::Word(w) => {
                match &w.utf8 {
                    Some(s) => Some(s.clone()),
                    None => None,
                }
            },
        }
    }
}

} // verus!
