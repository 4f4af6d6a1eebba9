//! Turning raw arguments into tokens.
//!
//! Each raw argument yields zero or more tokens: `--name` a long flag,
//! `--name=value` a long flag followed by its value word, `-abc` one short
//! flag per character, `-a=value` a short flag followed by its value word,
//! and anything else a free-standing word. A bare `--` emits nothing and
//! forces every later argument to be a word.

use vstd::prelude::*;
use crate::arg::{Arg, ArgM, mk_short};
use crate::word::{Word, WordM};

verus! {

/// The position of the first `=` in `s`, or `s.len()` when there is none.
pub open spec fn find_eq(s: Seq<char>) -> int
    decreases s.len(),
{
    if s.len() == 0 {
        0
    } else if s[0] == '=' {
        0
    } else {
        1 + find_eq(s.skip(1))
    }
}

pub proof fn lemma_find_eq(s: Seq<char>)
    ensures
        0 <= find_eq(s) <= s.len(),
        find_eq(s) < s.len() ==> s[find_eq(s)] == '=',
        forall|j: int| 0 <= j < find_eq(s) ==> s[j] != '=',
    decreases s.len(),
{
    if s.len() != 0 && s[0] != '=' {
        lemma_find_eq(s.skip(1));
        assert forall|j: int| 0 <= j < find_eq(s) implies s[j] != '=' by {
            if j > 0 {
                assert(s.skip(1)[j - 1] == s[j]);
            }
        }
        if find_eq(s) < s.len() {
            assert(s.skip(1)[find_eq(s) - 1] == s[find_eq(s)]);
        }
    }
}

/// The text is exactly `--`, the positional-only marker.
pub open spec fn is_ddash(s: Seq<char>) -> bool {
    s.len() == 2 && s[0] == '-' && s[1] == '-'
}

/// The text begins with `--`.
pub open spec fn starts_ddash(s: Seq<char>) -> bool {
    s.len() >= 2 && s[0] == '-' && s[1] == '-'
}

/// The text begins with `-`.
pub open spec fn starts_dash(s: Seq<char>) -> bool {
    s.len() >= 1 && s[0] == '-'
}

/// Tokens of a long flag's body (the text after `--`): split at the first
/// `=` into the flag name and a value word, or the whole body as the name.
pub open spec fn long_tokens(body: Seq<char>) -> Seq<ArgM> {
    let k = find_eq(body);
    if k < body.len() {
        seq![ArgM::Long(body.take(k)), ArgM::Word(WordM::of_text(body.skip(k + 1)))]
    } else {
        seq![ArgM::Long(body)]
    }
}

/// Tokens of a short flag's body (the text after `-`): with `=` present the
/// single key character and a value word, otherwise one short flag per
/// character.
pub open spec fn short_tokens(body: Seq<char>) -> Seq<ArgM> {
    let k = find_eq(body);
    if k < body.len() {
        seq![ArgM::Short(body[0]), ArgM::Word(WordM::of_text(body.skip(k + 1)))]
    } else {
        Seq::new(body.len(), |i: int| mk_short(body[i]))
    }
}

/// The tokens one raw argument contributes, given the positional-only state.
pub open spec fn push_tokens(w: WordM, pos_only: bool) -> Seq<ArgM> {
    match w.utf8 {
        None => seq![ArgM::Word(w)],
        Some(s) => if pos_only {
            seq![ArgM::Word(w)]
        } else if is_ddash(s) {
            Seq::empty()
        } else if starts_ddash(s) {
            long_tokens(s.skip(2))
        } else if starts_dash(s) {
            short_tokens(s.skip(1))
        } else {
            seq![ArgM::Word(w)]
        },
    }
}

/// The positional-only state after one raw argument: set once `--` is seen.
pub open spec fn next_pos_only(w: WordM, pos_only: bool) -> bool {
    pos_only || (w.utf8 matches Some(s) && !pos_only && is_ddash(s))
}

/// A short flag with `=` must have a one-character key: `-ab=c` is malformed
/// input on which tokenization refuses to proceed.
pub open spec fn push_ok(w: WordM, pos_only: bool) -> bool {
    match w.utf8 {
        None => true,
        Some(s) => {
            let body = s.skip(1);
            pos_only || !(starts_dash(s) && !starts_ddash(s) && find_eq(body) < body.len()
                && find_eq(body) != 1)
        },
    }
}

/// The tokens of a whole raw argument sequence, threading the
/// positional-only state from `pos_only`.
pub open spec fn tokenize_from(ws: Seq<WordM>, pos_only: bool) -> Seq<ArgM>
    decreases ws.len(),
{
    if ws.len() == 0 {
        Seq::empty()
    } else {
        push_tokens(ws[0], pos_only) + tokenize_from(ws.skip(1), next_pos_only(ws[0], pos_only))
    }
}

/// The tokens of a whole raw argument sequence.
pub open spec fn tokenize(ws: Seq<WordM>) -> Seq<ArgM> {
    tokenize_from(ws, false)
}

/// Every raw argument is well formed for tokenization (see [`push_ok`]).
pub open spec fn tokenize_ok_from(ws: Seq<WordM>, pos_only: bool) -> bool
    decreases ws.len(),
{
    ws.len() == 0 || (push_ok(ws[0], pos_only) && tokenize_ok_from(
        ws.skip(1),
        next_pos_only(ws[0], pos_only),
    ))
}

/// Every raw argument is well formed for tokenization.
pub open spec fn tokenize_ok(ws: Seq<WordM>) -> bool {
    tokenize_ok_from(ws, false)
}

/// The position of the first `=` in `s`, executably.
pub fn find_eq_exec(s: &str) -> (k: usize)
    ensures
        k == find_eq(s@),
{
    let n = s.unicode_len();
    let mut i: usize = 0;
    while i < n
        invariant
            0 <= i <= n,
            n == s@.len(),
            forall|j: int| 0 <= j < i ==> s@[j] != '=',
        decreases n - i,
    {
        if s.get_char(i) == '=' {
            proof {
                lemma_find_eq(s@);
            }
            return i;
        }
        i += 1;
    }
    proof {
        lemma_find_eq(s@);
    }
    n
}

/// Appends the tokens of one raw argument to `vec` and updates the
/// positional-only state, exactly as [`push_tokens`] and [`next_pos_only`]
/// describe.
pub fn push_vec(vec: &mut Vec<Arg>, w: Word, pos_only: &mut bool)
    requires
        w@.wf(),
        push_ok(w@, *old(pos_only)),
    ensures
        final(vec).deep_view() == old(vec).deep_view() + push_tokens(w@, *old(pos_only)),
        *final(pos_only) == next_pos_only(w@, *old(pos_only)),
{
    let ghost w0 = w@;
    let ghost v0 = vec.deep_view();
    if *pos_only {
        vec.push(Arg::Word(w));
        proof {
            assert(vec.deep_view() =~= v0 + push_tokens(w0, true));
        }
        return;
    }
    if w.utf8.is_none() {
        vec.push(Arg::Word(w));
        proof {
            assert(vec.deep_view() =~= v0 + push_tokens(w0, false));
        }
        return;
    }
    let s: &String = w.utf8.as_ref().unwrap();
    let st: &str = s.as_str();
    let n = st.unicode_len();
    if n >= 1 && st.get_char(0) == '-' {
        if n == 2 && st.get_char(1) == '-' {
            *pos_only = true;
            proof {
                assert(vec.deep_view() =~= v0 + push_tokens(w0, false));
            }
            return;
        }
        if n >= 2 && st.get_char(1) == '-' {
            let body: &str = st.substring_char(2, n);
            let m = n - 2;
            let k = find_eq_exec(body);
            proof {
                lemma_find_eq(body@);
            }
            if k < m {
                let key = body.substring_char(0, k).to_owned();
                let val = body.substring_char(k + 1, m);
                let vw = Word::from_text(val);
                vec.push(Arg::Long(key));
                vec.push(Arg::Word(vw));
                proof {
                    assert(vec.deep_view() =~= v0 + push_tokens(w0, false));
                }
            } else {
                vec.push(Arg::Long(body.to_owned()));
                proof {
                    assert(vec.deep_view() =~= v0 + push_tokens(w0, false));
                }
            }
            return;
        }
        let body: &str = st.substring_char(1, n);
        let m = n - 1;
        let k = find_eq_exec(body);
        proof {
            lemma_find_eq(body@);
        }
        if k < m {
            let key = body.get_char(0);
            let val = body.substring_char(2, m);
            let vw = Word::from_text(val);
            vec.push(Arg::Short(key));
            vec.push(Arg::Word(vw));
            proof {
                assert(vec.deep_view() =~= v0 + push_tokens(w0, false));
            }
        } else {
            let mut i: usize = 0;
            let ghost bodyv = body@;
            while i < m
                invariant
                    0 <= i <= m,
                    m == body@.len(),
                    body@ == w0.utf8->Some_0.skip(1),
                    bodyv == body@,
                    vec.deep_view().len() == v0.len() + i,
                    forall|j: int| 0 <= j < v0.len() ==> vec.deep_view()[j] == v0[j],
                    forall|j: int| 0 <= j < i ==> vec.deep_view()[v0.len() + j] == mk_short(
                        bodyv[j],
                    ),
                decreases m - i,
            {
                vec.push(Arg::Short(body.get_char(i)));
                i += 1;
            }
            proof {
                assert(vec.deep_view() =~= v0 + Seq::new(m as nat, |j: int| mk_short(bodyv[j])));
                assert(vec.deep_view() =~= v0 + push_tokens(w0, false));
            }
        }
        return;
    }
    vec.push(Arg::Word(w));
    proof {
        assert(vec.deep_view() =~= v0 + push_tokens(w0, false));
    }
}

} // verus!
