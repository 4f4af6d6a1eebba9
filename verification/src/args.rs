//! The argument buffer: all currently present command-line tokens.
//!
//! The token sequence is shared between buffer copies through a reference
//! count; only the removal bitmap and a few scalars are duplicated, so
//! speculative parsing can copy a buffer cheaply. Consuming a token marks it
//! removed; the leftmost index ever removed is tracked as the tie-break
//! between alternative parsers.

use std::rc::Rc;
use vstd::prelude::*;
use crate::arg::{Arg, named_render};
use crate::error::Error;
use crate::tokenize::{push_vec, tokenize, tokenize_from, tokenize_ok, tokenize_ok_from};
use crate::word::{Word, WordM};

verus! {

/// The number of `false` entries of a bitmap: how many tokens are present.
pub open spec fn count_false(s: Seq<bool>) -> nat
    decreases s.len(),
{
    if s.len() == 0 {
        0
    } else {
        (if s[0] {
            0nat
        } else {
            1nat
        }) + count_false(s.skip(1))
    }
}

pub proof fn lemma_count_false_all(s: Seq<bool>)
    ensures
        count_false(s) <= s.len(),
        (count_false(s) == s.len()) <==> (forall|i: int| 0 <= i < s.len() ==> !s[i]),
        (count_false(s) == 0) <==> (forall|i: int| 0 <= i < s.len() ==> s[i]),
    decreases s.len(),
{
    if s.len() != 0 {
        lemma_count_false_all(s.skip(1));
        assert(forall|i: int| 0 < i < s.len() ==> s[i] == s.skip(1)[i - 1]);
    }
}

pub proof fn lemma_count_false_update(s: Seq<bool>, i: int)
    requires
        0 <= i < s.len(),
    ensures
        count_false(s.update(i, true)) == if s[i] {
            count_false(s)
        } else {
            (count_false(s) - 1) as nat
        },
    decreases s.len(),
{
    if s[i] {
        assert(s.update(i, true) =~= s);
    } else if i == 0 {
        assert(s.update(0, true).skip(1) =~= s.skip(1));
    } else {
        lemma_count_false_update(s.skip(1), i - 1);
        lemma_count_false_all(s.skip(1));
        assert(!s.skip(1)[i - 1]);
        assert(count_false(s.skip(1)) >= 1);
        assert(s.update(i, true).skip(1) =~= s.skip(1).update(i - 1, true));
        assert(s.update(i, true)[0] == s[0]);
        assert(s.skip(1)[i - 1] == s[i]);
        assert(count_false(s.update(i, true)) == (if s[0] {
            0nat
        } else {
            1nat
        }) + count_false(s.update(i, true).skip(1)));
        assert(count_false(s) == (if s[0] {
            0nat
        } else {
            1nat
        }) + count_false(s.skip(1)));
    }
}

/// The mathematical value of an [`Args`] buffer.
#[verifier::ext_equal]
pub struct ArgsM {
    /// the shared token sequence
    pub toks: Seq<Arg>,
    /// the removal bitmap: `true` marks a consumed token
    pub removed: Seq<bool>,
    /// the most recently consumed value word, for error messages
    pub current: Option<WordM>,
    /// the smallest index ever removed, `usize::MAX` before any removal
    pub head: nat,
}

impl ArgsM {
    /// Token `i` exists and has not been consumed.
    pub open spec fn live(self, i: int) -> bool {
        0 <= i < self.removed.len() && !self.removed[i]
    }

    /// The buffer after consuming the live token `i`.
    pub open spec fn consume(self, i: int) -> ArgsM {
        ArgsM {
            removed: self.removed.update(i, true),
            head: if 0 <= i < self.head {
                i as nat
            } else {
                self.head
            },
            ..self
        }
    }

    /// The buffer after recording `w` as the most recently consumed word.
    pub open spec fn with_current(self, w: WordM) -> ArgsM {
        ArgsM { current: Some(w), ..self }
    }

    /// How many tokens are present.
    pub open spec fn len_m(self) -> nat {
        count_false(self.removed)
    }

    /// `head` is the smallest removed index, or `usize::MAX` when nothing
    /// was ever removed.
    pub open spec fn head_ok(self) -> bool {
        if self.head == usize::MAX as nat {
            forall|i: int| 0 <= i < self.removed.len() ==> !self.removed[i]
        } else {
            &&& self.head < self.removed.len()
            &&& self.removed[self.head as int]
            &&& forall|i: int| 0 <= i < self.head ==> !self.removed[i]
        }
    }

    /// Nothing before `i` is live: `i` is the first remaining token if live.
    pub open spec fn first_live_at(self, i: int) -> bool {
        &&& self.live(i)
        &&& forall|j: int| 0 <= j < i ==> !(#[trigger] self.live(j))
    }

    /// `j` is the first live index after `i`.
    pub open spec fn next_live_at(self, i: int, j: int) -> bool {
        &&& self.live(j)
        &&& i < j
        &&& forall|k: int| i < k < j ==> !(#[trigger] self.live(k))
    }

    /// No live index after `i`.
    pub open spec fn no_live_after(self, i: int) -> bool {
        forall|k: int| k > i ==> !(#[trigger] self.live(k))
    }
}

/// The predicate may return `true` on this token.
pub open spec fn arg_matches<P: Fn(&Arg) -> bool>(p: P, a: Arg) -> bool {
    call_ensures(p, (&a,), true)
}

/// The predicate may return `false` on this token.
pub open spec fn arg_rejects<P: Fn(&Arg) -> bool>(p: P, a: Arg) -> bool {
    call_ensures(p, (&a,), false)
}

/// The predicate can be called on any token.
pub open spec fn pred_callable<P: Fn(&Arg) -> bool>(p: P) -> bool {
    forall|a: &Arg| #[trigger] call_requires(p, (a,))
}

/// The token at `i` is the first live token the predicate can accept: every
/// earlier live token it can reject.
pub open spec fn first_live_match_at<P: Fn(&Arg) -> bool>(m: ArgsM, p: P, i: int) -> bool {
    &&& m.live(i)
    &&& arg_matches(p, m.toks[i])
    &&& forall|j: int| 0 <= j < i && #[trigger] m.live(j) ==> arg_rejects(p, m.toks[j])
}

/// The predicate can reject every live token.
pub open spec fn no_live_match<P: Fn(&Arg) -> bool>(m: ArgsM, p: P) -> bool {
    forall|i: int| #[trigger] m.live(i) ==> arg_rejects(p, m.toks[i])
}

/// The suffix of the diagnostic for an option whose value is missing.
pub open spec fn txt_requires_argument() -> Seq<char> {
    " requires an argument"@
}

/// The middle of the diagnostic for an option whose value is another flag.
pub open spec fn txt_got_flag() -> Seq<char> {
    " requires an argument, got flag "@
}

/// The prefix of the diagnostic for a positional blocked by a flag.
pub open spec fn txt_expected_argument() -> Seq<char> {
    "Expected an argument, got "@
}

/// All currently present command line parameters.
pub struct Args {
    /// the token sequence, shared between buffer copies
    items: Rc<Vec<Arg>>,
    /// removal bitmap: `false` - present, `true` - removed
    removed: Vec<bool>,
    /// count of `false` entries in `removed`
    remaining: usize,
    /// the most recently consumed value word, for error messages
    current: Option<Word>,
    /// the smallest index ever removed: the leftmost consumed token
    head: usize,
}

impl View for Args {
    type V = ArgsM;

    closed spec fn view(&self) -> ArgsM {
        ArgsM {
            toks: self.items@,
            removed: self.removed@,
            current: self.current.deep_view(),
            head: self.head as nat,
        }
    }
}

/// Relies on `Rc::clone`: the returned handle shares the same vector.
#[verifier::external_body]
fn rc_clone_tokens(items: &Rc<Vec<Arg>>) -> (r: Rc<Vec<Arg>>)
    ensures
        r == *items,
{
    Rc::clone(items)
}

/// Relies on `Rc`'s `Deref`: a handle reads the vector it holds.
#[verifier::external_body]
fn rc_tokens<'a>(items: &'a Rc<Vec<Arg>>) -> (r: &'a Vec<Arg>)
    ensures
        *r == **items,
{
    &**items
}

impl Args {
    /// The buffer's internal invariant: the bitmap covers the tokens, the
    /// remaining count equals the number of `false` bitmap entries, and
    /// `head` is the smallest removed index.
    pub open spec fn wf(&self) -> bool {
        &&& self@.removed.len() == self@.toks.len()
        &&& self.spec_remaining() == count_false(self@.removed)
        &&& self@.head_ok()
    }

    /// The remaining count held in the buffer.
    pub closed spec fn spec_remaining(&self) -> nat {
        self.remaining as nat
    }

    /// Builds a buffer over already-tokenized arguments: everything present,
    /// nothing consumed yet.
    pub fn from_args(items: Vec<Arg>) -> (r: Args)
        ensures
            r.wf(),
            r@.toks == items@,
            r@.removed == Seq::new(items@.len(), |i: int| false),
            r@.current is None,
            r@.head == usize::MAX as nat,
    {
        let n = items.len();
        let removed = vec![false; n];
        proof {
            assert(removed@ =~= Seq::new(items@.len(), |i: int| false));
            lemma_count_false_all(removed@);
        }
        Args {
            items: Rc::new(items),
            removed,
            remaining: n,
            current: None,
            head: usize::MAX,
        }
    }

    /// The number of tokens still present: the count of `false` entries in
    /// the removal bitmap.
    pub fn len(&self) -> (r: usize)
        requires
            self.wf(),
        ensures
            r == self@.len_m(),
    {
        self.remaining
    }

    /// Whether no token is still present.
    pub fn is_empty(&self) -> (r: bool)
        requires
            self.wf(),
        ensures
            r == (self@.len_m() == 0),
    {
        self.remaining == 0
    }

    /// Marks token `index` as consumed. Removing an already-removed index is
    /// a no-op; a fresh removal lowers `head` to `index` if smaller.
    pub fn remove(&mut self, index: usize)
        requires
            old(self).wf(),
            index < old(self)@.removed.len(),
        ensures
            final(self).wf(),
            old(self)@.live(index as int) ==> final(self)@ == old(self)@.consume(index as int),
            !old(self)@.live(index as int) ==> final(self)@ == old(self)@,
    {
        let ghost pre = self@;
        if !self.removed[index] {
            proof {
                lemma_count_false_all(pre.removed);
            }
            self.remaining = self.remaining - 1;
            if index < self.head {
                self.head = index;
            }
        }
        self.removed[index] = true;
        proof {
            lemma_count_false_update(pre.removed, index as int);
            if pre.live(index as int) {
                assert(final(self)@ =~= pre.consume(index as int));
            } else {
                assert(self.removed@ =~= pre.removed);
                assert(final(self)@ =~= pre);
            }
        }
    }

    /// The first remaining token, if any.
    pub fn peek(&self) -> (r: Option<&Arg>)
        requires
            self.wf(),
        ensures
            match r {
                Some(a) => exists|i: int|
                    #![auto]
                    self@.first_live_at(i) && *a == self@.toks[i],
                None => forall|i: int| !(#[trigger] self@.live(i)),
            },
    {
        let v = rc_tokens(&self.items);
        let n = v.len();
        let mut ix: usize = 0;
        while ix < n
            invariant
                0 <= ix <= n,
                n == self@.removed.len(),
                self.wf(),
                v@ == self@.toks,
                forall|j: int| 0 <= j < ix ==> !(#[trigger] self@.live(j)),
            decreases n - ix,
        {
            if !self.removed[ix] {
                let a = &v[ix];
                proof {
                    assert(self@.first_live_at(ix as int));
                    assert(exists|i: int| #![auto] self@.first_live_at(i) && *a == self@.toks[i]);
                }
                return Some(a);
            }
            ix += 1;
        }
        None
    }

    /// Creates an iterator over the remaining tokens.
    pub fn items_iter<'a>(&'a self) -> (it: ArgsIter<'a>)
        ensures
            it.src() == *self,
            it.pos() == 0,
    {
        ArgsIter { args: self, cur: 0 }
    }
}

impl Clone for Args {
    /// A copy with the same model value: the token sequence is shared, the
    /// bitmap and scalars are duplicated.
    fn clone(&self) -> (r: Self)
        ensures
            r@ == self@,
            self.wf() ==> r.wf(),
    {
        let current = match &self.current {
            Some(w) => Some(w.duplicate()),
            None => None,
        };
        let removed = self.removed.clone();
        proof {
            assert forall|i: int| 0 <= i < self.removed@.len() implies removed@[i]
                == self.removed@[i] by {
            }
            assert(removed@ =~= self.removed@);
        }
        let r = Args {
            items: rc_clone_tokens(&self.items),
            removed,
            remaining: self.remaining,
            current,
            head: self.head,
        };
        proof {
            assert(r@ =~= self@);
        }
        r
    }
}

impl Args {
    /// Builds a buffer by tokenizing raw argument words.
    pub fn from_words(ws: &[Word]) -> (r: Args)
        requires
            forall|i: int| 0 <= i < ws@.len() ==> (#[trigger] ws@[i]@).wf(),
            tokenize_ok(ws.deep_view()),
        ensures
            r.wf(),
            r@.toks.len() == tokenize(ws.deep_view()).len(),
            forall|i: int|
                0 <= i < r@.toks.len() ==> (#[trigger] r@.toks[i])@ == tokenize(ws.deep_view())[i],
            r@.removed == Seq::new(tokenize(ws.deep_view()).len(), |i: int| false),
            r@.current is None,
            r@.head == usize::MAX as nat,
    {
        let ghost wsv = ws.deep_view();
        let mut vec: Vec<Arg> = Vec::new();
        let mut pos_only = false;
        let n = ws.len();
        let mut i: usize = 0;
        proof {
            assert(wsv.skip(0) =~= wsv);
        }
        while i < n
            invariant
                0 <= i <= n,
                n == ws@.len(),
                wsv == ws.deep_view(),
                forall|j: int| 0 <= j < wsv.len() ==> (#[trigger] wsv[j]).wf(),
                tokenize_ok_from(wsv.skip(i as int), pos_only),
                vec.deep_view() + tokenize_from(wsv.skip(i as int), pos_only) == tokenize(wsv),
            decreases n - i,
        {
            let w = ws[i].duplicate();
            proof {
                assert(w@ == wsv[i as int]);
                assert(wsv.skip(i as int)[0] == wsv[i as int]);
                assert(wsv.skip(i as int).skip(1) =~= wsv.skip(i as int + 1));
            }
            push_vec(&mut vec, w, &mut pos_only);
            i += 1;
        }
        proof {
            assert(vec.deep_view() + tokenize_from(wsv.skip(n as int), pos_only) =~= vec
                .deep_view());
            assert(vec.deep_view() == tokenize(wsv));
        }
        Args::from_args(vec)
    }

    /// Builds a buffer by tokenizing decoded argument texts.
    pub fn from_strs(xs: &[&str]) -> (r: Args)
        requires
            tokenize_ok(texts_of(xs@)),
        ensures
            r.wf(),
            r@.toks.len() == tokenize(texts_of(xs@)).len(),
            forall|i: int|
                0 <= i < r@.toks.len() ==> (#[trigger] r@.toks[i])@ == tokenize(texts_of(xs@))[i],
            r@.removed == Seq::new(tokenize(texts_of(xs@)).len(), |i: int| false),
            r@.current is None,
            r@.head == usize::MAX as nat,
    {
        let n = xs.len();
        let mut ws: Vec<Word> = Vec::new();
        let mut i: usize = 0;
        while i < n
            invariant
                0 <= i <= n,
                n == xs@.len(),
                ws@.len() == i,
                forall|j: int| 0 <= j < i ==> (#[trigger] ws@[j])@ == WordM::of_text(xs@[j]@),
            decreases n - i,
        {
            let w = Word::from_text(xs[i]);
            ws.push(w);
            i += 1;
        }
        proof {
            assert forall|j: int| 0 <= j < n implies ws.deep_view()[j] == texts_of(xs@)[j] by {
                assert(ws.deep_view()[j] == ws@[j]@);
            }
            assert(ws.deep_view() =~= texts_of(xs@));
            assert forall|j: int| 0 <= j < ws@.len() implies (#[trigger] ws@[j]@).wf() by {
                assert(ws@[j]@ == ws.deep_view()[j]);
            }
        }
        Args::from_words(ws.as_slice())
    }

    /// Builds a buffer by tokenizing an array of decoded argument texts.
    pub fn from<const N: usize>(xs: &[&str; N]) -> (r: Args)
        requires
            tokenize_ok(texts_of(xs@)),
        ensures
            r.wf(),
            r@.toks.len() == tokenize(texts_of(xs@)).len(),
            forall|i: int|
                0 <= i < r@.toks.len() ==> (#[trigger] r@.toks[i])@ == tokenize(texts_of(xs@))[i],
            r@.removed == Seq::new(tokenize(texts_of(xs@)).len(), |i: int| false),
            r@.current is None,
            r@.head == usize::MAX as nat,
    {
        Args::from_strs(xs.as_slice())
    }

    /// The most recently consumed value word, for error messages.
    pub fn current_word(&self) -> (r: &Option<Word>)
        ensures
            r.deep_view() == self@.current,
    {
        &self.current
    }

    /// Consumes the first live token the predicate accepts: a short or long
    /// flag taken on its own. Returns `false`, leaving the buffer unchanged,
    /// when the predicate rejects every live token. Never consumes an
    /// adjacent word.
    pub fn take_flag<P: Fn(&Arg) -> bool>(&mut self, predicate: P) -> (r: bool)
        requires
            old(self).wf(),
            pred_callable(predicate),
        ensures
            final(self).wf(),
            final(self)@.toks == old(self)@.toks,
            final(self)@.current == old(self)@.current,
            !r ==> final(self)@ == old(self)@ && no_live_match(old(self)@, predicate),
            r ==> exists|i: int|
                #![auto]
                first_live_match_at(old(self)@, predicate, i) && final(self)@ == old(
                    self,
                )@.consume(i),
    {
        let ghost pre = self@;
        let toks = rc_clone_tokens(&self.items);
        let v = rc_tokens(&toks);
        let n = v.len();
        let mut ix: usize = 0;
        while ix < n
            invariant
                0 <= ix <= n,
                self == old(self),
                self.wf(),
                pre == self@,
                n == pre.removed.len(),
                v@ == pre.toks,
                pred_callable(predicate),
                forall|j: int|
                    0 <= j < ix && #[trigger] pre.live(j) ==> arg_rejects(predicate, pre.toks[j]),
            decreases n - ix,
        {
            if !self.removed[ix] {
                if predicate(&v[ix]) {
                    self.remove(ix);
                    proof {
                        assert(first_live_match_at(pre, predicate, ix as int));
                        assert(final(self)@ == pre.consume(ix as int));
                    }
                    return true;
                }
            }
            ix += 1;
        }
        false
    }

    /// Consumes the first live token the predicate accepts together with the
    /// next live token, which must be a word: a named option with its value.
    /// Returns the value word, records it as `current`, and removes both
    /// tokens. Returns `Ok(None)`, leaving the buffer unchanged, when the
    /// predicate rejects every live token; fails when the flag is present
    /// but no word follows it.
    pub fn take_arg<P: Fn(&Arg) -> bool>(&mut self, predicate: P) -> (r: Result<
        Option<Word>,
        Error,
    >)
        requires
            old(self).wf(),
            pred_callable(predicate),
            forall|a: &Arg| #[trigger] arg_matches(predicate, *a) ==> !(*a matches Arg::Word(_)),
        ensures
            final(self).wf(),
            final(self)@.toks == old(self)@.toks,
            match r {
                Ok(o) => match o {
                    None => no_live_match(old(self)@, predicate) && final(self)@ == old(self)@,
                    Some(w) => exists|i: int, j: int|
                        #![auto]
                        {
                            &&& first_live_match_at(old(self)@, predicate, i)
                            &&& old(self)@.next_live_at(i, j)
                            &&& old(self)@.toks[j] matches Arg::Word(wd)
                            &&& w@ == wd@
                            &&& final(self)@ == old(self)@.consume(i).consume(j).with_current(wd@)
                        },
                },
                Err(e) => final(self)@ == old(self)@ && exists|i: int|
                    #![auto]
                    first_live_match_at(old(self)@, predicate, i) && {
                        let key = named_render(old(self)@.toks[i]@);
                        ||| {
                            &&& old(self)@.no_live_after(i)
                            &&& e matches Error::Stderr(msg)
                            &&& msg@ == key + txt_requires_argument()
                        }
                        ||| (exists|j: int|
                            #![auto]
                            {
                                &&& old(self)@.next_live_at(i, j)
                                &&& !(old(self)@.toks[j] matches Arg::Word(_))
                                &&& e matches Error::Stderr(msg)
                                &&& msg@ == key + txt_got_flag() + named_render(
                                    old(self)@.toks[j]@,
                                )
                            })
                    },
            },
    {
        let ghost pre = self@;
        let toks = rc_clone_tokens(&self.items);
        let v = rc_tokens(&toks);
        let n = v.len();
        let mut ix: usize = 0;
        loop
            invariant
                0 <= ix <= n,
                self == old(self),
                self.wf(),
                pre == self@,
                n == pre.removed.len(),
                v@ == pre.toks,
                pred_callable(predicate),
                forall|a: &Arg| #[trigger] arg_matches(predicate, *a) ==> !(*a matches Arg::Word(
                    _,
                )),
                forall|j: int|
                    0 <= j < ix && #[trigger] pre.live(j) ==> arg_rejects(predicate, pre.toks[j]),
            ensures
                0 <= ix < n,
                pre.live(ix as int),
                arg_matches(predicate, pre.toks[ix as int]),
                forall|j: int|
                    0 <= j < ix && #[trigger] pre.live(j) ==> arg_rejects(predicate, pre.toks[j]),
            decreases n - ix,
        {
            if ix >= n {
                return Ok(None);
            }
            if !self.removed[ix] {
                if predicate(&v[ix]) {
                    break;
                }
            }
            ix += 1;
        }
        let key_ix = ix;
        proof {
            assert(first_live_match_at(pre, predicate, key_ix as int));
        }
        let mut jx = key_ix + 1;
        loop
            invariant
                key_ix < jx <= n,
                self == old(self),
                self.wf(),
                pre == self@,
                n == pre.removed.len(),
                v@ == pre.toks,
                forall|k: int| key_ix < k < jx ==> !(#[trigger] pre.live(k)),
            ensures
                key_ix < jx <= n,
                jx == n || pre.live(jx as int),
                forall|k: int| key_ix < k < jx ==> !(#[trigger] pre.live(k)),
            decreases n - jx,
        {
            if jx >= n {
                break;
            }
            if !self.removed[jx] {
                break;
            }
            jx += 1;
        }
        if jx >= n {
            let mut msg = v[key_ix].render_named();
            msg.append(" requires an argument");
            proof {
                assert(pre.no_live_after(key_ix as int));
            }
            return Err(Error::Stderr(msg));
        }
        proof {
            assert(pre.next_live_at(key_ix as int, jx as int));
        }
        match &v[jx] {
            Arg::Word(w) => {
                let val = w.duplicate();
                let current = val.duplicate();
                let ghost wv = val@;
                self.current = Some(current);
                self.remove(key_ix);
                self.remove(jx);
                proof {
                    assert(final(self)@ =~= pre.consume(key_ix as int).consume(
                        jx as int,
                    ).with_current(wv));
                }
                Ok(Some(val))
            },
            other => {
                let mut msg = v[key_ix].render_named();
                msg.append(" requires an argument, got flag ");
                let f = other.render_named();
                msg.append(f.as_str());
                Err(Error::Stderr(msg))
            },
        }
    }

    /// Consumes the first remaining token when it is a word: a positional
    /// argument. Returns `Ok(None)`, leaving the buffer unchanged, when the
    /// buffer is empty; fails when the first remaining token is a flag.
    pub fn take_positional_word(&mut self) -> (r: Result<Option<Word>, Error>)
        requires
            old(self).wf(),
        ensures
            final(self).wf(),
            final(self)@.toks == old(self)@.toks,
            match r {
                Ok(o) => match o {
                    None => (forall|i: int| !(#[trigger] old(self)@.live(i))) && final(self)@
                        == old(self)@,
                    Some(w) => exists|i: int|
                        #![auto]
                        {
                            &&& old(self)@.first_live_at(i)
                            &&& old(self)@.toks[i] matches Arg::Word(wd)
                            &&& w@ == wd@
                            &&& final(self)@ == old(self)@.consume(i).with_current(wd@)
                        },
                },
                Err(e) => final(self)@ == old(self)@ && exists|i: int|
                    #![auto]
                    {
                        &&& old(self)@.first_live_at(i)
                        &&& !(old(self)@.toks[i] matches Arg::Word(_))
                        &&& e matches Error::Stderr(msg)
                        &&& msg@ == txt_expected_argument() + named_render(old(self)@.toks[i]@)
                    },
            },
    {
        let ghost pre = self@;
        let toks = rc_clone_tokens(&self.items);
        let v = rc_tokens(&toks);
        let n = v.len();
        let mut ix: usize = 0;
        while ix < n
            invariant
                0 <= ix <= n,
                self == old(self),
                self.wf(),
                pre == self@,
                n == pre.removed.len(),
                v@ == pre.toks,
                forall|j: int| 0 <= j < ix ==> !(#[trigger] pre.live(j)),
            decreases n - ix,
        {
            if !self.removed[ix] {
                proof {
                    assert(pre.first_live_at(ix as int));
                }
                match &v[ix] {
                    Arg::Word(w) => {
                        let val = w.duplicate();
                        let current = val.duplicate();
                        let ghost wv = val@;
                        self.current = Some(current);
                        self.remove(ix);
                        proof {
                            assert(final(self)@ =~= pre.consume(ix as int).with_current(wv));
                        }
                        return Ok(Some(val));
                    },
                    other => {
                        let mut msg = String::new();
                        msg.append("Expected an argument, got ");
                        let f = other.render_named();
                        msg.append(f.as_str());
                        return Err(Error::Stderr(msg));
                    },
                }
            }
            ix += 1;
        }
        Ok(None)
    }

    /// Consumes the first remaining token when it is a word whose text
    /// equals `word`: a command name. Returns `false`, leaving the buffer
    /// unchanged, in every other case.
    pub fn take_cmd(&mut self, word: &str) -> (r: bool)
        requires
            old(self).wf(),
        ensures
            final(self).wf(),
            final(self)@.toks == old(self)@.toks,
            final(self)@.current == old(self)@.current,
            r ==> exists|i: int|
                #![auto]
                {
                    &&& old(self)@.first_live_at(i)
                    &&& old(self)@.toks[i] matches Arg::Word(wd)
                    &&& wd@.utf8 == Some(word@)
                    &&& final(self)@ == old(self)@.consume(i)
                },
            !r ==> final(self)@ == old(self)@ && forall|i: int|
                #![auto]
                old(self)@.first_live_at(i) ==> !(old(self)@.toks[i] matches Arg::Word(wd)
                    && wd@.utf8 == Some(word@)),
    {
        let ghost pre = self@;
        let toks = rc_clone_tokens(&self.items);
        let v = rc_tokens(&toks);
        let n = v.len();
        let mut ix: usize = 0;
        while ix < n
            invariant
                0 <= ix <= n,
                self == old(self),
                self.wf(),
                pre == self@,
                n == pre.removed.len(),
                v@ == pre.toks,
                forall|j: int| 0 <= j < ix ==> !(#[trigger] pre.live(j)),
            decreases n - ix,
        {
            if !self.removed[ix] {
                proof {
                    assert(pre.first_live_at(ix as int));
                }
                match &v[ix] {
                    Arg::Word(w) => {
                        match &w.utf8 {
                            Some(s) => {
                                let owned = word.to_owned();
                                if *s == owned {
                                    self.remove(ix);
                                    return true;
                                }
                                return false;
                            },
                            None => {
                                return false;
                            },
                        }
                    },
                    _ => {
                        return false;
                    },
                }
            }
            ix += 1;
        }
        false
    }
}

/// The models of raw words built from decoded texts.
pub open spec fn texts_of(xs: Seq<&str>) -> Seq<WordM> {
    Seq::new(xs.len(), |i: int| WordM::of_text(xs[i]@))
}

/// An iterator over the remaining `(index, token)` pairs of a buffer, in
/// ascending index order, skipping removed entries.
pub struct ArgsIter<'a> {
    args: &'a Args,
    cur: usize,
}

impl<'a> ArgsIter<'a> {
    /// The buffer being iterated.
    pub closed spec fn src(&self) -> Args {
        *self.args
    }

    /// The next index to look at.
    pub closed spec fn pos(&self) -> int {
        self.cur as int
    }

    /// The next remaining `(index, token)` pair at or after the current
    /// position, or `None` when every later entry is removed.
    pub fn next(&mut self) -> (r: Option<(usize, &'a Arg)>)
        requires
            old(self).src().wf(),
        ensures
            final(self).src() == old(self).src(),
            match r {
                Some(p) => {
                    &&& old(self).pos() <= p.0 as int
                    &&& old(self).src()@.live(p.0 as int)
                    &&& forall|j: int|
                        old(self).pos() <= j < p.0 as int ==> !(#[trigger] old(
                            self,
                        ).src()@.live(j))
                    &&& *p.1 == old(self).src()@.toks[p.0 as int]
                    &&& final(self).pos() == p.0 + 1
                },
                None => forall|j: int| old(self).pos() <= j ==> !(#[trigger] old(
                    self,
                ).src()@.live(j)),
            },
    {
        let v = rc_tokens(&self.args.items);
        let n = self.args.removed.len();
        while self.cur < n
            invariant
                self.args == old(self).args,
                n == self.args@.removed.len(),
                self.args.wf(),
                v@ == self.args@.toks,
                old(self).pos() <= self.cur as int,
                forall|j: int|
                    old(self).pos() <= j < self.cur as int ==> !(#[trigger] self.args@.live(j)),
            decreases n - self.cur,
        {
            let ix = self.cur;
            if !self.args.removed[ix] {
                self.cur = ix + 1;
                return Some((ix, &v[ix]));
            }
            self.cur = ix + 1;
        }
        None
    }
}

} // verus!
