//! Laws of the buffer and of tokenization.
//!
//! These proof functions state the global guarantees that the individual
//! operation contracts add up to: consumption over a run of operations is
//! disjoint, and rendering tokens back to text and re-tokenizing them gives
//! the tokens back.

use vstd::prelude::*;
use vstd::utf8::encode_utf8;
use crate::arg::{ArgM, spec_render};
use crate::args::{ArgsM, count_false, lemma_count_false_all};
use crate::tokenize::{find_eq, push_tokens, next_pos_only, push_ok, tokenize, tokenize_from,
    tokenize_ok};
use crate::word::WordM;

verus! {

/// One or more buffer operations lead from `pre` to `post`: the tokens are
/// unchanged and removals only grow.
pub open spec fn buffer_step(pre: ArgsM, post: ArgsM) -> bool {
    &&& post.toks == pre.toks
    &&& post.removed.len() == pre.removed.len()
    &&& forall|i: int| 0 <= i < pre.removed.len() && pre.removed[i] ==> post.removed[i]
}

/// The token indices consumed between two buffer states.
pub open spec fn consumed(pre: ArgsM, post: ArgsM) -> Set<int> {
    Set::new(|i: int| 0 <= i < pre.removed.len() && !pre.removed[i] && post.removed[i])
}

/// Consuming one live token is a buffer step that consumes exactly that
/// index.
pub proof fn lemma_consume_is_step(m: ArgsM, i: int)
    requires
        m.live(i),
    ensures
        buffer_step(m, m.consume(i)),
        consumed(m, m.consume(i)) == set![i],
{
    assert(consumed(m, m.consume(i)) =~= set![i]);
}

/// Over consecutive runs the consumed index sets are disjoint — no token is
/// consumed twice — and the indices consumed overall are exactly those each
/// run consumed.
pub proof fn lemma_consumption_disjoint(b1: ArgsM, b2: ArgsM, b3: ArgsM)
    requires
        buffer_step(b1, b2),
        buffer_step(b2, b3),
    ensures
        buffer_step(b1, b3),
        consumed(b1, b2).disjoint(consumed(b2, b3)),
        consumed(b1, b3) == consumed(b1, b2) + consumed(b2, b3),
{
    assert(consumed(b1, b3) =~= consumed(b1, b2) + consumed(b2, b3));
}

/// The buffer is empty — its remaining count, the number of `false` bitmap
/// entries, is zero — exactly when no token is live.
pub proof fn lemma_empty_iff_no_live(m: ArgsM)
    ensures
        (count_false(m.removed) == 0) <==> (forall|i: int| !(#[trigger] m.live(i))),
{
    lemma_count_false_all(m.removed);
    if count_false(m.removed) == 0 {
        assert forall|i: int| !(#[trigger] m.live(i)) by {
            if 0 <= i < m.removed.len() {
                assert(m.removed[i]);
            }
        }
    }
    if forall|i: int| !(#[trigger] m.live(i)) {
        assert forall|i: int| 0 <= i < m.removed.len() implies m.removed[i] by {
            assert(!m.live(i));
        }
    }
}

/// A token that tokenization gives back from its own rendered text: a short
/// flag other than `-` or `=`, a long flag with a name that is not empty and
/// has no `=`, or a word whose text does not begin with `-`.
pub open spec fn renders_cleanly(a: ArgM) -> bool {
    match a {
        ArgM::Short(c) => c != '-' && c != '=',
        ArgM::Long(l) => l.len() > 0 && find_eq(l) == l.len(),
        ArgM::Word(w) => w.utf8 matches Some(s) && w.os == encode_utf8(s) && (s.len() == 0 || s[0]
            != '-'),
    }
}

/// The raw word a token renders to.
pub open spec fn rendered_word(a: ArgM) -> WordM {
    WordM::of_text(spec_render(a)->Some_0)
}

/// The raw words a token sequence renders to.
pub open spec fn rendered_words(ts: Seq<ArgM>) -> Seq<WordM> {
    Seq::new(ts.len(), |i: int| rendered_word(ts[i]))
}

/// Tokenizing the rendered text of one clean token gives that token back and
/// leaves the positional-only state off.
pub proof fn lemma_render_one_round_trip(a: ArgM)
    requires
        renders_cleanly(a),
    ensures
        push_ok(rendered_word(a), false),
        push_tokens(rendered_word(a), false) == seq![a],
        next_pos_only(rendered_word(a), false) == false,
{
    let w = rendered_word(a);
    let s = spec_render(a)->Some_0;
    match a {
        ArgM::Short(c) => {
            assert(s == seq!['-', c]);
            let body = s.skip(1);
            assert(body =~= seq![c]);
            assert(body.skip(1) =~= Seq::<char>::empty());
            assert(find_eq(Seq::<char>::empty()) == 0);
            assert(find_eq(body) == 1 + find_eq(body.skip(1)));
            assert(find_eq(body) == 1);
            assert(push_tokens(w, false) =~= seq![a]);
        },
        ArgM::Long(l) => {
            assert(s == seq!['-', '-'] + l);
            assert(s.len() >= 3);
            assert(s.skip(2) =~= l);
            assert(push_tokens(w, false) =~= seq![a]);
        },
        ArgM::Word(wd) => {
            assert(w == wd);
            assert(push_tokens(w, false) =~= seq![a]);
        },
    }
}

/// Re-tokenizing a clean token sequence's own rendered text gives the
/// sequence back.
pub proof fn lemma_tokenize_round_trip(ts: Seq<ArgM>)
    requires
        forall|i: int| 0 <= i < ts.len() ==> renders_cleanly(#[trigger] ts[i]),
    ensures
        tokenize_ok(rendered_words(ts)),
        tokenize(rendered_words(ts)) == ts,
    decreases ts.len(),
{
    let ws = rendered_words(ts);
    if ts.len() == 0 {
        assert(ws =~= Seq::<WordM>::empty());
    } else {
        lemma_render_one_round_trip(ts[0]);
        lemma_tokenize_round_trip(ts.skip(1));
        assert(ws[0] == rendered_word(ts[0]));
        assert(ws.skip(1) =~= rendered_words(ts.skip(1)));
        assert(tokenize_from(ws, false) == seq![ts[0]] + tokenize(rendered_words(ts.skip(1))));
        assert(seq![ts[0]] + ts.skip(1) =~= ts);
    }
}

} // verus!
