//! The division of an unknown run of characters by the roles that a hidden
//! Markov model gave to its characters.

use vstd::prelude::*;
use crate::text::{concat, views, all_nonempty, to_string, lemma_views_push, lemma_concat_add};

verus! {

/// The role of a character in its word: it begins the word, stands in its
/// middle, ends it, or is the whole word.
#[derive(Clone, Copy, PartialEq, Eq, Structural, Debug)]
pub enum State {
    B,
    M,
    E,
    S,
}

/// A character with this role is the last of its token.
pub open spec fn closes(st: State) -> bool {
    st == State::E || st == State::S
}

/// The tokens of the run from position `x` on, where the token that `x`
/// belongs to began at `start`: a token ends at each character whose role
/// closes it, and the last token ends with the run.
pub open spec fn state_tokens(s: Seq<char>, states: Seq<State>, start: int, x: int) -> Seq<
    Seq<char>,
>
    decreases s.len() - x,
{
    if x < 0 || x >= s.len() || x >= states.len() {
        if 0 <= start < s.len() {
            seq![s.subrange(start, s.len() as int)]
        } else {
            Seq::empty()
        }
    } else if closes(states[x]) {
        seq![s.subrange(start, x + 1)] + state_tokens(s, states, x + 1, x + 1)
    } else {
        state_tokens(s, states, start, x + 1)
    }
}

/// Whatever the roles are, the tokens from `x` on hold the run from `start`
/// on, character for character, and none of them is empty.
pub proof fn lemma_state_tokens(s: Seq<char>, states: Seq<State>, start: int, x: int)
    requires
        states.len() == s.len(),
        0 <= start <= x <= s.len(),
    ensures
        concat(state_tokens(s, states, start, x)) == s.subrange(start, s.len() as int),
        all_nonempty(state_tokens(s, states, start, x)),
    decreases s.len() - x,
{
    let n = s.len() as int;
    reveal_with_fuel(concat, 3);
    if x >= n {
        if start < n {
            assert(concat(seq![s.subrange(start, n)]) =~= s.subrange(start, n));
        } else {
            assert(s.subrange(start, n) =~= Seq::<char>::empty());
        }
    } else if closes(states[x]) {
        let head = seq![s.subrange(start, x + 1)];
        let tail = state_tokens(s, states, x + 1, x + 1);
        lemma_state_tokens(s, states, x + 1, x + 1);
        lemma_concat_add(head, tail);
        assert(concat(head) =~= s.subrange(start, x + 1));
        assert(concat(head) + concat(tail) =~= s.subrange(start, n));
    } else {
        lemma_state_tokens(s, states, start, x + 1);
    }
}

/// Divides a run of characters by the roles given to them.
pub fn cut_by_states(run: &Vec<char>, states: &Vec<State>) -> (words: Vec<String>)
    requires
        states@.len() == run@.len(),
    ensures
        views(words@) == state_tokens(run@, states@, 0, 0),
        concat(views(words@)) == run@,
        all_nonempty(views(words@)),
{
    let ghost s = run@;
    let ghost whole = state_tokens(s, states@, 0, 0);
    let n: usize = run.len();
    let mut words: Vec<String> = Vec::new();
    let mut start: usize = 0;
    let mut x: usize = 0;
    assert(views(words@) + state_tokens(s, states@, 0, 0) =~= whole);
    while x < n
        invariant
            s == run@,
            n == s.len(),
            states@.len() == n,
            whole == state_tokens(s, states@, 0, 0),
            start <= x <= n,
            views(words@) + state_tokens(s, states@, start as int, x as int) == whole,
        decreases n - x,
    {
        let ghost before = views(words@);
        let ghost rest = state_tokens(s, states@, x + 1, x + 1);
        let st: State = states[x];
        if st == State::E || st == State::S {
            let w = to_string(run, start, x + 1);
            proof {
                lemma_views_push(words@, w);
            }
            words.push(w);
            assert(views(words@) + rest =~= before + (seq![s.subrange(start as int, x + 1)] + rest));
            start = x + 1;
        }
        x += 1;
    }
    if start < n {
        let w = to_string(run, start, n);
        proof {
            lemma_views_push(words@, w);
        }
        words.push(w);
        assert(views(words@) =~= whole);
    } else {
        assert(views(words@) =~= whole);
    }
    proof {
        lemma_state_tokens(s, states@, 0, 0);
        assert(s.subrange(0, n as int) =~= s);
    }
    words
}

} // verus!
