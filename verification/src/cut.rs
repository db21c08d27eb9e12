//! The segmentation of a whole text: its blocks are divided by class, blocks
//! for the dictionary are cut along the route that a solver chose through
//! their word graph, and unknown runs are divided by a decoder of roles.

use vstd::prelude::*;
use crate::dag::{is_dag, lemma_ends_shape};
use crate::dict::Jieba;
use crate::ends::Ends;
use crate::hmm::{State, cut_by_states, state_tokens};
use crate::split::{is_blocks, split_blocks, sub_chars, cut_other, other_tokens, Block};
use crate::text::{
    concat,
    views,
    all_nonempty,
    to_chars,
    lemma_views_push,
    lemma_views_add,
    lemma_concat_add,
    lemma_concat_push,
    flatten,
    lemma_flatten_push,
};
use crate::walk::{Piece, piece_views, texts, valid_route, run_pieces, plain_tokens};

verus! {

/// The route takes, at each position, one of the ends that the word graph
/// lists for it.
pub open spec fn follows(route: Seq<usize>, d: Seq<Ends>) -> bool {
    &&& route.len() >= d.len()
    &&& forall|k: int| 0 <= k < d.len() ==> (#[trigger] d[k])@.contains(route[k])
}

/// A route that follows the word graph of a sentence stays inside the
/// sentence and never goes back.
pub proof fn lemma_follows_valid(
    m: Map<Seq<char>, usize>,
    s: Seq<char>,
    d: Seq<Ends>,
    route: Seq<usize>,
)
    requires
        s.len() <= usize::MAX,
        is_dag(m, s, d),
        follows(route, d),
    ensures
        valid_route(route, s.len()),
{
    assert forall|k: int| 0 <= k < s.len() implies k <= #[trigger] route[k] < s.len() by {
        let l = d[k]@;
        lemma_ends_shape(m, s, k, l);
        assert(l.contains(route[k]));
        let i = choose|i: int| 0 <= i < l.len() && l[i] == route[k];
        assert(k <= l[i] < s.len());
    }
}

/// `group` holds the tokens of the run `run` under the roles `st`.
pub open spec fn divides(run: Seq<char>, group: Seq<Seq<char>>, st: Seq<State>) -> bool {
    st.len() == run.len() && group == state_tokens(run, st, 0, 0)
}

/// `group` is what becomes of one piece: a finished piece is its own token,
/// and an open run is divided under some roles for its characters.
pub open spec fn settles_piece(p: (Seq<char>, bool), group: Seq<Seq<char>>) -> bool {
    if p.1 {
        group == seq![p.0]
    } else {
        exists|st: Seq<State>| divides(p.0, group, st)
    }
}

/// `groups` holds, piece for piece, what becomes of the pieces, and `tokens`
/// holds the groups in order.
pub open spec fn settles_by(
    pieces: Seq<(Seq<char>, bool)>,
    tokens: Seq<Seq<char>>,
    groups: Seq<Seq<Seq<char>>>,
) -> bool {
    &&& groups.len() == pieces.len()
    &&& tokens == flatten(groups)
    &&& forall|i: int| 0 <= i < pieces.len() ==> settles_piece(pieces[i], #[trigger] groups[i])
}

/// `tokens` is what becomes of the pieces, one after the other.
pub open spec fn settles(pieces: Seq<(Seq<char>, bool)>, tokens: Seq<Seq<char>>) -> bool {
    exists|groups: Seq<Seq<Seq<char>>>| settles_by(pieces, tokens, groups)
}

/// `tokens` is the walk along `route`, a route that follows the word graph
/// `d` of the block `part`; with `hmm` set, open runs are divided.
pub open spec fn cuts_along(
    m: Map<Seq<char>, usize>,
    part: Seq<char>,
    hmm: bool,
    tokens: Seq<Seq<char>>,
    d: Seq<Ends>,
    route: Seq<usize>,
) -> bool {
    &&& is_dag(m, part, d)
    &&& follows(route, d)
    &&& if hmm {
        settles(run_pieces(m, part, route, 0, Seq::empty()), tokens)
    } else {
        tokens == plain_tokens(part, route, 0, Seq::empty())
    }
}

/// `tokens` is the cut of one block: of a block for the dictionary, the walk
/// along some route that follows its word graph; of another block, its runs
/// of white space and its other characters.
pub open spec fn cuts_block(
    m: Map<Seq<char>, usize>,
    s: Seq<char>,
    b: Block,
    hmm: bool,
    tokens: Seq<Seq<char>>,
) -> bool {
    let part = s.subrange(b.start as int, b.end as int);
    if b.dict {
        exists|d: Seq<Ends>, route: Seq<usize>| cuts_along(m, part, hmm, tokens, d, route)
    } else {
        tokens == other_tokens(part, 0, 0)
    }
}

/// `groups` holds the cut of each block of `blocks`, which divide the text
/// `s`, and `tokens` holds the groups in order.
pub open spec fn cuts_by(
    m: Map<Seq<char>, usize>,
    s: Seq<char>,
    hmm: bool,
    tokens: Seq<Seq<char>>,
    blocks: Seq<Block>,
    groups: Seq<Seq<Seq<char>>>,
) -> bool {
    &&& is_blocks(s, blocks)
    &&& groups.len() == blocks.len()
    &&& tokens == flatten(groups)
    &&& forall|i: int| 0 <= i < blocks.len() ==> cuts_block(m, s, blocks[i], hmm, #[trigger] groups[i])
}

/// `tokens` is a cut of the text `s`: block for block, the cut of the block.
pub open spec fn is_cut(m: Map<Seq<char>, usize>, s: Seq<char>, hmm: bool, tokens: Seq<Seq<char>>) -> bool {
    exists|blocks: Seq<Block>, groups: Seq<Seq<Seq<char>>>| cuts_by(m, s, hmm, tokens, blocks, groups)
}

/// Whether the route takes, at each position, one of the ends that the word
/// graph lists for it.
pub fn route_follows(route: &Vec<usize>, dag: &Vec<Ends>) -> (r: bool)
    ensures
        r == follows(route@, dag@),
{
    let n: usize = dag.len();
    if route.len() < n {
        return false;
    }
    let mut k: usize = 0;
    while k < n
        invariant
            n == dag.len(),
            n <= route.len(),
            k <= n,
            forall|x: int| 0 <= x < k ==> (#[trigger] dag@[x])@.contains(route@[x]),
        decreases n - k,
    {
        let list = &dag[k];
        let m: usize = list.len();
        let mut i: usize = 0;
        let mut found: bool = false;
        while i < m && !found
            invariant
                m == list@.len(),
                i <= m,
                k < route.len(),
                found ==> list@.contains(route@[k as int]),
                !found ==> forall|j: int| 0 <= j < i ==> list@[j] != route@[k as int],
            decreases m - i + (if found { 0int } else { 1int }),
        {
            match list.get(i) {
                Some(e) => {
                    if e == route[k] {
                        found = true;
                    } else {
                        i += 1;
                    }
                },
                None => {
                    i += 1;
                },
            }
        }
        if !found {
            assert(!dag@[k as int]@.contains(route@[k as int]));
            return false;
        }
        k += 1;
    }
    true
}

impl Jieba {
    /// The tokens of the pieces: a finished piece is a token, and an open run
    /// is divided by the roles that `decode` gives to its characters.
    pub fn settle<H>(pieces: &Vec<Piece>, decode: &H) -> (words: Vec<String>) where
        H: Fn(&Vec<char>) -> Vec<State>,

        requires
            all_nonempty(texts(piece_views(pieces@))),
            forall|c: &Vec<char>| #[trigger] decode.requires((c,)),
            forall|c: &Vec<char>, st: Vec<State>| #[trigger]
                decode.ensures((c,), st) ==> st@.len() == c@.len(),
        ensures
            settles(piece_views(pieces@), views(words@)),
            concat(views(words@)) == concat(texts(piece_views(pieces@))),
            all_nonempty(views(words@)),
    {
        let ghost t = texts(piece_views(pieces@));
        let ghost pv = piece_views(pieces@);
        let ghost groups: Seq<Seq<Seq<char>>> = Seq::empty();
        let n: usize = pieces.len();
        let mut words: Vec<String> = Vec::new();
        let mut i: usize = 0;
        assert(views(words@) =~= Seq::<Seq<char>>::empty());
        assert(t.subrange(0, 0) =~= Seq::<Seq<char>>::empty());
        while i < n
            invariant
                n == pieces.len(),
                i <= n,
                t == texts(piece_views(pieces@)),
                all_nonempty(t),
                forall|c: &Vec<char>| #[trigger] decode.requires((c,)),
                forall|c: &Vec<char>, st: Vec<State>| #[trigger]
                    decode.ensures((c,), st) ==> st@.len() == c@.len(),
                concat(views(words@)) == concat(t.subrange(0, i as int)),
                all_nonempty(views(words@)),
                pv == piece_views(pieces@),
                groups.len() == i,
                views(words@) == flatten(groups),
                forall|j: int| 0 <= j < i ==> settles_piece(pv[j], #[trigger] groups[j]),
            decreases n - i,
        {
            let ghost before = words@;
            let ghost text = pieces[i as int].text@;
            assert(t[i as int] == text);
            proof {
                assert(t.subrange(0, i as int).push(text) =~= t.subrange(0, i + 1));
                lemma_concat_push(t.subrange(0, i as int), text);
            }
            if pieces[i].settled {
                let w = pieces[i].text.clone();
                proof {
                    lemma_views_push(words@, w);
                    lemma_concat_push(views(before), w@);
                    lemma_flatten_push(groups, seq![w@]);
                    assert(views(before).push(w@) =~= views(before) + seq![w@]);
                    assert(settles_piece(pv[i as int], seq![w@]));
                    groups = groups.push(seq![w@]);
                }
                words.push(w);
            } else {
                let run = to_chars(pieces[i].text.as_str());
                let states = decode(&run);
                let mut part = cut_by_states(&run, &states);
                proof {
                    lemma_views_add(before, part@);
                    lemma_concat_add(views(before), views(part@));
                    lemma_flatten_push(groups, views(part@));
                    assert(divides(pv[i as int].0, views(part@), states@));
                    assert(settles_piece(pv[i as int], views(part@)));
                    groups = groups.push(views(part@));
                }
                words.append(&mut part);
            }
            i += 1;
        }
        assert(t.subrange(0, n as int) =~= t);
        assert(settles_by(pv, views(words@), groups));
        words
    }

    /// Cuts a text into tokens. `solve` chooses the route through the word
    /// graph of a block, and `decode` gives the characters of an unknown run
    /// their roles; with `hmm` unset no run is left to `decode`. The tokens
    /// are, block for block, the cut of the block along the route chosen for
    /// it. Whatever the two choose, the tokens hold the text, character for
    /// character, and none of them is empty.
    pub fn cut<R, H>(
        &self,
        sentence: &str,
        hmm: bool,
        solve: &R,
        decode: &H,
    ) -> (words: Vec<String>) where
        R: Fn(&Vec<char>, &Vec<Ends>) -> Vec<usize>,
        H: Fn(&Vec<char>) -> Vec<State>,

        requires
            forall|c: &Vec<char>, d: &Vec<Ends>|
                is_dag(self.entries(), c@, d@) ==> #[trigger] solve.requires((c, d)),
            forall|c: &Vec<char>, d: &Vec<Ends>, r: Vec<usize>| #[trigger]
                solve.ensures((c, d), r) ==> follows(r@, d@),
            forall|c: &Vec<char>| #[trigger] decode.requires((c,)),
            forall|c: &Vec<char>, st: Vec<State>| #[trigger]
                decode.ensures((c,), st) ==> st@.len() == c@.len(),
        ensures
            is_cut(self.entries(), sentence@, hmm, views(words@)),
            concat(views(words@)) == sentence@,
            all_nonempty(views(words@)),
    {
        let chars = to_chars(sentence);
        let ghost s = chars@;
        let ghost m = self.entries();
        let ghost groups: Seq<Seq<Seq<char>>> = Seq::empty();
        let blocks = split_blocks(&chars);
        let n: usize = blocks.len();
        let mut words: Vec<String> = Vec::new();
        let mut b: usize = 0;
        let mut x: usize = 0;
        assert(views(words@) =~= Seq::<Seq<char>>::empty());
        assert(s.subrange(0, 0) =~= Seq::<char>::empty());
        while b < n
            invariant
                s == chars@,
                s == sentence@,
                n == blocks.len(),
                is_blocks(s, blocks@),
                b <= n,
                b < n ==> blocks[b as int].start == x,
                b == n ==> x == s.len(),
                x <= s.len(),
                forall|c: &Vec<char>, d: &Vec<Ends>|
                    is_dag(self.entries(), c@, d@) ==> #[trigger] solve.requires((c, d)),
                forall|c: &Vec<char>, d: &Vec<Ends>, r: Vec<usize>| #[trigger]
                    solve.ensures((c, d), r) ==> follows(r@, d@),
                forall|c: &Vec<char>| #[trigger] decode.requires((c,)),
                forall|c: &Vec<char>, st: Vec<State>| #[trigger]
                    decode.ensures((c,), st) ==> st@.len() == c@.len(),
                concat(views(words@)) == s.subrange(0, x as int),
                all_nonempty(views(words@)),
                m == self.entries(),
                groups.len() == b,
                views(words@) == flatten(groups),
                forall|j: int|
                    0 <= j < b ==> cuts_block(m, s, blocks@[j], hmm, #[trigger] groups[j]),
            decreases n - b,
        {
            let block: Block = blocks[b];
            let part = sub_chars(&chars, block.start, block.end);
            let ghost before = words@;
            let mut tokens: Vec<String> = Vec::new();
            if !block.dict {
                tokens = cut_other(&part);
            } else {
                let dag = self.dag(&part);
                let route = solve(&part, &dag);
                proof {
                    lemma_follows_valid(m, part@, dag@, route@);
                }
                if hmm {
                    let pieces = self.cut_dag_hmm(&part, &route);
                    tokens = Self::settle(&pieces, decode);
                } else {
                    tokens = self.cut_dag_no_hmm(&part, &route);
                }
                assert(cuts_along(m, part@, hmm, views(tokens@), dag@, route@));
            }
            assert(cuts_block(m, s, block, hmm, views(tokens@)));
            proof {
                lemma_views_add(before, tokens@);
                lemma_concat_add(views(before), views(tokens@));
                assert(s.subrange(0, x as int) + part@ =~= s.subrange(0, block.end as int));
                lemma_flatten_push(groups, views(tokens@));
                groups = groups.push(views(tokens@));
            }
            words.append(&mut tokens);
            x = block.end;
            b += 1;
        }
        assert(s.subrange(0, x as int) =~= s);
        assert(cuts_by(m, s, hmm, views(words@), blocks@, groups));
        words
    }
}

} // verus!
