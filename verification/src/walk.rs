//! Walks along a chosen route through the word graph, which turn the route
//! into tokens.

use vstd::prelude::*;
use crate::classes::{is_ascii_alnum, ascii_alnum};
use crate::dict::Jieba;
use crate::text::{concat, views, all_nonempty, to_string, lemma_views_push, lemma_concat_add};

verus! {

/// A route names, for each position of the sentence, the end of the word
/// chosen to start there: a position from that one to the last.
pub open spec fn valid_route(route: Seq<usize>, n: nat) -> bool {
    &&& route.len() >= n
    &&& forall|k: int| 0 <= k < n ==> k <= #[trigger] route[k] < n
}

/// The pending run of letters and digits as a token, if there is any.
pub open spec fn flush_plain(buf: Seq<char>) -> Seq<Seq<char>> {
    if buf.len() > 0 {
        seq![buf]
    } else {
        Seq::empty()
    }
}

/// The tokens of the walk without a model for unknown runs, from position `x`
/// on with the pending run `buf`: a chosen word of one ASCII letter or digit
/// joins the run, any other word closes the run and follows it.
pub open spec fn plain_tokens(s: Seq<char>, route: Seq<usize>, x: int, buf: Seq<char>) -> Seq<
    Seq<char>,
>
    decreases s.len() - x,
{
    if x < 0 || x >= s.len() || !(x <= route[x] < s.len()) {
        flush_plain(buf)
    } else if route[x] == x && is_ascii_alnum(s[x]) {
        plain_tokens(s, route, x + 1, buf.push(s[x]))
    } else {
        flush_plain(buf).push(s.subrange(x, route[x] + 1)) + plain_tokens(
            s,
            route,
            route[x] + 1,
            Seq::empty(),
        )
    }
}

/// The tokens of the walk from `x` on hold the pending run and the rest of the
/// sentence, character for character, and none of them is empty.
pub proof fn lemma_plain_tokens(s: Seq<char>, route: Seq<usize>, x: int, buf: Seq<char>)
    requires
        valid_route(route, s.len()),
        0 <= x <= s.len(),
    ensures
        concat(plain_tokens(s, route, x, buf)) == buf + s.subrange(x, s.len() as int),
        all_nonempty(plain_tokens(s, route, x, buf)),
    decreases s.len() - x,
{
    let n = s.len() as int;
    reveal_with_fuel(concat, 3);
    if x >= n {
        assert(concat(flush_plain(buf)) =~= buf);
        assert(buf + s.subrange(x, n) =~= buf);
    } else if route[x] == x && is_ascii_alnum(s[x]) {
        lemma_plain_tokens(s, route, x + 1, buf.push(s[x]));
        assert(buf.push(s[x]) + s.subrange(x + 1, n) =~= buf + s.subrange(x, n));
    } else {
        let y = route[x] + 1;
        let head = flush_plain(buf).push(s.subrange(x, y));
        let tail = plain_tokens(s, route, y, Seq::empty());
        lemma_plain_tokens(s, route, y, Seq::empty());
        lemma_concat_add(head, tail);
        assert(head.drop_last() =~= flush_plain(buf));
        assert(concat(flush_plain(buf)) =~= buf);
        assert(concat(head) =~= buf + s.subrange(x, y));
        assert(concat(head) + concat(tail) =~= buf + s.subrange(x, n));
    }
}

/// One piece of a walk that leaves unknown runs open: its text, and whether it
/// is a finished token or a run that the dictionary does not know.
pub struct Piece {
    pub text: String,
    pub settled: bool,
}

impl View for Piece {
    type V = (Seq<char>, bool);

    open spec fn view(&self) -> (Seq<char>, bool) {
        (self.text@, self.settled)
    }
}

/// The views of a list of pieces.
pub open spec fn piece_views(ps: Seq<Piece>) -> Seq<(Seq<char>, bool)> {
    ps.map_values(|p: Piece| p@)
}

/// The texts of a list of pieces.
pub open spec fn texts(ps: Seq<(Seq<char>, bool)>) -> Seq<Seq<char>> {
    ps.map_values(|p: (Seq<char>, bool)| p.0)
}

/// Each character of `buf` as a finished piece of its own.
pub open spec fn singles(buf: Seq<char>) -> Seq<(Seq<char>, bool)> {
    Seq::new(buf.len(), |i: int| (seq![buf[i]], true))
}

/// What becomes of a pending run of single characters: one character is a
/// token; a longer run that the dictionary stores, as a word or as a prefix,
/// is given out character by character; a longer run that it does not store
/// is left open.
pub open spec fn flush_run(m: Map<Seq<char>, usize>, buf: Seq<char>) -> Seq<(Seq<char>, bool)> {
    if buf.len() == 0 {
        Seq::empty()
    } else if buf.len() == 1 {
        seq![(buf, true)]
    } else if m.contains_key(buf) {
        singles(buf)
    } else {
        seq![(buf, false)]
    }
}

/// The pieces of the walk that leaves unknown runs open, from position `x` on
/// with the pending run `buf`: a chosen word of one character joins the run,
/// a longer word closes the run and follows it.
pub open spec fn run_pieces(
    m: Map<Seq<char>, usize>,
    s: Seq<char>,
    route: Seq<usize>,
    x: int,
    buf: Seq<char>,
) -> Seq<(Seq<char>, bool)>
    decreases s.len() - x,
{
    if x < 0 || x >= s.len() || !(x <= route[x] < s.len()) {
        flush_run(m, buf)
    } else if route[x] == x {
        run_pieces(m, s, route, x + 1, buf.push(s[x]))
    } else {
        flush_run(m, buf).push((s.subrange(x, route[x] + 1), true)) + run_pieces(
            m,
            s,
            route,
            route[x] + 1,
            Seq::empty(),
        )
    }
}

proof fn lemma_concat_singles(buf: Seq<char>)
    ensures
        concat(texts(singles(buf))) == buf,
        all_nonempty(texts(singles(buf))),
    decreases buf.len(),
{
    if buf.len() == 0 {
        assert(texts(singles(buf)) =~= Seq::<Seq<char>>::empty());
        assert(concat(texts(singles(buf))) =~= buf);
    } else {
        let t = texts(singles(buf));
        lemma_concat_singles(buf.drop_last());
        assert(t.drop_last() =~= texts(singles(buf.drop_last())));
        assert(t.last() =~= seq![buf.last()]);
        assert(concat(t) =~= buf);
    }
}

proof fn lemma_flush_run(m: Map<Seq<char>, usize>, buf: Seq<char>)
    ensures
        concat(texts(flush_run(m, buf))) == buf,
        all_nonempty(texts(flush_run(m, buf))),
{
    reveal_with_fuel(concat, 3);
    let t = texts(flush_run(m, buf));
    if buf.len() == 0 {
        assert(t =~= Seq::<Seq<char>>::empty());
        assert(concat(t) =~= buf);
    } else if buf.len() > 1 && m.contains_key(buf) {
        lemma_concat_singles(buf);
    } else {
        assert(t =~= seq![buf]);
        assert(concat(seq![buf]) =~= buf);
    }
}

/// The pieces of the walk from `x` on hold the pending run and the rest of the
/// sentence, character for character, and none of them is empty.
pub proof fn lemma_run_pieces(
    m: Map<Seq<char>, usize>,
    s: Seq<char>,
    route: Seq<usize>,
    x: int,
    buf: Seq<char>,
)
    requires
        valid_route(route, s.len()),
        0 <= x <= s.len(),
    ensures
        concat(texts(run_pieces(m, s, route, x, buf))) == buf + s.subrange(x, s.len() as int),
        all_nonempty(texts(run_pieces(m, s, route, x, buf))),
    decreases s.len() - x,
{
    let n = s.len() as int;
    lemma_flush_run(m, buf);
    if x >= n {
        assert(buf + s.subrange(x, n) =~= buf);
    } else if route[x] == x {
        lemma_run_pieces(m, s, route, x + 1, buf.push(s[x]));
        assert(buf.push(s[x]) + s.subrange(x + 1, n) =~= buf + s.subrange(x, n));
    } else {
        let y = route[x] + 1;
        let w = s.subrange(x, y);
        let head = flush_run(m, buf).push((w, true));
        let tail = run_pieces(m, s, route, y, Seq::empty());
        lemma_run_pieces(m, s, route, y, Seq::empty());
        assert(texts(head + tail) =~= texts(head) + texts(tail));
        lemma_concat_add(texts(head), texts(tail));
        assert(texts(head).drop_last() =~= texts(flush_run(m, buf)));
        assert(texts(head).last() == w);
        assert(concat(texts(head)) =~= buf + w);
        assert(concat(texts(head)) + concat(texts(tail)) =~= buf + s.subrange(x, n));
    }
}

impl Jieba {
    /// Walks the route and gives out the chosen words; chosen words of one
    /// ASCII letter or digit that follow one another are joined into one token.
    pub fn cut_dag_no_hmm(&self, chars: &Vec<char>, route: &Vec<usize>) -> (words: Vec<String>)
        requires
            valid_route(route@, chars@.len()),
        ensures
            views(words@) == plain_tokens(chars@, route@, 0, Seq::empty()),
            concat(views(words@)) == chars@,
            all_nonempty(views(words@)),
    {
        let ghost s = chars@;
        let ghost r = route@;
        let n: usize = chars.len();
        let mut words: Vec<String> = Vec::new();
        let mut buf: Vec<char> = Vec::new();
        let mut x: usize = 0;
        assert(views(words@) =~= Seq::<Seq<char>>::empty());
        assert(views(words@) + plain_tokens(s, r, 0, buf@) =~= plain_tokens(s, r, 0, Seq::empty()));
        while x < n
            invariant
                s == chars@,
                r == route@,
                n == s.len(),
                valid_route(r, s.len()),
                x <= n,
                views(words@) + plain_tokens(s, r, x as int, buf@) == plain_tokens(
                    s,
                    r,
                    0,
                    Seq::empty(),
                ),
            decreases n - x,
        {
            let y: usize = route[x] + 1;
            let ghost before = views(words@);
            let ghost rest = plain_tokens(s, r, y as int, Seq::empty());
            let ghost pending = buf@;
            let ghost whole = plain_tokens(s, r, 0, Seq::empty());
            assert(x as int <= r[x as int] < s.len());
            if y == x + 1 && ascii_alnum(chars[x]) {
                buf.push(chars[x]);
                assert(plain_tokens(s, r, x as int, pending) == plain_tokens(s, r, y as int, buf@));
            } else {
                assert(plain_tokens(s, r, x as int, pending) == flush_plain(pending).push(
                    s.subrange(x as int, y as int),
                ) + rest);
                if buf.len() > 0 {
                    let t = to_string(&buf, 0, buf.len());
                    assert(t@ =~= buf@);
                    proof {
                        lemma_views_push(words@, t);
                    }
                    words.push(t);
                    buf = Vec::new();
                }
                let w = to_string(chars, x, y);
                proof {
                    lemma_views_push(words@, w);
                }
                words.push(w);
                assert(views(words@) + rest =~= before + (flush_plain(pending).push(
                    s.subrange(x as int, y as int),
                ) + rest));
                assert(buf@ =~= Seq::<char>::empty());
                assert(views(words@) + plain_tokens(s, r, y as int, buf@) == whole);
            }
            x = y;
        }
        if buf.len() > 0 {
            let t = to_string(&buf, 0, buf.len());
            assert(t@ =~= buf@);
            proof {
                lemma_views_push(words@, t);
            }
            words.push(t);
        }
        proof {
            assert(views(words@) =~= plain_tokens(s, r, 0, Seq::empty()));
            lemma_plain_tokens(s, r, 0, Seq::empty());
            assert(Seq::<char>::empty() + s.subrange(0, n as int) =~= s);
        }
        words
    }
}

proof fn lemma_piece_views_push(ps: Seq<Piece>, p: Piece)
    ensures
        piece_views(ps.push(p)) == piece_views(ps).push(p@),
{
    assert(piece_views(ps.push(p)) =~= piece_views(ps).push(p@));
}

impl Jieba {
    /// Appends to `pieces` what becomes of the pending run `buf`.
    fn flush_into(&self, pieces: &mut Vec<Piece>, buf: &Vec<char>)
        ensures
            piece_views(final(pieces)@) == piece_views(old(pieces)@) + flush_run(
                self.entries(),
                buf@,
            ),
    {
        let ghost before = piece_views(pieces@);
        let n: usize = buf.len();
        if n == 0 {
            assert(piece_views(pieces@) =~= before + flush_run(self.entries(), buf@));
        } else if n == 1 || self.get_chars(buf).is_none() {
            let t = to_string(buf, 0, n);
            assert(t@ =~= buf@);
            let p = Piece { text: t, settled: n == 1 };
            proof {
                lemma_piece_views_push(pieces@, p);
            }
            pieces.push(p);
            assert(piece_views(pieces@) =~= before + flush_run(self.entries(), buf@));
        } else {
            let mut i: usize = 0;
            while i < n
                invariant
                    n == buf.len(),
                    i <= n,
                    piece_views(pieces@) == before + singles(buf@).subrange(0, i as int),
                decreases n - i,
            {
                let t = to_string(buf, i, i + 1);
                assert(t@ =~= seq![buf@[i as int]]);
                let p = Piece { text: t, settled: true };
                proof {
                    lemma_piece_views_push(pieces@, p);
                }
                pieces.push(p);
                i += 1;
                assert(piece_views(pieces@) =~= before + singles(buf@).subrange(0, i as int));
            }
            assert(singles(buf@).subrange(0, n as int) =~= singles(buf@));
        }
    }

    /// Walks the route and gathers chosen words of one character into runs;
    /// a run that the dictionary does not store is left open for a model of
    /// unknown words to divide.
    pub fn cut_dag_hmm(&self, chars: &Vec<char>, route: &Vec<usize>) -> (pieces: Vec<Piece>)
        requires
            valid_route(route@, chars@.len()),
        ensures
            piece_views(pieces@) == run_pieces(self.entries(), chars@, route@, 0, Seq::empty()),
            concat(texts(piece_views(pieces@))) == chars@,
            all_nonempty(texts(piece_views(pieces@))),
    {
        let ghost m = self.entries();
        let ghost s = chars@;
        let ghost r = route@;
        let ghost whole = run_pieces(m, s, r, 0, Seq::empty());
        let n: usize = chars.len();
        let mut pieces: Vec<Piece> = Vec::new();
        let mut buf: Vec<char> = Vec::new();
        let mut x: usize = 0;
        assert(piece_views(pieces@) =~= Seq::<(Seq<char>, bool)>::empty());
        assert(piece_views(pieces@) + run_pieces(m, s, r, 0, buf@) =~= whole);
        while x < n
            invariant
                s == chars@,
                r == route@,
                m == self.entries(),
                whole == run_pieces(m, s, r, 0, Seq::empty()),
                n == s.len(),
                valid_route(r, s.len()),
                x <= n,
                piece_views(pieces@) + run_pieces(m, s, r, x as int, buf@) == whole,
            decreases n - x,
        {
            let y: usize = route[x] + 1;
            let ghost before = piece_views(pieces@);
            let ghost pending = buf@;
            let ghost rest = run_pieces(m, s, r, y as int, Seq::empty());
            assert(x as int <= r[x as int] < s.len());
            if y == x + 1 {
                buf.push(chars[x]);
                assert(run_pieces(m, s, r, x as int, pending) == run_pieces(m, s, r, y as int, buf@));
            } else {
                assert(run_pieces(m, s, r, x as int, pending) == flush_run(m, pending).push(
                    (s.subrange(x as int, y as int), true),
                ) + rest);
                self.flush_into(&mut pieces, &buf);
                buf = Vec::new();
                let p = Piece { text: to_string(chars, x, y), settled: true };
                proof {
                    lemma_piece_views_push(pieces@, p);
                }
                pieces.push(p);
                assert(piece_views(pieces@) + rest =~= before + (flush_run(m, pending).push(
                    (s.subrange(x as int, y as int), true),
                ) + rest));
                assert(buf@ =~= Seq::<char>::empty());
                assert(piece_views(pieces@) + run_pieces(m, s, r, y as int, buf@) == whole);
            }
            x = y;
        }
        self.flush_into(&mut pieces, &buf);
        proof {
            assert(piece_views(pieces@) =~= whole);
            lemma_run_pieces(m, s, r, 0, Seq::empty());
            assert(Seq::<char>::empty() + s.subrange(0, n as int) =~= s);
        }
        pieces
    }
}

} // verus!
