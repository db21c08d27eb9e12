//! The full cut: every word of the word graph that is longer than one
//! character, and the single characters that no such word covers.

use vstd::prelude::*;
use crate::dag::{frag, is_dag, lemma_ends_shape};
use crate::dict::Jieba;
use crate::ends::Ends;
use crate::text::{views, to_chars, to_string, lemma_views_push};

verus! {

/// The words from `k` to the ends `l[i..]` that lie behind `k`.
pub open spec fn longer_words(s: Seq<char>, k: int, l: Seq<usize>, i: int) -> Seq<Seq<char>>
    decreases l.len() - i,
{
    if i < 0 || i >= l.len() {
        Seq::empty()
    } else if k < l[i] < s.len() {
        seq![frag(s, k, l[i] as int)] + longer_words(s, k, l, i + 1)
    } else {
        longer_words(s, k, l, i + 1)
    }
}

/// The last of the ends `l[..i]` that lies behind `k`, or `last` where there
/// is none.
pub open spec fn last_longer(k: int, l: Seq<usize>, i: int, last: int) -> int
    decreases i,
{
    if i <= 0 || i > l.len() {
        last
    } else if l[i - 1] > k {
        l[i - 1] as int
    } else {
        last_longer(k, l, i - 1, last)
    }
}

/// The words of the full cut from position `k` on, where `last` is the end of
/// the word given out last (-1 before the first): a position with one end
/// that lies behind `last` gives that one word; any other position gives its
/// words of more than one character.
pub open spec fn all_words(s: Seq<char>, d: Seq<Ends>, k: int, last: int) -> Seq<Seq<char>>
    decreases s.len() - k,
{
    if k < 0 || k >= s.len() || k >= d.len() {
        Seq::empty()
    } else {
        let l = d[k]@;
        if l.len() == 1 && k > last && k <= l[0] < s.len() {
            seq![frag(s, k, l[0] as int)] + all_words(s, d, k + 1, l[0] as int)
        } else {
            longer_words(s, k, l, 0) + all_words(s, d, k + 1, last_longer(k, l, l.len() as int, last))
        }
    }
}

impl Jieba {
    /// The full cut of a sentence over its word graph.
    pub fn cut_all_internal(&self, sentence: &str) -> (words: Vec<String>)
        ensures
            exists|d: Seq<Ends>|
                is_dag(self.entries(), sentence@, d) && views(words@) == all_words(
                    sentence@,
                    d,
                    0,
                    -1,
                ),
    {
        let chars = to_chars(sentence);
        let dag = self.dag(&chars);
        let ghost s = chars@;
        let ghost d = dag@;
        let ghost whole = all_words(s, d, 0, -1);
        let n: usize = chars.len();
        let mut words: Vec<String> = Vec::new();
        let mut seen: bool = false;
        let mut last: usize = 0;
        let mut k: usize = 0;
        assert(views(words@) + all_words(s, d, 0, -1) =~= whole);
        while k < n
            invariant
                s == chars@,
                d == dag@,
                n == s.len(),
                is_dag(self.entries(), s, d),
                whole == all_words(s, d, 0, -1),
                k <= n,
                views(words@) + all_words(s, d, k as int, if seen { last as int } else { -1 }) == whole,
            decreases n - k,
        {
            let list = &dag[k];
            let ghost l = list@;
            let ghost before = views(words@);
            let ghost last0 = if seen { last as int } else { -1 };
            proof {
                lemma_ends_shape(self.entries(), s, k as int, l);
            }
            if list.count() == 1 && (!seen || k > last) {
                let e: usize = list.at(0);
                let w = to_string(&chars, k, e + 1);
                proof {
                    lemma_views_push(words@, w);
                }
                words.push(w);
                seen = true;
                last = e;
                assert(views(words@) + all_words(s, d, k + 1, e as int) =~= before + (seq![
                    frag(s, k as int, e as int),
                ] + all_words(s, d, k + 1, e as int)));
            } else {
                let m: usize = list.count();
                let mut i: usize = 0;
                assert(views(words@) + longer_words(s, k as int, l, 0) =~= before + longer_words(
                    s,
                    k as int,
                    l,
                    0,
                ));
                while i < m
                    invariant
                        s == chars@,
                        n == s.len(),
                        k < n,
                        l == list@,
                        m == l.len(),
                        i <= m,
                        forall|j: int| 0 <= j < l.len() ==> k <= #[trigger] l[j] < s.len(),
                        views(words@) + longer_words(s, k as int, l, i as int) == before
                            + longer_words(s, k as int, l, 0),
                        (if seen { last as int } else { -1 }) == last_longer(
                            k as int,
                            l,
                            i as int,
                            last0,
                        ),
                    decreases m - i,
                {
                    let e: usize = list.at(i);
                    let ghost mid = views(words@);
                    if e > k {
                        let w = to_string(&chars, k, e + 1);
                        proof {
                            lemma_views_push(words@, w);
                        }
                        words.push(w);
                        seen = true;
                        last = e;
                        assert(views(words@) + longer_words(s, k as int, l, i + 1) =~= mid + (seq![
                            frag(s, k as int, e as int),
                        ] + longer_words(s, k as int, l, i + 1)));
                    }
                    i += 1;
                }
                assert(longer_words(s, k as int, l, m as int) =~= Seq::<Seq<char>>::empty());
                assert(views(words@) =~= before + longer_words(s, k as int, l, 0));
                let ghost last1 = if seen { last as int } else { -1 };
                assert(views(words@) + all_words(s, d, k + 1, last1) =~= before + (longer_words(
                    s,
                    k as int,
                    l,
                    0,
                ) + all_words(s, d, k + 1, last1)));
            }
            k += 1;
        }
        assert(views(words@) =~= whole);
        words
    }
}

} // verus!
