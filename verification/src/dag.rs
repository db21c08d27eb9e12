//! The word graph of a sentence: for each position, where a dictionary word
//! that starts there may end.

use vstd::prelude::*;
use crate::dict::{Jieba, prefix_closed};
use crate::ends::Ends;

verus! {

/// The characters from position `k` to position `e`, both included.
pub open spec fn frag(s: Seq<char>, k: int, e: int) -> Seq<char> {
    s.subrange(k, e + 1)
}

/// Every fragment that starts at `k` and ends before `i` is stored, so a scan
/// that extends the fragment one character at a time gets as far as `i`.
pub open spec fn reaches(m: Map<Seq<char>, usize>, s: Seq<char>, k: int, i: int) -> bool {
    forall|j: int| k <= j < i ==> m.contains_key(#[trigger] frag(s, k, j))
}

/// The fragment from `k` to `e` is a word of positive frequency that the scan
/// from `k` gets to.
pub open spec fn word_end(m: Map<Seq<char>, usize>, s: Seq<char>, k: int, e: int) -> bool {
    &&& 0 <= k <= e < s.len()
    &&& reaches(m, s, k, e)
    &&& m.contains_key(frag(s, k, e))
    &&& m[frag(s, k, e)] > 0
}

/// Some word starts at `k`.
pub open spec fn has_word(m: Map<Seq<char>, usize>, s: Seq<char>, k: int) -> bool {
    exists|e: int| word_end(m, s, k, e)
}

/// `e` is an end position for `k`: the end of a word that starts at `k`, or
/// `k` itself where no word starts at `k`.
pub open spec fn is_end(m: Map<Seq<char>, usize>, s: Seq<char>, k: int, e: int) -> bool {
    word_end(m, s, k, e) || (e == k && !has_word(m, s, k))
}

pub open spec fn strictly_increasing(l: Seq<usize>) -> bool {
    forall|i: int, j: int| 0 <= i < j < l.len() ==> l[i] < l[j]
}

/// `l` lists the end positions for `k`, each once, in ascending order.
pub open spec fn is_ends(m: Map<Seq<char>, usize>, s: Seq<char>, k: int, l: Seq<usize>) -> bool {
    &&& strictly_increasing(l)
    &&& forall|e: usize| l.contains(e) <==> is_end(m, s, k, e as int)
}

/// `d` is the word graph of the sentence `s` over the dictionary `m`.
pub open spec fn is_dag(m: Map<Seq<char>, usize>, s: Seq<char>, d: Seq<Ends>) -> bool {
    &&& d.len() == s.len()
    &&& forall|k: int| 0 <= k < d.len() ==> is_ends(m, s, k, (#[trigger] d[k])@)
}

/// The list is not empty, ascends strictly, and holds only positions from `k`
/// up to `n`.
pub open spec fn ends_shape(l: Seq<usize>, k: int, n: int) -> bool {
    &&& l.len() > 0
    &&& strictly_increasing(l)
    &&& forall|i: int| 0 <= i < l.len() ==> k <= #[trigger] l[i] < n
}

/// The list of end positions of any position of the sentence is not empty,
/// ascends strictly, and holds only positions from `k` to the last one.
pub proof fn lemma_ends_shape(m: Map<Seq<char>, usize>, s: Seq<char>, k: int, l: Seq<usize>)
    requires
        0 <= k < s.len(),
        s.len() <= usize::MAX,
        is_ends(m, s, k, l),
    ensures
        ends_shape(l, k, s.len() as int),
{
    if has_word(m, s, k) {
        let e = choose|e: int| word_end(m, s, k, e);
        assert(is_end(m, s, k, e as usize as int));
        assert(l.contains(e as usize));
    } else {
        assert(is_end(m, s, k, k as usize as int));
        assert(l.contains(k as usize));
    }
    assert forall|i: int| 0 <= i < l.len() implies k <= #[trigger] l[i] < s.len() by {
        assert(l.contains(l[i]));
        assert(is_end(m, s, k, l[i] as int));
    }
}

/// In a dictionary closed under prefixes the scan reaches every stored
/// fragment, so the word ends at `k` are all the positions `e` for which the
/// fragment from `k` to `e` has a positive frequency.
pub proof fn lemma_closed_word_end(m: Map<Seq<char>, usize>, s: Seq<char>, k: int, e: int)
    requires
        prefix_closed(m),
    ensures
        word_end(m, s, k, e) <==> (0 <= k <= e < s.len() && m.contains_key(frag(s, k, e)) && m[frag(
            s,
            k,
            e,
        )] > 0),
{
    if 0 <= k <= e < s.len() && m.contains_key(frag(s, k, e)) {
        let w = frag(s, k, e);
        assert forall|j: int| k <= j < e implies m.contains_key(#[trigger] frag(s, k, j)) by {
            assert(w.subrange(0, j + 1 - k) =~= frag(s, k, j));
        }
    }
}

/// Two strictly ascending lists with the same members are the same list.
pub proof fn lemma_ascending_unique(a: Seq<usize>, b: Seq<usize>)
    requires
        strictly_increasing(a),
        strictly_increasing(b),
        forall|e: usize| a.contains(e) <==> b.contains(e),
    ensures
        a == b,
    decreases a.len(),
{
    if a.len() == 0 {
        if b.len() > 0 {
            assert(b.contains(b[0]));
        }
        assert(a =~= b);
    } else {
        assert(a.contains(a.last()));
        let jb = choose|j: int| 0 <= j < b.len() && b[j] == a.last();
        assert(b.contains(b.last()));
        let ja = choose|j: int| 0 <= j < a.len() && a[j] == b.last();
        assert(a.last() == b.last());
        let a1 = a.drop_last();
        let b1 = b.drop_last();
        assert forall|e: usize| a1.contains(e) <==> b1.contains(e) by {
            if a1.contains(e) {
                let i = choose|i: int| 0 <= i < a1.len() && a1[i] == e;
                assert(a[i] == e);
                assert(a.contains(e));
                let j = choose|j: int| 0 <= j < b.len() && b[j] == e;
                assert(e < a.last());
                assert(b1[j] == e);
            }
            if b1.contains(e) {
                let i = choose|i: int| 0 <= i < b1.len() && b1[i] == e;
                assert(b[i] == e);
                assert(b.contains(e));
                let j = choose|j: int| 0 <= j < a.len() && a[j] == e;
                assert(e < b.last());
                assert(a1[j] == e);
            }
        }
        lemma_ascending_unique(a1, b1);
        assert(a =~= a1.push(a.last()));
        assert(b =~= b1.push(b.last()));
    }
}

/// A sentence has one word graph over a dictionary: two graphs of it list the
/// same ends at every position.
pub proof fn lemma_dag_unique(
    m: Map<Seq<char>, usize>,
    s: Seq<char>,
    d1: Seq<Ends>,
    d2: Seq<Ends>,
)
    requires
        is_dag(m, s, d1),
        is_dag(m, s, d2),
    ensures
        d1.len() == d2.len(),
        forall|k: int| 0 <= k < d1.len() ==> (#[trigger] d1[k])@ == d2[k]@,
{
    assert forall|k: int| 0 <= k < d1.len() implies (#[trigger] d1[k])@ == d2[k]@ by {
        assert(is_ends(m, s, k, d1[k]@));
        assert(is_ends(m, s, k, d2[k]@));
        lemma_ascending_unique(d1[k]@, d2[k]@);
    }
}

impl Jieba {
    /// The end positions for the start `k`.
    pub fn ends(&self, chars: &Vec<char>, k: usize) -> (list: Ends)
        requires
            k < chars.len(),
        ensures
            is_ends(self.entries(), chars@, k as int, list@),
            ends_shape(list@, k as int, chars@.len() as int),
    {
        let ghost m = self.entries();
        let ghost s = chars@;
        let n: usize = chars.len();
        let mut list: Ends = Ends::new();
        let mut probe: Vec<char> = Vec::new();
        let mut i: usize = k;
        let mut live: bool = true;
        assert(probe@ =~= s.subrange(k as int, i as int));
        while live && i < n
            invariant
                n == s.len(),
                s == chars@,
                m == self.entries(),
                k <= i <= n,
                live ==> probe@ == s.subrange(k as int, i as int),
                reaches(m, s, k as int, i as int),
                strictly_increasing(list@),
                forall|x: int|
                    0 <= x < list@.len() ==> k <= #[trigger] list@[x] < i && word_end(
                        m,
                        s,
                        k as int,
                        list@[x] as int,
                    ),
                forall|e: int|
                    k <= e < i && #[trigger] word_end(m, s, k as int, e) ==> list@.contains(
                        e as usize,
                    ),
                !live ==> i < n && !m.contains_key(frag(s, k as int, i as int)),
            decreases (if live { 1int } else { 0int }) + n - i,
        {
            probe.push(chars[i]);
            assert(probe@ =~= frag(s, k as int, i as int));
            match self.get_chars(&probe) {
                Some(f) => {
                    let ghost before = list@;
                    if f > 0 {
                        list.push(i);
                        assert(list@[list@.len() - 1] == i);
                    }
                    assert forall|e: int|
                        k <= e < i + 1 && #[trigger] word_end(m, s, k as int, e) implies list@.contains(
                        e as usize,
                    ) by {
                        if e < i {
                            assert(before.contains(e as usize));
                            let x = choose|x: int| 0 <= x < before.len() && before[x] == e as usize;
                            assert(list@[x] == e as usize);
                        } else {
                            assert(list@[list@.len() - 1] == i);
                        }
                    }
                    i += 1;
                },
                None => {
                    live = false;
                },
            }
        }
        proof {
            assert forall|e: int| word_end(m, s, k as int, e) implies k <= e < i by {
                if e >= i {
                    assert(!live);
                    if e > i {
                        assert(m.contains_key(frag(s, k as int, i as int)));
                    }
                }
            }
        }
        if list.count() == 0 {
            proof {
                assert forall|e: int| !word_end(m, s, k as int, e) by {
                    if word_end(m, s, k as int, e) {
                        assert(list@.contains(e as usize));
                    }
                }
            }
            list.push(k);
            assert(list@[0] == k);
            assert forall|e: usize| list@.contains(e) <==> is_end(m, s, k as int, e as int) by {
                if list@.contains(e) {
                    let x = choose|x: int| 0 <= x < list@.len() && list@[x] == e;
                }
            }
        } else {
            proof {
                assert(word_end(m, s, k as int, list@[0] as int));
                assert(has_word(m, s, k as int));
                assert forall|e: usize| list@.contains(e) <==> is_end(m, s, k as int, e as int) by {
                    if list@.contains(e) {
                        let x = choose|x: int| 0 <= x < list@.len() && list@[x] == e;
                    }
                    if is_end(m, s, k as int, e as int) {
                        assert(word_end(m, s, k as int, e as int));
                    }
                }
            }
        }
        proof {
            lemma_ends_shape(m, s, k as int, list@);
        }
        list
    }

    /// The word graph of a sentence: the end positions for each start.
    pub fn dag(&self, chars: &Vec<char>) -> (d: Vec<Ends>)
        ensures
            is_dag(self.entries(), chars@, d@),
            forall|k: int|
                0 <= k < d@.len() ==> ends_shape((#[trigger] d@[k])@, k, chars@.len() as int),
    {
        let n: usize = chars.len();
        let mut d: Vec<Ends> = Vec::new();
        let mut k: usize = 0;
        while k < n
            invariant
                n == chars.len(),
                k <= n,
                d.len() == k,
                forall|x: int| 0 <= x < d.len() ==> is_ends(self.entries(), chars@, x, (#[trigger] d[x])@),
                forall|x: int| 0 <= x < d.len() ==> ends_shape((#[trigger] d[x])@, x, n as int),
            decreases n - k,
        {
            let list = self.ends(chars, k);
            d.push(list);
            k += 1;
        }
        d
    }
}

} // verus!
