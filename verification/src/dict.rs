//! The dictionary store: words with their frequencies, closed under prefixes.

use vstd::prelude::*;
use radix_trie::Trie;
use crate::text::to_chars;

verus! {

/// `radix_trie::Trie`, the radix tree that holds the dictionary.
#[verifier::external_type_specification]
#[verifier::external_body]
#[verifier::reject_recursive_types(K)]
#[verifier::reject_recursive_types(V)]
pub struct ExTrie<K, V>(Trie<K, V>);

/// The key-value pairs that a trie holds, each key as its characters.
pub uninterp spec fn trie_entries(t: Trie<String, usize>) -> Map<Seq<char>, usize>;

/// The dictionary without any entry.
pub open spec fn no_entries() -> Map<Seq<char>, usize> {
    Map::empty()
}

/// `Trie::new`: a trie that holds nothing.
#[verifier::external_body]
fn trie_new() -> (t: Trie<String, usize>)
    ensures
        trie_entries(t) == no_entries(),
{
    Trie::new()
}

/// `Trie::get`: the value stored under exactly this key, if the key is stored.
#[verifier::external_body]
fn trie_get(t: &Trie<String, usize>, key: &Vec<char>) -> (r: Option<usize>)
    ensures
        r == (if trie_entries(*t).contains_key(key@) {
            Some(trie_entries(*t)[key@])
        } else {
            None
        }),
{
    let k: String = key.iter().collect();
    t.get(&k).copied()
}

/// `Trie::insert`: stores the value under the key, replacing what the key had,
/// and returns the value that was replaced.
#[verifier::external_body]
fn trie_insert(t: &mut Trie<String, usize>, key: &Vec<char>, value: usize) -> (r: Option<usize>)
    ensures
        trie_entries(*final(t)) == trie_entries(*old(t)).insert(key@, value),
        r == (if trie_entries(*old(t)).contains_key(key@) {
            Some(trie_entries(*old(t))[key@])
        } else {
            None
        }),
{
    let k: String = key.iter().collect();
    t.insert(k, value)
}

/// Every non-empty strict prefix of a key is a key as well.
pub open spec fn prefix_closed(m: Map<Seq<char>, usize>) -> bool {
    forall|w: Seq<char>, j: int|
        m.contains_key(w) && 0 < j < w.len() ==> m.contains_key(#[trigger] w.subrange(0, j))
}

/// `k` is a non-empty strict prefix of `word`.
pub open spec fn is_strict_prefix(k: Seq<char>, word: Seq<char>) -> bool {
    0 < k.len() < word.len() && k == word.subrange(0, k.len() as int)
}

/// The entries after `word` was stored with `freq`: the word has that
/// frequency, each of its non-empty strict prefixes that was absent has
/// frequency 0, and everything else is as it was.
pub open spec fn with_word(m: Map<Seq<char>, usize>, word: Seq<char>, freq: usize) -> Map<
    Seq<char>,
    usize,
> {
    Map::new(
        |k: Seq<char>| m.contains_key(k) || k == word || is_strict_prefix(k, word),
        |k: Seq<char>|
            if k == word {
                freq
            } else if m.contains_key(k) {
                m[k]
            } else {
                0usize
            },
    )
}

/// In a dictionary closed under prefixes every non-empty strict prefix of a
/// word of positive frequency is stored.
pub proof fn lemma_prefixes_stored(m: Map<Seq<char>, usize>, w: Seq<char>, p: Seq<char>)
    requires
        prefix_closed(m),
        m.contains_key(w),
        m[w] > 0,
        is_strict_prefix(p, w),
    ensures
        m.contains_key(p),
{
    assert(p == w.subrange(0, p.len() as int));
}

/// The frequency that a candidate word is scored with.
pub open spec fn scoring_freq(m: Map<Seq<char>, usize>, word: Seq<char>) -> usize {
    if m.contains_key(word) && m[word] > 0 {
        m[word]
    } else {
        1
    }
}

/// The segmenter: the dictionary and the sum of the frequencies loaded into it.
pub struct Jieba {
    freq: Trie<String, usize>,
    total: usize,
}

impl Jieba {
    /// The dictionary as a map from a word's characters to its frequency;
    /// frequency 0 marks a prefix that is no word itself.
    pub closed spec fn entries(&self) -> Map<Seq<char>, usize> {
        trie_entries(self.freq)
    }

    /// The sum of the frequencies loaded.
    pub closed spec fn total_freq(&self) -> nat {
        self.total as nat
    }

    /// The dictionary is closed under prefixes.
    pub open spec fn wf(&self) -> bool {
        prefix_closed(self.entries())
    }

    /// A segmenter with an empty dictionary.
    pub fn empty() -> (r: Jieba)
        ensures
            r.wf(),
            r.entries() == no_entries(),
            r.total_freq() == 0,
    {
        Jieba { freq: trie_new(), total: 0 }
    }

    /// Replaces the sum of the frequencies.
    pub(crate) fn set_total(&mut self, total: usize)
        ensures
            final(self).entries() == old(self).entries(),
            final(self).total_freq() == total,
    {
        self.total = total;
    }

    /// The sum of the frequencies loaded.
    pub fn total(&self) -> (r: usize)
        ensures
            r == self.total_freq(),
    {
        self.total
    }

    /// The frequency stored for exactly these characters.
    pub fn get_chars(&self, word: &Vec<char>) -> (r: Option<usize>)
        ensures
            r == (if self.entries().contains_key(word@) {
                Some(self.entries()[word@])
            } else {
                None
            }),
    {
        trie_get(&self.freq, word)
    }

    /// The frequency that a candidate word is scored with: its own where it
    /// is positive, and 1 where the text is not stored or stored as a prefix
    /// only.
    pub fn weight(&self, word: &Vec<char>) -> (r: usize)
        ensures
            r == scoring_freq(self.entries(), word@),
            r > 0,
    {
        match trie_get(&self.freq, word) {
            Some(f) => if f > 0 {
                f
            } else {
                1
            },
            None => 1,
        }
    }

    /// Exact lookup of a word.
    pub fn get(&self, word: &str) -> (r: Option<usize>)
        ensures
            r == (if self.entries().contains_key(word@) {
                Some(self.entries()[word@])
            } else {
                None
            }),
    {
        let w = to_chars(word);
        trie_get(&self.freq, &w)
    }

    /// Whether the text is stored, as a word or as the prefix of one.
    pub fn has_prefix(&self, prefix: &str) -> (r: bool)
        ensures
            r == self.entries().contains_key(prefix@),
    {
        let w = to_chars(prefix);
        trie_get(&self.freq, &w).is_some()
    }

    /// Stores a word with its frequency, marks its prefixes, and adds the
    /// frequency to the total.
    pub fn insert_chars(&mut self, word: &Vec<char>, freq: usize)
        requires
            old(self).wf(),
            old(self).total_freq() + freq <= usize::MAX,
        ensures
            final(self).wf(),
            final(self).entries() == with_word(old(self).entries(), word@, freq),
            final(self).total_freq() == old(self).total_freq() + freq,
    {
        self.store(word, freq);
        self.total = self.total + freq;
    }

    /// Stores a word with its frequency, marks its prefixes, and adds the
    /// frequency to the total.
    pub fn insert(&mut self, word: &str, freq: usize)
        requires
            old(self).wf(),
            old(self).total_freq() + freq <= usize::MAX,
        ensures
            final(self).wf(),
            final(self).entries() == with_word(old(self).entries(), word@, freq),
            final(self).total_freq() == old(self).total_freq() + freq,
    {
        let w = to_chars(word);
        self.insert_chars(&w, freq);
    }

    /// Stores a word with its frequency and marks its prefixes.
    pub(crate) fn store(&mut self, word: &Vec<char>, freq: usize)
        requires
            old(self).wf(),
        ensures
            final(self).wf(),
            final(self).entries() == with_word(old(self).entries(), word@, freq),
            final(self).total_freq() == old(self).total_freq(),
    {
        let ghost m0 = self.entries();
        let n: usize = word.len();
        trie_insert(&mut self.freq, word, freq);
        let mut probe: Vec<char> = Vec::new();
        let mut i: usize = 1;
        if n > 0 {
            probe.push(word[0]);
        }
        assert(n > 0 ==> probe@ =~= word@.subrange(0, 1));
        while i < n
            invariant
                n == word.len(),
                1 <= i,
                i <= n || i == 1,
                n > 0 ==> i <= n && probe@ == word@.subrange(0, i as int),
                self.total == old(self).total,
                forall|k: Seq<char>| #[trigger]
                    self.entries().contains_key(k) <==> (m0.contains_key(k) || k == word@ || (0
                        < k.len() < i && k == word@.subrange(0, k.len() as int))),
                forall|k: Seq<char>| #[trigger]
                    self.entries().contains_key(k) ==> self.entries()[k] == (if k == word@ {
                        freq
                    } else if m0.contains_key(k) {
                        m0[k]
                    } else {
                        0usize
                    }),
            decreases n - i,
        {
            let ghost m1 = self.entries();
            if trie_get(&self.freq, &probe).is_none() {
                trie_insert(&mut self.freq, &probe, 0);
            }
            assert(self.entries().contains_key(probe@));
            assert(forall|k: Seq<char>| #[trigger]
                self.entries().contains_key(k) <==> (m1.contains_key(k) || k == probe@));
            probe.push(word[i]);
            assert(probe@ =~= word@.subrange(0, i + 1));
            i += 1;
        }
        proof {
            assert(word@.subrange(0, n as int) =~= word@);
            let m2 = self.entries();
            let target = with_word(m0, word@, freq);
            assert forall|k: Seq<char>| #[trigger] m2.contains_key(k) implies target.contains_key(k) by {
                if !m0.contains_key(k) && k != word@ {
                    assert(0 < k.len() < i && k == word@.subrange(0, k.len() as int));
                    assert(is_strict_prefix(k, word@));
                }
            }
            assert forall|k: Seq<char>| #[trigger] target.contains_key(k) implies m2.contains_key(k) by {}
            assert(m2 =~= target);
            assert forall|w: Seq<char>, j: int| m2.contains_key(w) && 0 < j < w.len() implies m2.contains_key(
                #[trigger] w.subrange(0, j),
            ) by {
                let p = w.subrange(0, j);
                if m0.contains_key(w) {
                    assert(m0.contains_key(p));
                } else {
                    assert(w == word@.subrange(0, w.len() as int));
                    assert(p =~= word@.subrange(0, j));
                }
            }
        }
    }
}

} // verus!
