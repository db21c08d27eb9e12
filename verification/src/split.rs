//! The division of a text into blocks by character class, and the tokens of
//! the blocks that no dictionary is asked about.

use vstd::prelude::*;
use crate::classes::{is_dict_char, is_space, dict_char, space};
use crate::text::{concat, views, all_nonempty, to_string, lemma_views_push, lemma_concat_add};

verus! {

/// A block of a text: the positions from `start` up to `end`, which all hold
/// characters for the dictionary (`dict`) or all hold others.
#[derive(Clone, Copy, Debug, PartialEq, Eq, Structural)]
pub struct Block {
    pub start: usize,
    pub end: usize,
    pub dict: bool,
}

/// `blocks` divides `s` into its maximal runs of one class: the blocks are not
/// empty, follow one another from the first position to the last, each holds
/// characters of its class only, and neighbours differ in class.
pub open spec fn is_blocks(s: Seq<char>, blocks: Seq<Block>) -> bool {
    &&& blocks.len() == 0 <==> s.len() == 0
    &&& blocks.len() > 0 ==> blocks[0].start == 0 && blocks.last().end == s.len()
    &&& forall|i: int|
        0 <= i < blocks.len() ==> (#[trigger] blocks[i]).start < blocks[i].end <= s.len()
    &&& forall|i: int, j: int|
        0 <= i < blocks.len() && blocks[i].start <= j < blocks[i].end ==> is_dict_char(
            #[trigger] s[j],
        ) == (#[trigger] blocks[i]).dict
    &&& forall|i: int|
        0 <= i < blocks.len() - 1 ==> (#[trigger] blocks[i]).end == blocks[i + 1].start
            && blocks[i].dict != blocks[i + 1].dict
}

proof fn lemma_blocks_agree(s: Seq<char>, b1: Seq<Block>, b2: Seq<Block>, i: int)
    requires
        is_blocks(s, b1),
        is_blocks(s, b2),
        0 <= i < b1.len(),
        i < b2.len(),
    ensures
        b1[i] == b2[i],
    decreases i,
{
    if i > 0 {
        lemma_blocks_agree(s, b1, b2, i - 1);
        assert(b1[i - 1].end == b1[i].start);
        assert(b2[i - 1].end == b2[i].start);
    }
    let x = b1[i].start as int;
    assert(b2[i].start == x);
    assert(is_dict_char(s[x]) == b1[i].dict);
    assert(is_dict_char(s[x]) == b2[i].dict);
    lemma_block_end(s, b1, b2, i);
    lemma_block_end(s, b2, b1, i);
}

proof fn lemma_block_end(s: Seq<char>, b1: Seq<Block>, b2: Seq<Block>, i: int)
    requires
        is_blocks(s, b1),
        is_blocks(s, b2),
        0 <= i < b1.len(),
        i < b2.len(),
        b1[i].start == b2[i].start,
        b1[i].dict == b2[i].dict,
    ensures
        b1[i].end >= b2[i].end,
{
    let e = b1[i].end as int;
    if e < b2[i].end {
        assert(is_dict_char(s[e]) == b2[i].dict);
        if i == b1.len() - 1 {
            assert(b1.last().end == s.len());
        } else {
            assert(b1[i].end == b1[i + 1].start);
            assert(is_dict_char(s[e]) == b1[i + 1].dict);
        }
    }
}

/// A text has one division into blocks.
pub proof fn lemma_blocks_unique(s: Seq<char>, b1: Seq<Block>, b2: Seq<Block>)
    requires
        is_blocks(s, b1),
        is_blocks(s, b2),
    ensures
        b1 == b2,
{
    lemma_blocks_count(s, b1, b2);
    lemma_blocks_count(s, b2, b1);
    assert forall|i: int| 0 <= i < b1.len() implies b1[i] == b2[i] by {
        lemma_blocks_agree(s, b1, b2, i);
    }
    assert(b1 =~= b2);
}

proof fn lemma_blocks_count(s: Seq<char>, b1: Seq<Block>, b2: Seq<Block>)
    requires
        is_blocks(s, b1),
        is_blocks(s, b2),
    ensures
        b1.len() >= b2.len(),
{
    if 0 < b1.len() < b2.len() {
        let i = b1.len() - 1;
        lemma_blocks_agree(s, b1, b2, i);
        assert(b1.last().end == s.len());
        assert(b2[i].end == b2[i + 1].start);
        assert(b2[i + 1].start < b2[i + 1].end <= s.len());
    }
}

/// Divides a text into blocks for the dictionary and other blocks.
pub fn split_blocks(chars: &Vec<char>) -> (blocks: Vec<Block>)
    ensures
        is_blocks(chars@, blocks@),
{
    let ghost s = chars@;
    let n: usize = chars.len();
    let mut blocks: Vec<Block> = Vec::new();
    let mut x: usize = 0;
    while x < n
        invariant
            s == chars@,
            n == s.len(),
            x <= n,
            blocks.len() == 0 <==> x == 0,
            blocks.len() > 0 ==> blocks[0].start == 0 && blocks@.last().end == x,
            blocks.len() > 0 && x < n ==> blocks@.last().dict != is_dict_char(s[x as int]),
            forall|i: int| 0 <= i < blocks.len() ==> (#[trigger] blocks[i]).start < blocks[i].end <= x,
            forall|i: int, j: int|
                0 <= i < blocks.len() && blocks[i].start <= j < blocks[i].end ==> is_dict_char(
                    #[trigger] s[j],
                ) == (#[trigger] blocks[i]).dict,
            forall|i: int|
                0 <= i < blocks.len() - 1 ==> (#[trigger] blocks[i]).end == blocks[i + 1].start
                    && blocks[i].dict != blocks[i + 1].dict,
        decreases n - x,
    {
        let kind: bool = dict_char(chars[x]);
        let mut y: usize = x + 1;
        while y < n && dict_char(chars[y]) == kind
            invariant
                s == chars@,
                n == s.len(),
                x < y <= n,
                forall|j: int| x <= j < y ==> is_dict_char(#[trigger] s[j]) == kind,
            decreases n - y,
        {
            y += 1;
        }
        blocks.push(Block { start: x, end: y, dict: kind });
        x = y;
    }
    blocks
}

/// The characters `v[from..to]` as a vector of their own.
pub fn sub_chars(v: &Vec<char>, from: usize, to: usize) -> (r: Vec<char>)
    requires
        from <= to <= v.len(),
    ensures
        r@ == v@.subrange(from as int, to as int),
{
    let mut r: Vec<char> = Vec::new();
    let mut i: usize = from;
    while i < to
        invariant
            from <= i <= to <= v.len(),
            r@ == v@.subrange(from as int, i as int),
        decreases to - i,
    {
        r.push(v[i]);
        i += 1;
        assert(r@ =~= v@.subrange(from as int, i as int));
    }
    r
}

/// A token of a block outside the dictionary ends at `x`: a character that is
/// no white space is a token by itself, and a run of white space ends where
/// the next character is none or the block ends.
pub open spec fn ends_token(s: Seq<char>, x: int) -> bool {
    !is_space(s[x]) || x + 1 >= s.len() || !is_space(s[x + 1])
}

/// The tokens of a block outside the dictionary from position `x` on, where
/// the token that `x` belongs to began at `start`: each run of white space is
/// one token, and every other character is a token.
pub open spec fn other_tokens(s: Seq<char>, start: int, x: int) -> Seq<Seq<char>>
    decreases s.len() - x,
{
    if x < 0 || x >= s.len() {
        Seq::empty()
    } else if ends_token(s, x) {
        seq![s.subrange(start, x + 1)] + other_tokens(s, x + 1, x + 1)
    } else {
        other_tokens(s, start, x + 1)
    }
}

/// The tokens from `x` on hold the block from `start` on, character for
/// character, and none of them is empty.
pub proof fn lemma_other_tokens(s: Seq<char>, start: int, x: int)
    requires
        0 <= start <= x <= s.len(),
        start < x ==> x < s.len(),
    ensures
        concat(other_tokens(s, start, x)) == s.subrange(start, s.len() as int),
        all_nonempty(other_tokens(s, start, x)),
    decreases s.len() - x,
{
    let n = s.len() as int;
    reveal_with_fuel(concat, 3);
    if x >= n {
        assert(s.subrange(start, n) =~= Seq::<char>::empty());
    } else if ends_token(s, x) {
        let head = seq![s.subrange(start, x + 1)];
        let tail = other_tokens(s, x + 1, x + 1);
        lemma_other_tokens(s, x + 1, x + 1);
        lemma_concat_add(head, tail);
        assert(concat(head) =~= s.subrange(start, x + 1));
        assert(concat(head) + concat(tail) =~= s.subrange(start, n));
    } else {
        lemma_other_tokens(s, start, x + 1);
    }
}

/// The tokens of a block outside the dictionary.
pub fn cut_other(block: &Vec<char>) -> (words: Vec<String>)
    ensures
        views(words@) == other_tokens(block@, 0, 0),
        concat(views(words@)) == block@,
        all_nonempty(views(words@)),
{
    let ghost s = block@;
    let ghost whole = other_tokens(s, 0, 0);
    let n: usize = block.len();
    let mut words: Vec<String> = Vec::new();
    let mut start: usize = 0;
    let mut x: usize = 0;
    assert(views(words@) + other_tokens(s, 0, 0) =~= whole);
    while x < n
        invariant
            s == block@,
            n == s.len(),
            whole == other_tokens(s, 0, 0),
            start <= x <= n,
            views(words@) + other_tokens(s, start as int, x as int) == whole,
        decreases n - x,
    {
        let ghost before = views(words@);
        let ghost rest = other_tokens(s, x + 1, x + 1);
        if !space(block[x]) || x + 1 >= n || !space(block[x + 1]) {
            let w = to_string(block, start, x + 1);
            proof {
                lemma_views_push(words@, w);
            }
            words.push(w);
            assert(views(words@) + rest =~= before + (seq![s.subrange(start as int, x + 1)] + rest));
            start = x + 1;
        }
        x += 1;
    }
    proof {
        assert(views(words@) =~= whole);
        lemma_other_tokens(s, 0, 0);
        assert(s.subrange(0, n as int) =~= s);
    }
    words
}

} // verus!
