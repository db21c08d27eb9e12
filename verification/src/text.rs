//! Conversions between strings and character vectors, and the flattening of a
//! token list that the segmentation contracts speak of.

use vstd::prelude::*;
use vstd::string::*;
use vstd::std_specs::iter::IteratorSpec;

verus! {

/// The characters of all tokens, in order.
pub open spec fn concat(tokens: Seq<Seq<char>>) -> Seq<char>
    decreases tokens.len(),
{
    if tokens.len() == 0 {
        Seq::empty()
    } else {
        concat(tokens.drop_last()) + tokens.last()
    }
}

/// The tokens of all groups, in order.
pub open spec fn flatten(groups: Seq<Seq<Seq<char>>>) -> Seq<Seq<char>>
    decreases groups.len(),
{
    if groups.len() == 0 {
        Seq::empty()
    } else {
        flatten(groups.drop_last()) + groups.last()
    }
}

/// A group added at the end adds its tokens at the end.
pub proof fn lemma_flatten_push(groups: Seq<Seq<Seq<char>>>, g: Seq<Seq<char>>)
    ensures
        flatten(groups.push(g)) == flatten(groups) + g,
{
    assert(groups.push(g).drop_last() =~= groups);
}

/// The character sequences of a list of strings.
pub open spec fn views(tokens: Seq<String>) -> Seq<Seq<char>> {
    tokens.map_values(|s: String| s@)
}

/// No token is empty.
pub open spec fn all_nonempty(tokens: Seq<Seq<char>>) -> bool {
    forall|i: int| 0 <= i < tokens.len() ==> (#[trigger] tokens[i]).len() > 0
}

/// A token added at the end adds its characters at the end.
pub proof fn lemma_concat_push(tokens: Seq<Seq<char>>, t: Seq<char>)
    ensures
        concat(tokens.push(t)) == concat(tokens) + t,
{
    assert(tokens.push(t).drop_last() =~= tokens);
}

/// The characters of two token lists in a row are those of the first, then
/// those of the second.
pub proof fn lemma_concat_add(a: Seq<Seq<char>>, b: Seq<Seq<char>>)
    ensures
        concat(a + b) == concat(a) + concat(b),
    decreases b.len(),
{
    if b.len() == 0 {
        assert(a + b =~= a);
        assert(concat(a) + concat(b) =~= concat(a));
    } else {
        lemma_concat_add(a, b.drop_last());
        assert((a + b).drop_last() =~= a + b.drop_last());
        assert(concat(a + b) =~= concat(a) + concat(b));
    }
}

/// The character sequences of a list with one more string.
pub proof fn lemma_views_push(tokens: Seq<String>, s: String)
    ensures
        views(tokens.push(s)) == views(tokens).push(s@),
{
    assert(views(tokens.push(s)) =~= views(tokens).push(s@));
}

/// The character sequences of two lists of strings in a row.
pub proof fn lemma_views_add(a: Seq<String>, b: Seq<String>)
    ensures
        views(a + b) == views(a) + views(b),
{
    assert(views(a + b) =~= views(a) + views(b));
}

/// `String::push`: appends one character to the string.
#[verifier::external_body]
fn push_char(s: &mut String, c: char)
    ensures
        final(s)@ == old(s)@.push(c),
{
    s.push(c)
}

/// The characters of a string, as a vector.
pub fn to_chars(s: &str) -> (r: Vec<char>)
    ensures
        r@ == s@,
{
    broadcast use {axiom_spec_iter, next_postcondition};

    let n: usize = s.unicode_len();
    let mut it = s.chars();
    let mut r: Vec<char> = Vec::new();
    let mut i: usize = 0;
    assert(r@ + it.remaining() =~= s@);
    while i < n
        invariant
            n == s@.len(),
            i <= n,
            r@.len() == i,
            it.obeys_prophetic_iter_laws(),
            r@ + it.remaining() == s@,
        decreases n - i,
    {
        assert(it.remaining().len() == n - i);
        match it.next() {
            Some(c) => {
                r.push(c);
                assert(r@ + it.remaining() =~= s@);
            },
            None => {},
        }
        i += 1;
    }
    assert(it.remaining().len() == 0);
    assert(r@ =~= s@);
    r
}

/// The string made of the characters `v[from..to]`.
pub fn to_string(v: &Vec<char>, from: usize, to: usize) -> (r: String)
    requires
        from <= to <= v.len(),
    ensures
        r@ == v@.subrange(from as int, to as int),
{
    let mut r: String = String::new();
    let mut i: usize = from;
    while i < to
        invariant
            from <= i <= to <= v.len(),
            r@ == v@.subrange(from as int, i as int),
        decreases to - i,
    {
        push_char(&mut r, v[i]);
        i += 1;
        assert(r@ =~= v@.subrange(from as int, i as int));
    }
    r
}

} // verus!
