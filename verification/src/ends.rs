//! The list of end positions of one start, held in a small vector.

use vstd::prelude::*;
use smallvec::SmallVec;

verus! {

/// A list of positions in a `smallvec::SmallVec`, which keeps up to five of
/// them without allocating.
#[verifier::external_body]
pub struct Ends {
    list: SmallVec<[usize; 5]>,
}

/// The positions that a list holds, in order.
pub uninterp spec fn positions(l: Ends) -> Seq<usize>;

impl View for Ends {
    type V = Seq<usize>;

    open spec fn view(&self) -> Seq<usize> {
        positions(*self)
    }
}

impl Ends {
    /// `SmallVec::new`: a list that holds nothing.
    #[verifier::external_body]
    pub(crate) fn new() -> (l: Ends)
        ensures
            positions(l) == Seq::<usize>::empty(),
    {
        Ends { list: SmallVec::new() }
    }

    /// `SmallVec::push`: appends one position at the end.
    #[verifier::external_body]
    pub(crate) fn push(&mut self, e: usize)
        ensures
            positions(*final(self)) == positions(*old(self)).push(e),
    {
        self.list.push(e)
    }

    /// `SmallVec::len`: the number of positions held.
    #[verifier::external_body]
    pub(crate) fn count(&self) -> (n: usize)
        ensures
            n == positions(*self).len(),
    {
        self.list.len()
    }

    /// Indexing a `SmallVec`: the position at index `i`.
    #[verifier::external_body]
    pub(crate) fn at(&self, i: usize) -> (e: usize)
        requires
            i < positions(*self).len(),
        ensures
            e == positions(*self)[i as int],
    {
        self.list[i]
    }

    /// The number of positions in the list.
    pub fn len(&self) -> (n: usize)
        ensures
            n == self@.len(),
    {
        self.count()
    }

    /// The position at index `i`, if the list has one there.
    pub fn get(&self, i: usize) -> (e: Option<usize>)
        ensures
            e == (if i < self@.len() {
                Some(self@[i as int])
            } else {
                None
            }),
    {
        if i < self.count() {
            Some(self.at(i))
        } else {
            None
        }
    }

    /// The positions as a vector.
    pub fn to_vec(&self) -> (v: Vec<usize>)
        ensures
            v@ == self@,
    {
        let n: usize = self.count();
        let mut v: Vec<usize> = Vec::new();
        let mut i: usize = 0;
        while i < n
            invariant
                n == self@.len(),
                i <= n,
                v@ == self@.subrange(0, i as int),
            decreases n - i,
        {
            v.push(self.at(i));
            i += 1;
            assert(v@ =~= self@.subrange(0, i as int));
        }
        assert(self@.subrange(0, n as int) =~= self@);
        v
    }
}

} // verus!
