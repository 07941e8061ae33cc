use vstd::prelude::*;

use crate::index::StableIndex;

verus! {

/// A counter that hands out increasing ids and never takes one back.
#[derive(Clone)]
pub struct Sequence<IndexT> {
    counter: IndexT,
}

impl<IndexT: StableIndex> Sequence<IndexT> {
    /// The id the next call of [`Sequence::next_value`] returns.
    pub closed spec fn peek(&self) -> nat {
        self.counter.pos()
    }

    /// A counter whose first id is `start`.
    pub fn continue_from(start: IndexT) -> (r: Self)
        ensures
            r.peek() == start.pos(),
    {
        Sequence { counter: start }
    }

    /// Returns the current id and moves on to the next.
    pub fn next_value(&mut self) -> (r: IndexT)
        requires
            old(self).peek() < IndexT::limit(),
        ensures
            r.pos() == old(self).peek(),
            final(self).peek() == old(self).peek() + 1,
    {
        let ret = self.counter;
        self.counter = ret.next_value();
        ret
    }
}

impl<IndexT: StableIndex> Default for Sequence<IndexT> {
    /// A counter that starts at zero.
    fn default() -> (r: Self)
        ensures
            r.peek() == 0,
    {
        let m = IndexT::max_value();
        proof {
            m.lemma_bounds();
        }
        Sequence { counter: IndexT::cast_from(0) }
    }
}

} // verus!
