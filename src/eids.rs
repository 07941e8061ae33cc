use vstd::prelude::*;

use crate::compaction::move_positions;
use crate::index::StableIndex;

verus! {

/// The renames that packing the ids `freed` (increasing) below the counter
/// `next` makes: the largest freed id first, the counter steps back to
/// `next - 1`, and unless that is the freed id itself, the id `next - 1`
/// is renamed to it.
pub open spec fn eids_renames(freed: Seq<int>, next: int) -> Seq<(int, int)>
    decreases freed.len(),
{
    if freed.len() == 0 {
        Seq::empty()
    } else {
        let rest = eids_renames(freed.drop_last(), next - 1);
        if next - 1 != freed.last() {
            seq![(next - 1, freed.last())] + rest
        } else {
            rest
        }
    }
}

/// Entity id generator whose ids can be given back: a counter together
/// with the set of ids below it that were given back, smallest reused first.
#[derive(Clone)]
pub struct Eids<IndexT> {
    /// The ids given back, in increasing order.
    freed: Vec<usize>,
    next: IndexT,
}

impl<IndexT: StableIndex> Eids<IndexT> {
    /// One past the largest id ever handed out.
    pub closed spec fn next_id(&self) -> nat {
        self.next.pos()
    }

    /// The ids that were given back and not yet reused, in increasing
    /// order.
    pub closed spec fn freed_ids(&self) -> Seq<int> {
        self.freed@.map_values(|x: usize| x as int)
    }

    /// The ids that were given back and not yet reused.
    pub open spec fn freed_set(&self) -> Set<int> {
        self.freed_ids().to_set()
    }

    /// What the invariant tells a caller: the freed ids are increasing, lie
    /// below the counter, and the counter stays within the handle range.
    pub proof fn lemma_wf_shape(&self)
        requires
            self.wf(),
        ensures
            self.freed_ids().len() == self.freed_len(),
            forall|a: int, b: int|
                0 <= a < b < self.freed_len() ==> self.freed_ids()[a] < self.freed_ids()[b],
            forall|a: int| 0 <= a < self.freed_len() ==> self.freed_ids()[a] < self.next_id(),
            self.next_id() <= IndexT::limit(),
    {
    }

    /// Number of ids that were given back and not yet reused.
    pub closed spec fn freed_len(&self) -> nat {
        self.freed@.len()
    }

    pub closed spec fn wf(&self) -> bool {
        &&& forall|a: int, b: int|
            0 <= a < b < self.freed@.len() ==> self.freed@[a] < self.freed@[b]
        &&& forall|a: int| 0 <= a < self.freed@.len() ==> self.freed@[a] < self.next.pos()
        &&& self.next.pos() <= IndexT::limit()
    }

    /// An id: the smallest one given back, if any, else the counter, which
    /// then moves on.
    pub fn claim(&mut self) -> (r: IndexT)
        requires
            old(self).wf(),
            old(self).next_id() < IndexT::limit(),
        ensures
            final(self).wf(),
            if old(self).freed_len() > 0 {
                &&& old(self).freed_set().contains(r.pos() as int)
                &&& forall|y: int| old(self).freed_set().contains(y) ==> r.pos() <= y
                &&& final(self).freed_set() == old(self).freed_set().remove(r.pos() as int)
                &&& final(self).freed_len() == old(self).freed_len() - 1
                &&& final(self).next_id() == old(self).next_id()
            } else {
                &&& r.pos() == old(self).next_id()
                &&& final(self).next_id() == old(self).next_id() + 1
                &&& final(self).freed_len() == 0
            },
    {
        if self.freed.len() > 0 {
            let ghost s = self.freed@;
            let x = self.freed.remove(0);
            proof {
                let m0 = s.map_values(|v: usize| v as int);
                let m1 = self.freed@.map_values(|v: usize| v as int);
                assert(m1 =~= m0.drop_first());
                assert(m0[0] == x as int);
                assert(m0.contains(x as int));
                assert forall|a: int, b: int|
                    0 <= a < b < self.freed@.len() implies self.freed@[a] < self.freed@[b] by {
                    assert(self.freed@[a] == s[a + 1]);
                    assert(self.freed@[b] == s[b + 1]);
                }
                assert forall|a: int| 0 <= a < self.freed@.len() implies self.freed@[a]
                    < self.next.pos() by {
                    assert(self.freed@[a] == s[a + 1]);
                }
                assert forall|y: int| m0.to_set().contains(y) implies x <= y by {
                    let k = choose|k: int| 0 <= k < m0.len() && m0[k] == y;
                    assert(m0[k] == s[k]);
                }
                assert(m1.to_set() =~= m0.to_set().remove(x as int)) by {
                    assert forall|y: int| m0.to_set().contains(y) && y != x implies m1.to_set().contains(y) by {
                        let k = choose|k: int| 0 <= k < m0.len() && m0[k] == y;
                        assert(m1[k - 1] == y);
                    }
                    assert forall|y: int| m1.to_set().contains(y) implies y != x && m0.to_set().contains(y) by {
                        let k = choose|k: int| 0 <= k < m1.len() && m1[k] == y;
                        assert(m0[k + 1] == y);
                    }
                }
            }
            IndexT::cast_from(x)
        } else {
            let ret = self.next;
            self.next = ret.next_value();
            proof {
                assert forall|a: int| 0 <= a < self.freed@.len() implies self.freed@[a] < self.next.pos() by {}
            }
            ret
        }
    }

    /// Gives `val` back for later reuse.
    pub fn unclaim(&mut self, val: IndexT)
        requires
            old(self).wf(),
            val.pos() < old(self).next_id(),
            !old(self).freed_set().contains(val.pos() as int),
        ensures
            final(self).wf(),
            final(self).freed_set() == old(self).freed_set().insert(val.pos() as int),
            final(self).freed_len() == old(self).freed_len() + 1,
            final(self).next_id() == old(self).next_id(),
    {
        let v = val.cast_to();
        let ghost s = self.freed@;
        let n = self.freed.len();
        let mut i: usize = 0;
        while i < n && self.freed[i] < v
            invariant
                n == self.freed@.len(),
                s == self.freed@,
                i <= n,
                forall|a: int| 0 <= a < i ==> self.freed@[a] < v,
            decreases n - i,
        {
            i = i + 1;
        }
        proof {
            let m0 = s.map_values(|x: usize| x as int);
            if i < n && s[i as int] == v {
                assert(m0[i as int] == v as int);
                assert(m0.contains(v as int));
            }
        }
        self.freed.insert(i, v);
        proof {
            let m0 = s.map_values(|x: usize| x as int);
            let m1 = self.freed@.map_values(|x: usize| x as int);
            assert forall|a: int, b: int| 0 <= a < b < self.freed@.len() implies self.freed@[a] < self.freed@[b] by {
                if b < i {
                } else if a < i && b == i {
                } else if a < i {
                    assert(s[a] < s[b - 1]);
                } else if a == i {
                    assert(s[i as int] <= s[b - 1]);
                } else {
                    assert(s[a - 1] < s[b - 1]);
                }
            }
            assert(m1.to_set() =~= m0.to_set().insert(v as int)) by {
                assert forall|y: int| m0.to_set().contains(y) implies m1.to_set().contains(y) by {
                    let k = choose|k: int| 0 <= k < m0.len() && m0[k] == y;
                    if k < i {
                        assert(m1[k] == y);
                    } else {
                        assert(m1[k + 1] == y);
                    }
                }
                assert(m1[i as int] == v);
                assert forall|y: int| m1.to_set().contains(y) implies y == v || m0.to_set().contains(y) by {
                    let k = choose|k: int| 0 <= k < m1.len() && m1[k] == y;
                    if k < i {
                        assert(m0[k] == y);
                    } else if k > i {
                        assert(m0[k - 1] == y);
                    }
                }
            }
        }
    }

    /// Packs the ids back together and returns the renames `(old_id,
    /// new_id)` in the order made: for each id given back, largest first,
    /// the counter steps back by one, and if the id it steps back to is not
    /// that given-back id, the entity at the counter's id is to move to the
    /// given-back one.
    pub fn compact(&mut self) -> (moves: Vec<(IndexT, IndexT)>)
        requires
            old(self).wf(),
        ensures
            final(self).wf(),
            final(self).freed_len() == 0,
            final(self).next_id() == old(self).next_id() - old(self).freed_len(),
            move_positions(moves@) == eids_renames(old(self).freed_ids(), old(self).next_id() as int),
            forall|k: int|
                0 <= k < moves@.len() ==> (#[trigger] move_positions(moves@)[k]).0
                    != move_positions(moves@)[k].1,
    {
        let ghost f0 = self.freed_ids();
        let ghost n0 = self.next_id() as int;
        let mut moves: Vec<(IndexT, IndexT)> = Vec::new();
        proof {
            assert(move_positions(moves@) + eids_renames(f0, n0) =~= eids_renames(f0, n0));
        }
        while self.freed.len() > 0
            invariant
                self.wf(),
                self.next_id() + old(self).freed_len() == old(self).next_id() + self.freed_len(),
                move_positions(moves@) + eids_renames(self.freed_ids(), self.next_id() as int)
                    == eids_renames(f0, n0),
                forall|k: int|
                    0 <= k < moves@.len() ==> (#[trigger] move_positions(moves@)[k]).0
                        != move_positions(moves@)[k].1,
            decreases self.freed@.len(),
        {
            let ghost s = self.freed@;
            let ghost fs = self.freed_ids();
            let ghost n = self.next_id() as int;
            let ghost mp0 = move_positions(moves@);
            let freed = self.freed.pop().unwrap();
            proof {
                assert(s[s.len() - 1] == freed);
                assert(freed < self.next.pos());
                assert(self.freed_ids() =~= fs.drop_last());
                assert(fs.last() == freed as int);
            }
            let target = self.next.prev_value();
            self.next = target;
            proof {
                assert forall|a: int| 0 <= a < self.freed@.len() implies self.freed@[a]
                    < self.next.pos() by {
                    assert(s[a] < s[s.len() - 1]);
                }
            }
            let t = target.cast_to();
            if t != freed {
                moves.push((target, IndexT::cast_from(freed)));
                proof {
                    assert(move_positions(moves@) =~= mp0.push((t as int, freed as int)));
                    assert(move_positions(moves@) + eids_renames(self.freed_ids(), n - 1) =~= mp0
                        + eids_renames(fs, n));
                }
            } else {
                proof {
                    assert(mp0 + eids_renames(self.freed_ids(), n - 1) =~= mp0 + eids_renames(
                        fs,
                        n,
                    ));
                }
            }
        }
        proof {
            assert(self.freed_ids() =~= Seq::<int>::empty());
            assert(move_positions(moves@) + Seq::<(int, int)>::empty() =~= move_positions(moves@));
        }
        moves
    }

    /// Packs the ids back together as [`Eids::compact`] does and reports
    /// each rename to `f` as `f(old_id, new_id)`, in the order made.
    pub fn coalesce<F: FnMut(IndexT, IndexT)>(&mut self, mut f: F)
        requires
            old(self).wf(),
            forall|a: IndexT, b: IndexT| f.requires((a, b)),
        ensures
            final(self).wf(),
            final(self).freed_len() == 0,
            final(self).next_id() == old(self).next_id() - old(self).freed_len(),
    {
        let moves = self.compact();
        let mut i: usize = 0;
        while i < moves.len()
            invariant
                i <= moves@.len(),
                forall|a: IndexT, b: IndexT| f.requires((a, b)),
            decreases moves@.len() - i,
        {
            let (from, to) = moves[i];
            f(from, to);
            i = i + 1;
        }
    }
}

impl<IndexT: StableIndex> Default for Eids<IndexT> {
    /// No id handed out yet.
    fn default() -> (r: Self)
        ensures
            r.wf(),
            r.next_id() == 0,
            r.freed_len() == 0,
    {
        let m = IndexT::max_value();
        proof {
            m.lemma_bounds();
        }
        Eids { freed: Vec::new(), next: IndexT::cast_from(0) }
    }
}

} // verus!
