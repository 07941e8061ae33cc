use vstd::prelude::*;

use crate::compaction::{apply_moves, is_compaction, move_positions, relocate};
use crate::index::StableIndex;
use crate::min_heap::MinHeap;
use crate::model::{
    below, dead_set, lemma_filter_keeps_all, lemma_filter_keeps_none, lemma_filter_prefix_step,
    lemma_live_count_bound, lemma_live_count_dead_tail, lemma_live_count_full,
    lemma_live_count_push, lemma_live_count_update, link_of, live_count, live_entries,
    live_payloads, walk,
};
use crate::slot::{
    find_start_of_trailing_dead_slots, lemma_trim_dead_from, payloads, slot_payload, trim_dead, Slot,
};

verus! {

/// Why an operation on a [`Tec`] was refused. Nothing is changed when one
/// is returned.
#[derive(Debug, Clone, Copy, PartialEq, Eq)]
pub enum TecError {
    /// The handle lies past the end of storage.
    InvalidIndex,
    /// The handle names a slot that was already removed.
    DoubleRemove,
    /// Nothing is stored.
    EmptyContainer,
    /// A new slot would need a position the handle type cannot express.
    CapacityOverflow,
}

/// Short for tombstone vector: a vector whose removed cells stay in place as
/// dead slots, so that the handles of the other cells remain valid. The dead
/// slots are linked into a free list that later allocations reuse.
#[derive(Clone)]
pub struct Tec<DataT, IndexT = usize> {
    vec: Vec<Slot<DataT, IndexT>>,
    /// Head of the free list, or `IndexT::max_value()` when it is empty.
    next_free: IndexT,
    count: usize,
    /// The positions of the free list, from its head on.
    free: Ghost<Seq<int>>,
}

impl<DataT, IndexT: StableIndex> View for Tec<DataT, IndexT> {
    type V = Seq<Option<DataT>>;

    /// Each storage cell: its payload, or `None` for a dead slot.
    closed spec fn view(&self) -> Seq<Option<DataT>> {
        payloads(self.vec@)
    }
}

impl<DataT, IndexT: StableIndex> Tec<DataT, IndexT> {
    /// The positions of the dead slots in the order the free list links
    /// them, head first.
    pub closed spec fn free_list(&self) -> Seq<int> {
        self.free@
    }

    /// What the handle `index` finds: the payload of a live slot, or `None`.
    pub open spec fn lookup(&self, index: IndexT) -> Option<DataT> {
        if index.pos() < self@.len() {
            self@[index.pos() as int]
        } else {
            None
        }
    }

    /// What [`Tec::allocate`] does: with a non-empty free list, `data`
    /// goes into the slot at its head, which leaves the list; otherwise into
    /// a new slot at the end, unless that slot's position would be the
    /// handle type's largest value, in which case nothing changes and
    /// `CapacityOverflow` is returned.
    pub open spec fn allocate_post(
        t0: Self,
        t1: Self,
        data: DataT,
        r: Result<IndexT, TecError>,
    ) -> bool {
        &&& r is Err <==> (t0.free_list().len() == 0 && t0@.len() == IndexT::limit())
        &&& match r {
            Ok(id) => if t0.free_list().len() > 0 {
                &&& id.pos() == t0.free_list()[0]
                &&& t1@ == t0@.update(id.pos() as int, Some(data))
                &&& t1.free_list() == t0.free_list().drop_first()
            } else {
                &&& id.pos() == t0@.len()
                &&& t1@ == t0@.push(Some(data))
                &&& t1.free_list() == t0.free_list()
            },
            Err(e) => e == TecError::CapacityOverflow && t1 == t0,
        }
    }

    /// Reading a handle that [`Tec::allocate`] has just handed out finds the
    /// payload that was stored.
    pub proof fn lemma_get_after_allocate(t0: Self, t1: Self, data: DataT, id: IndexT)
        requires
            t0.wf(),
            Self::allocate_post(t0, t1, data, Ok(id)),
        ensures
            t1.lookup(id) == Some(data),
    {
        if t0.free_list().len() > 0 {
            assert(t0.free_list()[0] < t0.vec@.len());
        }
    }

    /// The walk along the stored links from the stored head.
    pub closed spec fn walk_free_links(&self, fuel: nat) -> Seq<int> {
        walk(self.vec@, self.next_free.pos(), fuel)
    }

    proof fn lemma_walk_suffix(&self, k: int, fuel: nat)
        requires
            self.wf(),
            0 <= k <= self.free@.len(),
            fuel >= self.free@.len() - k,
        ensures
            walk(
                self.vec@,
                if k < self.free@.len() {
                    self.free@[k] as nat
                } else {
                    IndexT::limit()
                },
                fuel,
            ) == self.free@.subrange(k, self.free@.len() as int),
        decreases self.free@.len() - k,
    {
        let f = self.free@;
        if k < f.len() {
            self.lemma_walk_suffix(k + 1, (fuel - 1) as nat);
            assert(f.subrange(k, f.len() as int) =~= seq![f[k]] + f.subrange(
                k + 1,
                f.len() as int,
            ));
        } else {
            assert(f.subrange(k, f.len() as int) =~= Seq::<int>::empty());
        }
    }

    /// Following the free list from its head, with at least as many steps
    /// as there are slots, visits each dead slot exactly once and then stops
    /// at the marker value: the dead slots that a scan of storage finds are
    /// exactly those the free list holds.
    pub proof fn lemma_free_list_is_dead_set(&self, fuel: nat)
        requires
            self.wf(),
            fuel >= self@.len(),
        ensures
            self.walk_free_links(fuel) == self.free_list(),
            self.free_list().no_duplicates(),
            self.free_list().to_set() == dead_set(self@),
    {
        let f = self.free@;
        let len = self.vec@.len() as int;
        f.unique_seq_to_set();
        vstd::set_lib::lemma_int_range(0, len);
        assert(f.to_set().subset_of(vstd::set_lib::set_int_range(0, len)));
        vstd::set_lib::lemma_len_subset(f.to_set(), vstd::set_lib::set_int_range(0, len));
        self.lemma_walk_suffix(0, fuel);
        assert(f.subrange(0, f.len() as int) =~= f);
        assert forall|x: int| f.to_set().contains(x) <==> dead_set(self@).contains(x) by {
            if f.contains(x) {
                let k = choose|k: int| 0 <= k < f.len() && f[k] == x;
                assert(self.vec@[f[k]] is Dead);
            }
            if dead_set(self@).contains(x) {
                assert(self.vec@[x] is Dead);
            }
        }
        assert(f.to_set() =~= dead_set(self@));
    }

    /// Everything holds but, possibly, that the last slot is alive.
    closed spec fn links_ok(&self) -> bool {
        let s = self.vec@;
        let f = self.free@;
        &&& s.len() <= IndexT::limit()
        &&& self.count == live_count(payloads(s))
        &&& f.no_duplicates()
        &&& forall|k: int| 0 <= k < f.len() ==> 0 <= #[trigger] f[k] < s.len()
        &&& forall|k: int| 0 <= k < f.len() ==> (#[trigger] s[f[k]]) is Dead
        &&& forall|i: int| 0 <= i < s.len() && (#[trigger] s[i]) is Dead ==> f.contains(i)
        &&& self.next_free.pos() == if f.len() == 0 {
            IndexT::limit()
        } else {
            f[0] as nat
        }
        &&& forall|k: int|
            0 <= k < f.len() ==> link_of(#[trigger] s[f[k]]) == if k + 1 < f.len() {
                f[k + 1] as nat
            } else {
                IndexT::limit()
            }
    }

    /// The invariant of the structure: the free list threads exactly the
    /// dead slots, once each, ending at the marker value; the count is the
    /// number of live slots; and the last slot, if any, is alive.
    pub closed spec fn wf(&self) -> bool {
        &&& self.links_ok()
        &&& self.vec@.len() > 0 ==> self.vec@.last() is Alive
    }

    /// What the invariant tells a caller: storage never holds more slots
    /// than the handle type can address, the last slot is live, and with no
    /// live item there is no slot at all.
    pub proof fn lemma_wf_shape(&self)
        requires
            self.wf(),
        ensures
            self@.len() <= IndexT::limit(),
            self@.len() == 0 || self@.last() is Some,
            live_count(self@) == 0 ==> self@.len() == 0,
            live_count(self@) <= self@.len(),
            self@.len() == 0 ==> self.free_list().len() == 0,
    {
        if self@.len() == 0 && self.free@.len() > 0 {
            assert(self.free@[0] < self.vec@.len());
        }
        lemma_live_count_bound(self@);
        if self@.len() > 0 {
            assert(self@.last() == slot_payload(self.vec@.last()));
            assert(live_count(self@) == live_count(self@.drop_last()) + 1);
        }
    }

    /// An empty instance.
    pub fn new() -> (r: Self)
        ensures
            r.wf(),
            r@.len() == 0,
            r.free_list().len() == 0,
    {
        Self::with_capacity(0)
    }

    /// An empty instance whose storage has room for `capacity` slots.
    pub fn with_capacity(capacity: usize) -> (r: Self)
        ensures
            r.wf(),
            r@.len() == 0,
            r.free_list().len() == 0,
    {
        let r = Tec {
            vec: Vec::with_capacity(capacity),
            next_free: IndexT::max_value(),
            count: 0,
            free: Ghost(Seq::empty()),
        };
        assert(payloads(r.vec@) =~= Seq::<Option<DataT>>::empty());
        r
    }

    /// Number of live items.
    pub fn len(&self) -> (r: usize)
        requires
            self.wf(),
        ensures
            r == live_count(self@),
    {
        self.count
    }

    pub fn is_empty(&self) -> (r: bool)
        requires
            self.wf(),
        ensures
            r == (live_count(self@) == 0),
    {
        self.count == 0
    }

    /// Number of slots in storage, live and dead.
    pub fn capacity(&self) -> (r: usize)
        requires
            self.wf(),
        ensures
            r == self@.len(),
    {
        self.vec.len()
    }

    /// Drops every item and every slot.
    pub fn clear(&mut self)
        ensures
            final(self).wf(),
            final(self)@.len() == 0,
            final(self).free_list().len() == 0,
    {
        self.vec.clear();
        self.count = 0;
        self.next_free = IndexT::max_value();
        self.free = Ghost(Seq::empty());
        assert(payloads(self.vec@) =~= Seq::<Option<DataT>>::empty());
    }

    /// The item at `index`, or `None` when the slot there is dead or
    /// `index` lies past the end of storage.
    pub fn get(&self, index: IndexT) -> (r: Option<&DataT>)
        requires
            self.wf(),
        ensures
            match r {
                Some(x) => self.lookup(index) == Some(*x),
                None => self.lookup(index) is None,
            },
    {
        let i = index.cast_to();
        if i < self.vec.len() {
            match &self.vec[i] {
                Slot::Alive(d) => Some(d),
                Slot::Dead { .. } => None,
            }
        } else {
            None
        }
    }

    /// Stores `data`, in the slot at the head of the free list when there
    /// is one, else in a new slot at the end; returns its handle. Fails when
    /// a new slot is needed and its position would be the handle type's
    /// largest value.
    pub fn allocate(&mut self, data: DataT) -> (r: Result<IndexT, TecError>)
        requires
            old(self).wf(),
        ensures
            final(self).wf(),
            Self::allocate_post(*old(self), *final(self), data, r),
    {
        let ghost s0 = self.vec@;
        let ghost f = self.free@;
        let head = self.next_free;
        let h = head.cast_to();
        if h < self.vec.len() {
            if let Slot::Dead { next_free } = &self.vec[h] {
                let link = *next_free;
                proof {
                    assert(f.len() > 0);
                    lemma_live_count_update(payloads(s0), h as int, Some(data));
                    lemma_live_count_bound(payloads(s0).update(h as int, Some(data)));
                }
                self.vec[h] = Slot::Alive(data);
                self.next_free = link;
                self.count = self.count + 1;
                self.free = Ghost(f.drop_first());
                proof {
                    let s = self.vec@;
                    let g = self.free@;
                    assert(payloads(s) =~= payloads(s0).update(h as int, Some(data)));
                    assert forall|k: int| 0 <= k < g.len() implies (#[trigger] s[g[k]]) is Dead
                        && link_of(s[g[k]]) == (if k + 1 < g.len() {
                        g[k + 1] as nat
                    } else {
                        IndexT::limit()
                    }) by {
                        assert(g[k] == f[k + 1]);
                        assert(s[g[k]] == s0[f[k + 1]]);
                    }
                    assert forall|i: int| 0 <= i < s.len() && (#[trigger] s[i]) is Dead implies g.contains(i) by {
                        assert(s0[i] is Dead);
                        let k = choose|k: int| 0 <= k < f.len() && f[k] == i;
                        assert(g[k - 1] == i);
                    }
                    if g.len() > 0 {
                        assert(link_of(s0[f[0]]) == f[1]);
                    }
                }
                return Ok(head);
            }
        }
        if self.vec.len() >= IndexT::max_value().cast_to() {
            return Err(TecError::CapacityOverflow);
        }
        let id = IndexT::cast_from(self.vec.len());
        proof {
            lemma_live_count_push(payloads(s0), Some(data));
            lemma_live_count_bound(payloads(s0).push(Some(data)));
            head.lemma_bounds();
        }
        self.vec.push(Slot::Alive(data));
        self.count = self.count + 1;
        proof {
            let s = self.vec@;
            assert(payloads(s) =~= payloads(s0).push(Some(data)));
            assert(f.len() == 0);
        }
        Ok(id)
    }
    /// Removes the item at `index` and returns it. Its slot becomes the new
    /// head of the free list; then any run of dead slots at the end of
    /// storage is cut off and taken out of the free list.
    pub fn remove(&mut self, index: IndexT) -> (r: Result<DataT, TecError>)
        requires
            old(self).wf(),
        ensures
            final(self).wf(),
            r is Ok <==> (live_count(old(self)@) > 0 && index.pos() < old(self)@.len()
                && old(self)@[index.pos() as int] is Some),
            final(self)@.len() > 0 ==> final(self)@.last() is Some,
            match r {
                Ok(d) => {
                    &&& old(self)@[index.pos() as int] == Some(d)
                    &&& final(self)@ == trim_dead(old(self)@.update(index.pos() as int, None))
                    &&& final(self).free_list() == seq![index.pos() as int].add(
                        old(self).free_list(),
                    ).filter(below(final(self)@.len() as int))
                },
                Err(e) => {
                    &&& *final(self) == *old(self)
                    &&& e == if live_count(old(self)@) == 0 {
                        TecError::EmptyContainer
                    } else if index.pos() >= old(self)@.len() {
                        TecError::InvalidIndex
                    } else {
                        TecError::DoubleRemove
                    }
                },
            },
    {
        if self.count == 0 {
            return Err(TecError::EmptyContainer);
        }
        let i = index.cast_to();
        if i >= self.vec.len() {
            return Err(TecError::InvalidIndex);
        }
        if let Slot::Dead { .. } = &self.vec[i] {
            return Err(TecError::DoubleRemove);
        }
        let ghost s0 = self.vec@;
        let ghost f = self.free@;
        let mut taken = Slot::Dead { next_free: self.next_free };
        std::mem::swap(&mut taken, &mut self.vec[i]);
        match taken {
            Slot::Alive(d) => {
                proof {
                    lemma_live_count_update(payloads(s0), i as int, None);
                }
                self.next_free = index;
                self.count = self.count - 1;
                self.free = Ghost(seq![i as int].add(f));
                proof {
                    let s = self.vec@;
                    let g = self.free@;
                    assert(payloads(s) =~= payloads(s0).update(i as int, None));
                    assert(!f.contains(i as int));
                    assert forall|k: int| 0 <= k < g.len() implies (#[trigger] s[g[k]]) is Dead
                        && link_of(s[g[k]]) == (if k + 1 < g.len() {
                        g[k + 1] as nat
                    } else {
                        IndexT::limit()
                    }) && 0 <= g[k] < s.len() by {
                        if k > 0 {
                            assert(g[k] == f[k - 1]);
                        }
                    }
                    assert forall|j: int| 0 <= j < s.len() && (#[trigger] s[j]) is Dead implies g.contains(j) by {
                        if j != i {
                            assert(s0[j] is Dead);
                            let k = choose|k: int| 0 <= k < f.len() && f[k] == j;
                            assert(g[k + 1] == j);
                        } else {
                            assert(g[0] == j);
                        }
                    }
                    assert(self.links_ok());
                }
                self.remove_trailing_dead_slots();
                Ok(d)
            },
            Slot::Dead { .. } => Err(TecError::DoubleRemove),
        }
    }

    /// Cuts off the run of dead slots at the end of storage. The free list
    /// is walked once; each node inside that run is spliced out by linking
    /// its predecessor (or the head) to the next node that stays.
    #[verifier::spinoff_prover]
    #[verifier::rlimit(80)]
    fn remove_trailing_dead_slots(&mut self)
        requires
            old(self).links_ok(),
        ensures
            final(self).wf(),
            final(self)@ == trim_dead(old(self)@),
            final(self).free_list() == old(self).free_list().filter(
                below(final(self)@.len() as int),
            ),
    {
        let ghost s0 = self.vec@;
        let ghost f = self.free@;
        let ghost v0 = payloads(s0);
        proof {
            self.next_free.lemma_bounds();
        }
        let found = find_start_of_trailing_dead_slots(self.vec.as_slice());
        let (start, _k) = match found {
            None => {
                proof {
                    if v0.len() > 0 {
                        assert(v0.last() is Some);
                    }
                    lemma_filter_keeps_all(f, s0.len() as int);
                }
                return;
            },
            Some(pair) => pair,
        };
        let p = start.cast_to();
        proof {
            lemma_trim_dead_from(v0, p as int);
        }
        if p == 0 {
            self.clear();
            proof {
                assert(v0.subrange(0, 0) =~= self@);
                lemma_filter_keeps_none(f, 0);
            }
            return;
        }
        let len = self.vec.len();
        let mut prev: Option<usize> = None;
        let mut cur: IndexT = self.next_free;
        let ghost mut j: int = 0;
        let ghost mut kept: Seq<int> = Seq::empty();
        while cur.cast_to() < len
            invariant
                len == s0.len(),
                0 < p < len,
                s0.len() <= IndexT::limit(),
                f.no_duplicates(),
                forall|k: int| 0 <= k < f.len() ==> 0 <= #[trigger] f[k] < s0.len(),
                forall|k: int| 0 <= k < f.len() ==> (#[trigger] s0[f[k]]) is Dead,
                forall|k: int|
                    0 <= k < f.len() ==> link_of(#[trigger] s0[f[k]]) == if k + 1 < f.len() {
                        f[k + 1] as nat
                    } else {
                        IndexT::limit()
                    },
                self.free@ == f,
                self.count == old(self).count,
                0 <= j <= f.len(),
                cur.pos() == if j < f.len() {
                    f[j] as nat
                } else {
                    IndexT::limit()
                },
                kept == f.subrange(0, j).filter(below(p as int)),
                kept.no_duplicates(),
                forall|t: int|
                    0 <= t < kept.len() ==> #[trigger] kept[t] < p && f.subrange(0, j).contains(
                        kept[t],
                    ),
                forall|m: int| 0 <= m < j && #[trigger] f[m] < p ==> kept.contains(f[m]),
                self.vec@.len() == len,
                forall|x: int|
                    0 <= x < len ==> slot_payload(#[trigger] self.vec@[x]) == slot_payload(s0[x]),
                forall|m: int| j <= m < f.len() ==> self.vec@[#[trigger] f[m]] == s0[f[m]],
                forall|t: int|
                    0 <= t < kept.len() - 1 ==> link_of(self.vec@[#[trigger] kept[t]])
                        == kept[t + 1],
                kept.len() > 0 ==> self.next_free.pos() == kept[0],
                prev == if kept.len() == 0 {
                    None::<usize>
                } else {
                    Some(kept.last() as usize)
                },
            decreases f.len() - j,
        {
            let c = cur.cast_to();
            let ghost j0 = j;
            let ghost kept0 = kept;
            proof {
                if j == f.len() {
                    cur.lemma_bounds();
                }
                assert(j < f.len());
                lemma_filter_prefix_step(f, j, p as int);
                assert(f.subrange(0, j + 1) =~= f.subrange(0, j).push(f[j]));
            }
            let link = match &self.vec[c] {
                Slot::Dead { next_free } => *next_free,
                Slot::Alive(_) => IndexT::max_value(),
            };
            if c < p {
                match prev {
                    None => {
                        self.next_free = cur;
                    },
                    Some(q) => {
                        self.vec[q] = Slot::Dead { next_free: cur };
                    },
                }
                prev = Some(c);
                proof {
                    assert forall|t: int| 0 <= t < kept.len() implies kept[t] != c by {
                        let m = choose|m: int| 0 <= m < j && f.subrange(0, j)[m] == kept[t];
                        assert(f[m] == kept[t]);
                    }
                    kept = kept.push(c as int);
                }
            }
            cur = link;
            proof {
                j = j + 1;
                assert forall|t: int| 0 <= t < kept.len() implies #[trigger] kept[t] < p
                    && f.subrange(0, j).contains(kept[t]) by {
                    if t < kept0.len() {
                        let m = choose|m: int| 0 <= m < j0 && f.subrange(0, j0)[m] == kept0[t];
                        assert(f.subrange(0, j)[m] == kept[t]);
                    } else {
                        assert(f.subrange(0, j)[j0] == kept[t]);
                    }
                }
                assert forall|m: int| 0 <= m < j && #[trigger] f[m] < p implies kept.contains(f[m]) by {
                    if m < j0 {
                        assert(kept0.contains(f[m]));
                        let t = choose|t: int| 0 <= t < kept0.len() && kept0[t] == f[m];
                        assert(kept[t] == f[m]);
                    } else {
                        assert(kept.last() == f[m]);
                    }
                }
            }
        }
        proof {
            if j < f.len() {
                assert(self.vec@[f[j]] == s0[f[j]]);
            }
            assert(j == f.len());
            assert(f.subrange(0, j) =~= f);
        }
        match prev {
            None => {
                self.next_free = IndexT::max_value();
            },
            Some(q) => {
                self.vec[q] = Slot::Dead { next_free: IndexT::max_value() };
            },
        }
        self.vec.truncate(p);
        self.free = Ghost(kept);
        proof {
            let s = self.vec@;
            assert(payloads(s) =~= v0.subrange(0, p as int));
            lemma_live_count_dead_tail(v0, p as int);
            assert(s.last() is Alive) by {
                assert(slot_payload(s[p - 1]) == v0[p - 1]);
            }
            assert forall|t: int| 0 <= t < kept.len() implies (#[trigger] s[kept[t]]) is Dead
                && 0 <= kept[t] < s.len() by {
                let m = choose|m: int| 0 <= m < j && f.subrange(0, j)[m] == kept[t];
                assert(f[m] == kept[t]);
                assert(slot_payload(s0[f[m]]) is None);
            }
            assert forall|x: int| 0 <= x < s.len() && (#[trigger] s[x]) is Dead implies kept.contains(x) by {
                assert(slot_payload(s0[x]) is None);
                assert(s0[x] is Dead);
                let m = choose|m: int| 0 <= m < f.len() && f[m] == x;
                assert(kept.contains(f[m]));
            }
        }
    }
    /// The positions of the free list, head first, found by following its
    /// links. Each dead slot appears exactly once, and nothing else does.
    pub fn get_free_list(&self) -> (r: Vec<usize>)
        requires
            self.wf(),
        ensures
            r@.len() == self.free_list().len(),
            forall|k: int| 0 <= k < r@.len() ==> r@[k] == self.free_list()[k],
            forall|a: int, b: int| 0 <= a < b < r@.len() ==> r@[a] != r@[b],
            forall|x: int|
                dead_set(self@).contains(x) <==> exists|k: int| 0 <= k < r@.len() && r@[k] == x,
    {
        proof {
            self.lemma_free_list_is_dead_set(self@.len());
        }
        let ghost f = self.free@;
        let len = self.vec.len();
        proof {
            lemma_live_count_bound(self@);
        }
        let mut acc: Vec<usize> = Vec::with_capacity(len - self.count);
        let mut cur = self.next_free;
        let ghost mut j: int = 0;
        while cur.cast_to() < len
            invariant
                self.wf(),
                f == self.free@,
                len == self.vec@.len(),
                0 <= j <= f.len(),
                cur.pos() == if j < f.len() {
                    f[j] as nat
                } else {
                    IndexT::limit()
                },
                acc@.len() == j,
                forall|k: int| 0 <= k < j ==> acc@[k] == f[k],
            decreases f.len() - j,
        {
            let c = cur.cast_to();
            proof {
                if j == f.len() {
                    cur.lemma_bounds();
                }
            }
            let link = match &self.vec[c] {
                Slot::Dead { next_free } => *next_free,
                Slot::Alive(_) => IndexT::max_value(),
            };
            acc.push(c);
            cur = link;
            proof {
                j = j + 1;
            }
        }
        proof {
            if j < f.len() {
                assert(f[j] < len);
            }
            assert forall|a: int, b: int| 0 <= a < b < acc@.len() implies acc@[a] != acc@[b] by {
                assert(f[a] != f[b]);
            }
            assert forall|x: int| dead_set(self@).contains(x) implies exists|k: int|
                0 <= k < acc@.len() && acc@[k] == x by {
                assert(f.to_set().contains(x));
                let k = choose|k: int| 0 <= k < f.len() && f[k] == x;
                assert(acc@[k] == x);
            }
            assert forall|x: int| (exists|k: int| 0 <= k < acc@.len() && acc@[k] == x) implies dead_set(
                self@,
            ).contains(x) by {
                let k = choose|k: int| 0 <= k < acc@.len() && acc@[k] == x;
                assert(f[k] == x);
                assert(f.contains(x));
                assert(f.to_set().contains(x));
            }
        }
        acc
    }

    /// The highest position in `(d, b]` holding a live slot, or `d` when
    /// there is none.
    fn last_alive_above(&self, d: usize, b: usize) -> (r: usize)
        requires
            d < b < self.vec@.len(),
        ensures
            d <= r <= b,
            forall|x: int| r < x <= b ==> (#[trigger] self.vec@[x]) is Dead,
            r > d ==> self.vec@[r as int] is Alive,
    {
        let mut r = b;
        while r > d
            invariant
                d <= r <= b < self.vec@.len(),
                forall|x: int| r < x <= b ==> (#[trigger] self.vec@[x]) is Dead,
            decreases r,
        {
            if let Slot::Alive(_) = &self.vec[r] {
                return r;
            }
            r = r - 1;
        }
        r
    }

    /// Moves live payloads from the end of storage into the dead slots
    /// below, smallest dead position first, until no dead slot is left;
    /// returns the moves as `(old, new)` handle pairs, in the order made.
    #[verifier::spinoff_prover]
    #[verifier::rlimit(80)]
    pub fn compact(&mut self) -> (moves: Vec<(IndexT, IndexT)>)
        requires
            old(self).wf(),
        ensures
            final(self).wf(),
            final(self).free_list().len() == 0,
            live_count(final(self)@) == final(self)@.len(),
            is_compaction(old(self)@, final(self)@, move_positions(moves@)),
    {
        let ghost s0 = self.vec@;
        let ghost v0 = payloads(s0);
        let ghost f = self.free@;
        let len = self.vec.len();
        let mut moves: Vec<(IndexT, IndexT)> = Vec::new();
        proof {
            lemma_live_count_bound(v0);
            self.next_free.lemma_bounds();
            assert(move_positions(moves@) =~= Seq::<(int, int)>::empty());
        }
        if self.next_free.cast_to() >= len {
            proof {
                assert(f.len() == 0);
                assert forall|x: int| 0 <= x < v0.len() implies (#[trigger] v0[x]) is Some by {
                    if s0[x] is Dead {
                        assert(f.contains(x));
                    }
                }
                lemma_live_count_full(v0);
                assert(v0.subrange(0, v0.len() as int) =~= v0);
            }
            return moves;
        }
        let free = self.get_free_list();
        let mut heap = MinHeap::new();
        let mut i: usize = 0;
        proof {
            let e = free@.subrange(0, 0);
            vstd::seq_lib::to_multiset_len(e);
            vstd::multiset::lemma_multiset_empty_len(e.to_multiset());
            assert(heap@ =~= e.to_multiset());
        }
        while i < free.len()
            invariant
                i <= free@.len(),
                heap.wf(),
                heap@ == free@.subrange(0, i as int).to_multiset(),
            decreases free@.len() - i,
        {
            proof {
                assert(free@.subrange(0, i + 1) =~= free@.subrange(0, i as int).push(free@[i as int]));
                vstd::seq_lib::to_multiset_build(free@.subrange(0, i as int), free@[i as int]);
            }
            heap.push(free[i]);
            i = i + 1;
        }
        proof {
            assert(free@.subrange(0, i as int) =~= free@);
            assert(free@.no_duplicates()) by {
                assert forall|a: int, c: int|
                    0 <= a < free@.len() && 0 <= c < free@.len() && a != c implies free@[a]
                    != free@[c] by {
                    assert(f[a] != f[c]);
                }
            }
            free@.lemma_multiset_has_no_duplicates();
            assert forall|y: usize| heap@.count(y) > 0 implies y < len && v0[y as int] is None
                && heap@.count(y) <= 1 by {
                vstd::seq_lib::to_multiset_contains(free@, y);
                let k = choose|k: int| 0 <= k < free@.len() && free@[k] == y;
                assert(f[k] == y);
            }
            assert forall|x: int| 0 <= x < len implies ((#[trigger] v0[x]) is None
                <==> heap@.count(x as usize) > 0) by {
                vstd::seq_lib::to_multiset_contains(free@, x as usize);
                if v0[x] is None {
                    assert(s0[x] is Dead);
                    assert(f.contains(x));
                    let k = choose|k: int| 0 <= k < f.len() && f[k] == x;
                    assert(free@[k] == x as usize);
                }
                if heap@.count(x as usize) > 0 {
                    let k = choose|k: int| 0 <= k < free@.len() && free@[k] == x as usize;
                    assert(f[k] == x);
                }
            }
            assert(apply_moves(v0, move_positions(moves@)) == v0);
        }
        let n = self.count;
        let mut b: usize = len - 1;
        let mut done = false;
        let ghost mut last_d: int = -1;
        let ghost mut split: int = 0;
        while !done
            invariant
                heap.wf(),
                s0.len() == len <= IndexT::limit(),
                v0 == payloads(s0),
                self.vec@.len() == len,
                self.count == n,
                n == live_count(v0),
                live_count(payloads(self.vec@)) == n,
                b < len,
                -1 <= last_d < len,
                forall|x: int| b < x < len ==> (#[trigger] payloads(self.vec@)[x]) is None,
                !done ==> forall|x: int|
                    0 <= x <= b ==> ((#[trigger] payloads(self.vec@)[x]) is None <==> heap@.count(
                        x as usize,
                    ) > 0),
                forall|y: usize|
                    #[trigger] heap@.count(y) > 0 ==> heap@.count(y) <= 1 && last_d < y < len
                        && v0[y as int] is None,
                done ==> 0 <= split <= len && split <= b + 1,
                done ==> forall|x: int|
                    0 <= x < split ==> (#[trigger] payloads(self.vec@)[x]) is Some,
                done ==> forall|x: int|
                    split <= x < len ==> (#[trigger] payloads(self.vec@)[x]) is None,
                payloads(self.vec@) == apply_moves(v0, move_positions(moves@)),
                forall|k: int|
                    0 <= k < moves@.len() ==> {
                        let m = #[trigger] move_positions(moves@)[k];
                        &&& 0 <= m.1 <= last_d
                        &&& b < m.0 < len
                        &&& v0[m.0] is Some
                        &&& v0[m.1] is None
                        &&& payloads(self.vec@)[m.1] is Some
                        &&& payloads(self.vec@)[m.0] is None
                    },
                forall|k1: int, k2: int|
                    0 <= k1 < k2 < moves@.len() ==> (#[trigger] move_positions(moves@)[k1]).1 < (
                    #[trigger] move_positions(moves@)[k2]).1 && move_positions(moves@)[k1].0
                        > move_positions(moves@)[k2].0,
                forall|x: int|
                    0 <= x < len && (forall|k: int|
                        0 <= k < moves@.len() ==> (#[trigger] move_positions(moves@)[k]).0 != x
                            && move_positions(moves@)[k].1 != x) ==> (#[trigger] payloads(
                        self.vec@,
                    )[x]) == v0[x],
            decreases len - last_d, (if done {
                0int
            } else {
                1int
            }),
        {
            let ghost h0 = heap@;
            let ghost sv0 = payloads(self.vec@);
            let ghost mp0 = move_positions(moves@);
            match heap.pop() {
                None => {
                    done = true;
                    proof {
                        split = b + 1;
                        assert forall|x: int| 0 <= x < split implies (#[trigger] payloads(
                            self.vec@,
                        )[x]) is Some by {
                            assert(h0.count(x as usize) == 0);
                        }
                    }
                },
                Some(d) => {
                    proof {
                        last_d = d as int;
                    }
                    if b > d {
                        b = self.last_alive_above(d, b);
                    }
                    if b <= d {
                        done = true;
                        proof {
                            split = if b == d {
                                b as int
                            } else {
                                b + 1
                            };
                            assert forall|x: int| 0 <= x < split implies (#[trigger] payloads(
                                self.vec@,
                            )[x]) is Some by {
                                if h0.count(x as usize) > 0 {
                                    assert(d <= x as usize);
                                }
                            }
                        }
                    } else {
                        proof {
                            assert(sv0[b as int] == slot_payload(self.vec@[b as int]));
                            assert forall|k: int| 0 <= k < moves@.len() implies (#[trigger] mp0[k]).0
                                != b && mp0[k].1 != b by {}
                            assert(sv0[b as int] == v0[b as int]);
                            lemma_live_count_update(sv0, d as int, sv0[b as int]);
                            lemma_live_count_update(sv0.update(d as int, sv0[b as int]), b as int, None);
                        }
                        let mut taken = Slot::Dead { next_free: IndexT::max_value() };
                        std::mem::swap(&mut taken, &mut self.vec[b]);
                        self.vec[d] = taken;
                        let ghost m = (b as int, d as int);
                        moves.push((IndexT::cast_from(b), IndexT::cast_from(d)));
                        proof {
                            let sv = payloads(self.vec@);
                            let mp = move_positions(moves@);
                            assert(sv =~= relocate(sv0, m));
                            assert(mp =~= mp0.push(m));
                            assert(mp.drop_last() =~= mp0);
                        }
                        b = b - 1;
                        proof {
                            let sv = payloads(self.vec@);
                            let mp = move_positions(moves@);
                            assert forall|x: int| 0 <= x <= b implies ((#[trigger] sv[x]) is None
                                <==> heap@.count(x as usize) > 0) by {
                                if x != d {
                                    assert(sv[x] == sv0[x]);
                                }
                            }
                            assert forall|k: int| 0 <= k < moves@.len() implies {
                                let mk = #[trigger] mp[k];
                                &&& 0 <= mk.1 <= last_d
                                &&& b < mk.0 < len
                                &&& v0[mk.0] is Some
                                &&& v0[mk.1] is None
                                &&& sv[mk.1] is Some
                                &&& sv[mk.0] is None
                            } by {
                                if k < mp0.len() {
                                    assert(mp[k] == mp0[k]);
                                }
                            }
                            assert forall|x: int|
                                0 <= x < len && (forall|k: int|
                                    0 <= k < moves@.len() ==> (#[trigger] mp[k]).0 != x && mp[k].1
                                        != x) implies (#[trigger] sv[x]) == v0[x] by {
                                assert forall|k: int| 0 <= k < mp0.len() implies (#[trigger] mp0[k]).0
                                    != x && mp0[k].1 != x by {
                                    assert(mp[k] == mp0[k]);
                                }
                                assert(mp[mp0.len() as int] == m);
                            }
                        }
                    }
                },
            }
        }
        proof {
            let sv = payloads(self.vec@);
            lemma_live_count_dead_tail(sv, split);
            assert forall|x: int| 0 <= x < split implies (#[trigger] sv.subrange(0, split)[x]) is Some by {}
            lemma_live_count_full(sv.subrange(0, split));
        }
        self.vec.truncate(n);
        self.next_free = IndexT::max_value();
        self.free = Ghost(Seq::empty());
        proof {
            let mp = move_positions(moves@);
            let sv = apply_moves(v0, mp);
            let t = payloads(self.vec@);
            assert(t =~= sv.subrange(0, n as int));
            assert forall|x: int| 0 <= x < t.len() implies (#[trigger] t[x]) is Some by {
                assert(sv[x] is Some);
            }
            lemma_live_count_full(t);
            assert forall|x: int| 0 <= x < self.vec@.len() implies (#[trigger] self.vec@[x]) is Alive by {
                assert(t[x] is Some);
            }
            if self.vec@.len() > 0 {
                assert(t[t.len() - 1] is Some);
            }
            assert forall|x: int| 0 <= x < n && (#[trigger] v0[x]) is None implies exists|k: int|
                0 <= k < mp.len() && (#[trigger] mp[k]).1 == x by {
                if forall|k: int| 0 <= k < mp.len() ==> (#[trigger] mp[k]).1 != x {
                    assert forall|k: int| 0 <= k < moves@.len() implies (#[trigger] mp[k]).0 != x
                        && mp[k].1 != x by {}
                    assert(sv[x] == v0[x]);
                }
            }
            assert forall|y: int| n <= y < len && (#[trigger] v0[y]) is Some implies exists|k: int|
                0 <= k < mp.len() && (#[trigger] mp[k]).0 == y by {
                if forall|k: int| 0 <= k < mp.len() ==> (#[trigger] mp[k]).0 != y {
                    assert forall|k: int| 0 <= k < moves@.len() implies (#[trigger] mp[k]).0 != y
                        && mp[k].1 != y by {}
                    assert(sv[y] == v0[y]);
                }
            }
        }
        moves
    }
    /// Compacts storage as [`Tec::compact`] does and reports each move to
    /// `f` as `f(old_index, new_index)`, in the order made, before
    /// returning. Nothing is reported for items that stay in place.
    pub fn coalesce<F: FnMut(IndexT, IndexT)>(&mut self, mut f: F)
        requires
            old(self).wf(),
            forall|a: IndexT, b: IndexT| f.requires((a, b)),
        ensures
            final(self).wf(),
            final(self).free_list().len() == 0,
            live_count(final(self)@) == final(self)@.len(),
            exists|ms: Seq<(int, int)>| is_compaction(old(self)@, final(self)@, ms),
    {
        let moves = self.compact();
        let mut i: usize = 0;
        while i < moves.len()
            invariant
                i <= moves@.len(),
                forall|a: IndexT, b: IndexT| f.requires((a, b)),
            decreases moves@.len() - i,
        {
            let (from, to) = moves[i];
            f(from, to);
            i = i + 1;
        }
    }
    /// Mutable access to the item at `index`, or `None` when the slot there
    /// is dead or `index` lies past the end of storage.
    pub fn get_mut(&mut self, index: IndexT) -> (r: Option<&mut DataT>)
        requires
            old(self).wf(),
        ensures
            r is Some ==> old(self).lookup(index) == Some(*r->Some_0),
            r is Some ==> final(self).wf(),
            r is Some ==> final(self)@ == old(self)@.update(index.pos() as int, Some(*final(r->Some_0))),
            r is Some ==> final(self).free_list() == old(self).free_list(),
            r is None ==> old(self).lookup(index) is None && *final(self) == *old(self),
    {
        let i = index.cast_to();
        if i >= self.vec.len() {
            return None;
        }
        if let Slot::Dead { .. } = &self.vec[i] {
            return None;
        }
        proof {
            assert forall|t1: Self|
                t1.vec@.len() == self.vec@.len() && t1.vec@ == self.vec@.update(
                    i as int,
                    t1.vec@[i as int],
                ) && t1.vec@[i as int] is Alive && t1.next_free == self.next_free && t1.count
                    == self.count && t1.free == self.free && self.vec@[i as int] is Alive implies #[trigger] t1.wf()
                && t1@ == self@.update(i as int, slot_payload(t1.vec@[i as int])) by {
                Self::lemma_refill_alive(*self, t1, i as int, t1.vec@[i as int]->Alive_0);
            }
        }
        match &mut self.vec[i] {
            Slot::Alive(d) => Some(d),
            Slot::Dead { .. } => None,
        }
    }

    /// Replacing the payload of a live slot keeps the invariant.
    proof fn lemma_refill_alive(t0: Self, t1: Self, i: int, v: DataT)
        requires
            t0.wf(),
            0 <= i < t0.vec@.len(),
            t0.vec@[i] is Alive,
            t1.vec@ == t0.vec@.update(i, Slot::Alive(v)),
            t1.next_free == t0.next_free,
            t1.count == t0.count,
            t1.free == t0.free,
        ensures
            t1.wf(),
            t1@ == t0@.update(i, Some(v)),
    {
        assert(t1@ =~= t0@.update(i, Some(v)));
        lemma_live_count_update(t0@, i, Some(v));
        let f = t0.free@;
        assert forall|k: int| 0 <= k < f.len() implies t1.vec@[f[k]] == t0.vec@[f[k]] by {
            assert(f[k] != i);
        }
    }

    /// The live items, in storage order.
    pub fn iter(&self) -> (r: Vec<&DataT>)
        requires
            self.wf(),
        ensures
            r@.map_values(|x: &DataT| *x) == live_payloads(self@),
    {
        let mut r: Vec<&DataT> = Vec::new();
        let mut i: usize = 0;
        while i < self.vec.len()
            invariant
                i <= self.vec@.len(),
                r@.map_values(|x: &DataT| *x) == live_payloads(self@.subrange(0, i as int)),
            decreases self.vec@.len() - i,
        {
            proof {
                let t = self@.subrange(0, i + 1);
                assert(t.drop_last() =~= self@.subrange(0, i as int));
                assert(t.last() == slot_payload(self.vec@[i as int]));
            }
            if let Slot::Alive(d) = &self.vec[i] {
                r.push(d);
            }
            i = i + 1;
            proof {
                assert(r@.map_values(|x: &DataT| *x) =~= live_payloads(self@.subrange(0, i as int)));
            }
        }
        proof {
            assert(self@.subrange(0, i as int) =~= self@);
        }
        r
    }

    /// The live items with their handles, in storage order.
    pub fn iter_with_id(&self) -> (r: Vec<(IndexT, &DataT)>)
        requires
            self.wf(),
        ensures
            r@.map_values(|e: (IndexT, &DataT)| (e.0.pos() as int, *e.1)) == live_entries(self@),
    {
        let mut r: Vec<(IndexT, &DataT)> = Vec::new();
        let mut i: usize = 0;
        while i < self.vec.len()
            invariant
                self.wf(),
                i <= self.vec@.len(),
                r@.map_values(|e: (IndexT, &DataT)| (e.0.pos() as int, *e.1)) == live_entries(
                    self@.subrange(0, i as int),
                ),
            decreases self.vec@.len() - i,
        {
            proof {
                let t = self@.subrange(0, i + 1);
                assert(t.drop_last() =~= self@.subrange(0, i as int));
                assert(t.last() == slot_payload(self.vec@[i as int]));
            }
            if let Slot::Alive(d) = &self.vec[i] {
                r.push((IndexT::cast_from(i), d));
            }
            i = i + 1;
            proof {
                assert(r@.map_values(|e: (IndexT, &DataT)| (e.0.pos() as int, *e.1))
                    =~= live_entries(self@.subrange(0, i as int)));
            }
        }
        proof {
            assert(self@.subrange(0, i as int) =~= self@);
        }
        r
    }

    /// The live items with their handles, in storage order, taken out of
    /// the storage.
    pub fn into_iter_with_id(self) -> (r: Vec<(IndexT, DataT)>)
        requires
            self.wf(),
        ensures
            r@.map_values(|e: (IndexT, DataT)| (e.0.pos() as int, e.1)) == live_entries(self@),
    {
        let ghost e = live_entries(self@);
        let ghost s0 = self.vec@;
        proof {
            assert(s0.subrange(0, s0.len() as int) =~= s0);
        }
        let mut vec = self.vec;
        let mut rev: Vec<(IndexT, DataT)> = Vec::new();
        while vec.len() > 0
            invariant
                s0.len() <= IndexT::limit(),
                e == live_entries(payloads(s0)),
                vec@.len() <= s0.len(),
                vec@ == s0.subrange(0, vec@.len() as int),
                live_entries(payloads(vec@)).len() + rev@.len() == e.len(),
                forall|k: int|
                    0 <= k < live_entries(payloads(vec@)).len() ==> #[trigger] live_entries(
                        payloads(vec@),
                    )[k] == e[k],
                forall|k: int|
                    0 <= k < rev@.len() ==> ((#[trigger] rev@[k]).0.pos() as int, rev@[k].1)
                        == e[e.len() - 1 - k],
            decreases vec@.len(),
        {
            let n = vec.len();
            let ghost v = payloads(vec@);
            let ghost l = live_entries(v);
            let slot = vec.pop().unwrap();
            proof {
                assert(payloads(vec@) =~= v.drop_last());
                assert(vec@ =~= s0.subrange(0, vec@.len() as int));
                assert(v.last() == slot_payload(slot));
            }
            let ghost rv = rev@;
            if let Slot::Alive(d) = slot {
                rev.push((IndexT::cast_from(n - 1), d));
            }
            proof {
                let l2 = live_entries(payloads(vec@));
                assert(l == match v.last() {
                    Some(d) => l2.push(((v.len() - 1) as int, d)),
                    None => l2,
                });
                assert forall|k: int| 0 <= k < l2.len() implies #[trigger] l2[k] == e[k] by {
                    assert(l[k] == l2[k]);
                }
                assert forall|k: int| 0 <= k < rev@.len() implies ((#[trigger] rev@[k]).0.pos()
                    as int, rev@[k].1) == e[e.len() - 1 - k] by {
                    if k < rv.len() {
                        assert(rev@[k] == rv[k]);
                    } else {
                        assert(l[l.len() - 1] == e[l.len() - 1]);
                    }
                }
            }
        }
        proof {
            assert(payloads(vec@) =~= Seq::<Option<DataT>>::empty());
        }
        let mut r: Vec<(IndexT, DataT)> = Vec::new();
        while rev.len() > 0
            invariant
                r@.len() + rev@.len() == e.len(),
                forall|k: int|
                    0 <= k < r@.len() ==> ((#[trigger] r@[k]).0.pos() as int, r@[k].1) == e[k],
                forall|k: int|
                    0 <= k < rev@.len() ==> ((#[trigger] rev@[k]).0.pos() as int, rev@[k].1)
                        == e[e.len() - 1 - k],
            decreases rev@.len(),
        {
            let ghost rv = rev@;
            let x = rev.pop().unwrap();
            proof {
                assert(rv[rv.len() - 1] == x);
                assert forall|k: int| 0 <= k < rev@.len() implies ((#[trigger] rev@[k]).0.pos()
                    as int, rev@[k].1) == e[e.len() - 1 - k] by {
                    assert(rev@[k] == rv[k]);
                }
            }
            r.push(x);
        }
        proof {
            assert(r@.map_values(|e: (IndexT, DataT)| (e.0.pos() as int, e.1)) =~= e);
        }
        r
    }

    /// Stores `DataT::default()` as [`Tec::allocate`] stores a value.
    pub fn alloc_default(&mut self) -> (r: Result<IndexT, TecError>) where DataT: Default
        requires
            old(self).wf(),
        ensures
            final(self).wf(),
            exists|d: DataT|
                call_ensures(DataT::default, (), d) && Self::allocate_post(
                    *old(self),
                    *final(self),
                    d,
                    r,
                ),
    {
        let d = DataT::default();
        let ghost g = d;
        let r = self.allocate(d);
        proof {
            assert(call_ensures(DataT::default, (), g) && Self::allocate_post(*old(self), *self, g, r));
        }
        r
    }

    /// `count` items of `DataT::default()` in slots `0..count`.
    pub fn populate_defaults(count: usize) -> (r: Self) where DataT: Default
        requires
            count <= IndexT::limit(),
        ensures
            r.wf(),
            r@.len() == count,
            forall|x: int|
                0 <= x < count ==> (#[trigger] r@[x]) is Some && call_ensures(
                    DataT::default,
                    (),
                    r@[x]->Some_0,
                ),
            r.free_list().len() == 0,
    {
        let mut r = Self::with_capacity(count);
        let mut i: usize = 0;
        while i < count
            invariant
                i <= count <= IndexT::limit(),
                r.wf(),
                r@.len() == i,
                forall|x: int|
                    0 <= x < i ==> (#[trigger] r@[x]) is Some && call_ensures(
                        DataT::default,
                        (),
                        r@[x]->Some_0,
                    ),
                r.free_list().len() == 0,
            decreases count - i,
        {
            let ghost prev = r@;
            let v = DataT::default();
            let _ = r.allocate(v);
            proof {
                assert forall|x: int| 0 <= x < i + 1 implies (#[trigger] r@[x]) is Some
                    && call_ensures(DataT::default, (), r@[x]->Some_0) by {
                    if x < i {
                        assert(r@[x] == prev[x]);
                    }
                }
            }
            i = i + 1;
        }
        r
    }

    /// Recomputes the dead slots twice, once by a scan of storage and once
    /// by a walk of the free list, and reports whether the two agree and
    /// the walk meets each dead slot once. It always does.
    pub fn check_consistency(&self) -> (r: bool)
        requires
            self.wf(),
        ensures
            r,
    {
        let len = self.vec.len();
        let list = self.get_free_list();
        let ghost f = self.free@;
        let mut seen: Vec<bool> = Vec::with_capacity(len);
        let mut x: usize = 0;
        while x < len
            invariant
                x <= len == self.vec@.len(),
                seen@.len() == x,
                forall|y: int| 0 <= y < x ==> !(#[trigger] seen@[y]),
            decreases len - x,
        {
            seen.push(false);
            x = x + 1;
        }
        let mut i: usize = 0;
        while i < list.len()
            invariant
                self.wf(),
                f == self.free@,
                len == self.vec@.len(),
                list@.len() == f.len(),
                forall|k: int| 0 <= k < list@.len() ==> list@[k] == f[k],
                i <= list@.len(),
                seen@.len() == len,
                forall|y: int|
                    0 <= y < len ==> (#[trigger] seen@[y] <==> f.subrange(0, i as int).contains(y)),
            decreases list@.len() - i,
        {
            let p = list[i];
            proof {
                assert(list@[i as int] == f[i as int]);
                assert(0 <= f[i as int] < len);
                assert(self.vec@[f[i as int]] is Dead);
            }
            if p >= len || seen[p] {
                proof {
                    if p < len {
                        let k = choose|k: int| 0 <= k < i && f.subrange(0, i as int)[k] == p;
                        assert(f[k] == f[i as int]);
                    }
                }
                return false;
            }
            if let Slot::Alive(_) = &self.vec[p] {
                return false;
            }
            let ghost seen0 = seen@;
            seen.set(p, true);
            proof {
                let g0 = f.subrange(0, i as int);
                let g1 = f.subrange(0, i + 1);
                assert(g1 =~= g0.push(p as int));
                assert forall|y: int| 0 <= y < len implies (#[trigger] seen@[y] <==> g1.contains(y)) by {
                    if y != p {
                        assert(seen@[y] == seen0[y]);
                        if g1.contains(y) {
                            let k = choose|k: int| 0 <= k < g1.len() && g1[k] == y;
                            assert(g0[k] == y);
                        }
                        if g0.contains(y) {
                            let k = choose|k: int| 0 <= k < g0.len() && g0[k] == y;
                            assert(g1[k] == y);
                        }
                    } else {
                        assert(g1[i as int] == y);
                    }
                }
            }
            i = i + 1;
        }
        proof {
            assert(f.subrange(0, i as int) =~= f);
        }
        let mut y: usize = 0;
        while y < len
            invariant
                self.wf(),
                f == self.free@,
                len == self.vec@.len(),
                seen@.len() == len,
                forall|z: int| 0 <= z < len ==> (#[trigger] seen@[z] <==> f.contains(z)),
                y <= len,
            decreases len - y,
        {
            let dead = match &self.vec[y] {
                Slot::Dead { .. } => true,
                Slot::Alive(_) => false,
            };
            if dead != seen[y] {
                proof {
                    if seen@[y as int] {
                        let k = choose|k: int| 0 <= k < f.len() && f[k] == y;
                        assert(self.vec@[f[k]] is Dead);
                    }
                }
                return false;
            }
            y = y + 1;
        }
        true
    }

    /// `count` slots, each holding a clone of `data`.
    pub fn populate(data: DataT, count: usize) -> (r: Self) where DataT: Clone
        requires
            count <= IndexT::limit(),
        ensures
            r.wf(),
            r@.len() == count,
            r.free_list().len() == 0,
            forall|x: int|
                0 <= x < count ==> (#[trigger] r@[x]) is Some && call_ensures(
                    DataT::clone,
                    (&data,),
                    r@[x]->Some_0,
                ),
    {
        let mut r = Self::with_capacity(count);
        let mut i: usize = 0;
        while i < count
            invariant
                i <= count <= IndexT::limit(),
                r.wf(),
                r@.len() == i,
                r.free_list().len() == 0,
                forall|x: int|
                    0 <= x < i ==> (#[trigger] r@[x]) is Some && call_ensures(
                        DataT::clone,
                        (&data,),
                        r@[x]->Some_0,
                    ),
            decreases count - i,
        {
            let ghost prev = r@;
            let v = data.clone();
            let _ = r.allocate(v);
            proof {
                assert forall|x: int| 0 <= x < i + 1 implies (#[trigger] r@[x]) is Some && call_ensures(
                    DataT::clone,
                    (&data,),
                    r@[x]->Some_0,
                ) by {
                    if x < i {
                        assert(r@[x] == prev[x]);
                    }
                }
            }
            i = i + 1;
        }
        r
    }
}

impl<DataT, IndexT: StableIndex> Default for Tec<DataT, IndexT> {
    fn default() -> (r: Self)
        ensures
            r.wf(),
            r@.len() == 0,
            r.free_list().len() == 0,
    {
        Self::new()
    }
}

} // verus!
