use vstd::prelude::*;

use crate::index::StableIndex;
use crate::slot::Slot;

verus! {

/// Number of occupied cells.
pub open spec fn live_count<DataT>(s: Seq<Option<DataT>>) -> nat
    decreases s.len(),
{
    if s.len() == 0 {
        0
    } else {
        live_count(s.drop_last()) + if s.last() is Some {
            1nat
        } else {
            0nat
        }
    }
}

/// The payloads of the occupied cells, in storage order.
pub open spec fn live_payloads<DataT>(s: Seq<Option<DataT>>) -> Seq<DataT> {
    s.filter_map(|o: Option<DataT>| o)
}

/// The occupied cells as `(position, payload)` pairs, in storage order.
pub open spec fn live_entries<DataT>(s: Seq<Option<DataT>>) -> Seq<(int, DataT)>
    decreases s.len(),
{
    if s.len() == 0 {
        Seq::empty()
    } else {
        let rest = live_entries(s.drop_last());
        match s.last() {
            Some(d) => rest.push(((s.len() - 1) as int, d)),
            None => rest,
        }
    }
}

/// The positions of the empty cells.
pub open spec fn dead_set<DataT>(s: Seq<Option<DataT>>) -> Set<int> {
    Set::new(|i: int| 0 <= i < s.len() && s[i] is None)
}

/// The positions met by following free-list links from position `cur`,
/// for at most `fuel` steps. The walk stops at a position that holds no
/// dead slot, such as the marker value, which lies past the end of storage.
pub open spec fn walk<DataT, IndexT: StableIndex>(
    s: Seq<Slot<DataT, IndexT>>,
    cur: nat,
    fuel: nat,
) -> Seq<int>
    decreases fuel,
{
    if fuel == 0 || cur >= s.len() || s[cur as int] is Alive {
        Seq::empty()
    } else {
        seq![cur as int] + walk(s, link_of(s[cur as int]), (fuel - 1) as nat)
    }
}

/// Positions below `n`.
pub open spec fn below(n: int) -> spec_fn(int) -> bool {
    |x: int| x < n
}

/// The free-list link a dead slot carries.
pub open spec fn link_of<DataT, IndexT: StableIndex>(s: Slot<DataT, IndexT>) -> nat {
    match s {
        Slot::Dead { next_free } => next_free.pos(),
        Slot::Alive(_) => 0,
    }
}

/// Overwriting one cell changes the count by what left and what came.
pub proof fn lemma_live_count_update<DataT>(s: Seq<Option<DataT>>, i: int, v: Option<DataT>)
    requires
        0 <= i < s.len(),
    ensures
        live_count(s.update(i, v)) + (if s[i] is Some {
            1int
        } else {
            0int
        }) == live_count(s) + (if v is Some {
            1int
        } else {
            0int
        }),
    decreases s.len(),
{
    let u = s.update(i, v);
    if i == s.len() - 1 {
        assert(u.drop_last() =~= s.drop_last());
    } else {
        assert(u.drop_last() =~= s.drop_last().update(i, v));
        lemma_live_count_update(s.drop_last(), i, v);
    }
}

/// Appending a cell counts it if it is occupied.
pub proof fn lemma_live_count_push<DataT>(s: Seq<Option<DataT>>, v: Option<DataT>)
    ensures
        live_count(s.push(v)) == live_count(s) + if v is Some {
            1nat
        } else {
            0nat
        },
{
    assert(s.push(v).drop_last() =~= s);
}

/// No more cells are occupied than there are cells.
pub proof fn lemma_live_count_bound<DataT>(s: Seq<Option<DataT>>)
    ensures
        live_count(s) <= s.len(),
    decreases s.len(),
{
    if s.len() > 0 {
        lemma_live_count_bound(s.drop_last());
    }
}

/// Cells past `n` that are all empty do not count.
pub proof fn lemma_live_count_dead_tail<DataT>(s: Seq<Option<DataT>>, n: int)
    requires
        0 <= n <= s.len(),
        forall|i: int| n <= i < s.len() ==> (#[trigger] s[i]) is None,
    ensures
        live_count(s) == live_count(s.subrange(0, n)),
    decreases s.len() - n,
{
    if s.len() > n {
        lemma_live_count_dead_tail(s.drop_last(), n);
        assert(s.drop_last().subrange(0, n) =~= s.subrange(0, n));
    } else {
        assert(s.subrange(0, n) =~= s);
    }
}

/// With no empty cell, every cell counts.
pub proof fn lemma_live_count_full<DataT>(s: Seq<Option<DataT>>)
    requires
        forall|i: int| 0 <= i < s.len() ==> (#[trigger] s[i]) is Some,
    ensures
        live_count(s) == s.len(),
    decreases s.len(),
{
    if s.len() > 0 {
        lemma_live_count_full(s.drop_last());
    }
}

/// Filtering a prefix one element longer.
pub proof fn lemma_filter_prefix_step(s: Seq<int>, j: int, n: int)
    requires
        0 <= j < s.len(),
    ensures
        s.subrange(0, j + 1).filter(below(n)) == if s[j] < n {
            s.subrange(0, j).filter(below(n)).push(s[j])
        } else {
            s.subrange(0, j).filter(below(n))
        },
{
    reveal(Seq::filter);
    assert(s.subrange(0, j + 1).drop_last() =~= s.subrange(0, j));
}

/// A filter that every element passes keeps the sequence whole.
pub proof fn lemma_filter_keeps_all(s: Seq<int>, n: int)
    requires
        forall|k: int| 0 <= k < s.len() ==> #[trigger] s[k] < n,
    ensures
        s.filter(below(n)) == s,
    decreases s.len(),
{
    reveal(Seq::filter);
    if s.len() > 0 {
        lemma_filter_keeps_all(s.drop_last(), n);
        assert(s.drop_last().push(s.last()) =~= s);
    }
}

/// A filter that no element passes leaves nothing.
pub proof fn lemma_filter_keeps_none(s: Seq<int>, n: int)
    requires
        forall|k: int| 0 <= k < s.len() ==> #[trigger] s[k] >= n,
    ensures
        s.filter(below(n)) == Seq::<int>::empty(),
    decreases s.len(),
{
    reveal(Seq::filter);
    if s.len() > 0 {
        lemma_filter_keeps_none(s.drop_last(), n);
    }
}

} // verus!
