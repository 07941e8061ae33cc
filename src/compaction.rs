use vstd::multiset::Multiset;
use vstd::prelude::*;

use crate::index::StableIndex;
use crate::model::live_count;

verus! {

/// `s` after the payload at `m.0` moved into the cell at `m.1`.
pub open spec fn relocate<DataT>(s: Seq<Option<DataT>>, m: (int, int)) -> Seq<Option<DataT>> {
    s.update(m.1, s[m.0]).update(m.0, None)
}

/// `s` after the moves `ms`, first to last.
pub open spec fn apply_moves<DataT>(s: Seq<Option<DataT>>, ms: Seq<(int, int)>) -> Seq<
    Option<DataT>,
>
    decreases ms.len(),
{
    if ms.len() == 0 {
        s
    } else {
        relocate(apply_moves(s, ms.drop_last()), ms.last())
    }
}

/// The moves as pairs of positions `(old, new)`.
pub open spec fn move_positions<IndexT: StableIndex>(ms: Seq<(IndexT, IndexT)>) -> Seq<(int, int)> {
    ms.map_values(|m: (IndexT, IndexT)| (m.0.pos() as int, m.1.pos() as int))
}

/// `t` is the dense form of `s` reached by the moves `ms`: each move takes
/// a payload from at or past the live count into an empty cell below it,
/// the targets rising and the sources falling from one move to the next;
/// every empty cell below the live count is a target, every payload at or
/// past it a source; what is left past the live count is cut off.
pub open spec fn is_compaction<DataT>(
    s: Seq<Option<DataT>>,
    t: Seq<Option<DataT>>,
    ms: Seq<(int, int)>,
) -> bool {
    let n = live_count(s) as int;
    &&& n <= s.len()
    &&& t == apply_moves(s, ms).subrange(0, n)
    &&& forall|x: int| 0 <= x < t.len() ==> (#[trigger] t[x]) is Some
    &&& forall|x: int| n <= x < s.len() ==> (#[trigger] apply_moves(s, ms)[x]) is None
    &&& forall|k: int|
        0 <= k < ms.len() ==> {
            &&& 0 <= (#[trigger] ms[k]).1 < n <= ms[k].0 < s.len()
            &&& s[ms[k].0] is Some
            &&& s[ms[k].1] is None
        }
    &&& forall|k1: int, k2: int|
        0 <= k1 < k2 < ms.len() ==> (#[trigger] ms[k1]).1 < (#[trigger] ms[k2]).1 && ms[k1].0
            > ms[k2].0
    &&& forall|x: int|
        0 <= x < n && (#[trigger] s[x]) is None ==> exists|k: int|
            0 <= k < ms.len() && (#[trigger] ms[k]).1 == x
    &&& forall|y: int|
        n <= y < s.len() && (#[trigger] s[y]) is Some ==> exists|k: int|
            0 <= k < ms.len() && (#[trigger] ms[k]).0 == y
}

/// The payload of a cell, as a multiset of zero or one element.
pub open spec fn cell_multiset<DataT>(o: Option<DataT>) -> Multiset<DataT> {
    match o {
        Some(d) => Multiset::singleton(d),
        None => Multiset::empty(),
    }
}

/// The payloads of the occupied cells, counted with repetition.
pub open spec fn live_multiset<DataT>(s: Seq<Option<DataT>>) -> Multiset<DataT>
    decreases s.len(),
{
    if s.len() == 0 {
        Multiset::empty()
    } else {
        live_multiset(s.drop_last()).add(cell_multiset(s.last()))
    }
}

/// Overwriting one cell trades the payload that left for the one that came.
pub proof fn lemma_live_multiset_update<DataT>(s: Seq<Option<DataT>>, i: int, v: Option<DataT>)
    requires
        0 <= i < s.len(),
    ensures
        live_multiset(s.update(i, v)).add(cell_multiset(s[i])) == live_multiset(s).add(
            cell_multiset(v),
        ),
    decreases s.len(),
{
    broadcast use vstd::multiset::group_multiset_axioms;

    let u = s.update(i, v);
    let l = live_multiset(s.drop_last());
    assert(live_multiset(s) == l.add(cell_multiset(s.last())));
    assert(live_multiset(u) == live_multiset(u.drop_last()).add(cell_multiset(u.last())));
    if i == s.len() - 1 {
        assert(u.drop_last() =~= s.drop_last());
        assert(live_multiset(u).add(cell_multiset(s[i])) =~= live_multiset(s).add(
            cell_multiset(v),
        ));
    } else {
        let d = s.drop_last().update(i, v);
        assert(u.drop_last() =~= d);
        assert(u.last() == s.last());
        assert(s.drop_last()[i] == s[i]);
        lemma_live_multiset_update(s.drop_last(), i, v);
        assert(live_multiset(u) == live_multiset(d).add(cell_multiset(s.last())));
        assert forall|x: DataT|
            #[trigger] live_multiset(u).add(cell_multiset(s[i])).count(x) == live_multiset(s).add(
                cell_multiset(v),
            ).count(x) by {
            assert(live_multiset(d).add(cell_multiset(s[i])).count(x) == l.add(
                cell_multiset(v),
            ).count(x));
        }
        assert(live_multiset(u).add(cell_multiset(s[i])) =~= live_multiset(s).add(
            cell_multiset(v),
        ));
    }
}

/// One move into an empty cell keeps the payloads.
pub proof fn lemma_relocate_keeps_payloads<DataT>(a: Seq<Option<DataT>>, m: (int, int))
    requires
        0 <= m.0 < a.len(),
        0 <= m.1 < a.len(),
        m.0 != m.1,
        a[m.1] is None,
    ensures
        live_multiset(relocate(a, m)) == live_multiset(a),
{
    broadcast use vstd::multiset::group_multiset_axioms;

    let a1 = a.update(m.1, a[m.0]);
    assert(a1.len() == a.len());
    lemma_live_multiset_update(a, m.1, a[m.0]);
    lemma_live_multiset_update(a1, m.0, None);
    assert(a1[m.0] == a[m.0]);
    let r = relocate(a, m);
    assert forall|x: DataT| #[trigger] live_multiset(r).count(x) == live_multiset(a).count(x) by {
        assert(live_multiset(a1).add(cell_multiset(a[m.1])).count(x) == live_multiset(a).add(
            cell_multiset(a[m.0]),
        ).count(x));
        assert(live_multiset(r).add(cell_multiset(a1[m.0])).count(x) == live_multiset(a1).add(
            cell_multiset(None),
        ).count(x));
    }
    assert(live_multiset(r) =~= live_multiset(a));
}

/// Empty cells at the end hold no payload.
pub proof fn lemma_live_multiset_dead_tail<DataT>(s: Seq<Option<DataT>>, n: int)
    requires
        0 <= n <= s.len(),
        forall|i: int| n <= i < s.len() ==> (#[trigger] s[i]) is None,
    ensures
        live_multiset(s) == live_multiset(s.subrange(0, n)),
    decreases s.len() - n,
{
    broadcast use vstd::multiset::group_multiset_axioms;

    if s.len() > n {
        lemma_live_multiset_dead_tail(s.drop_last(), n);
        assert(s.drop_last().subrange(0, n) =~= s.subrange(0, n));
        assert(live_multiset(s) =~= live_multiset(s.drop_last()));
    } else {
        assert(s.subrange(0, n) =~= s);
    }
}

/// The first `k` moves of a compaction keep the payloads and touch no
/// cell but their own sources and targets.
#[verifier::rlimit(50)]
proof fn lemma_apply_moves_prefix<DataT>(
    s: Seq<Option<DataT>>,
    t: Seq<Option<DataT>>,
    ms: Seq<(int, int)>,
    k: int,
)
    requires
        is_compaction(s, t, ms),
        0 <= k <= ms.len(),
    ensures
        live_multiset(apply_moves(s, ms.take(k))) == live_multiset(s),
        apply_moves(s, ms.take(k)).len() == s.len(),
        forall|x: int|
            0 <= x < s.len() && (forall|j: int|
                0 <= j < k ==> (#[trigger] ms[j]).0 != x && ms[j].1 != x) ==> #[trigger] apply_moves(
                s,
                ms.take(k),
            )[x] == s[x],
    decreases k,
{
    broadcast use vstd::multiset::group_multiset_axioms;

    if k == 0 {
        assert(ms.take(0) =~= Seq::<(int, int)>::empty());
    } else {
        lemma_apply_moves_prefix(s, t, ms, k - 1);
        let a = apply_moves(s, ms.take(k - 1));
        let m = ms[k - 1];
        assert(ms.take(k).drop_last() =~= ms.take(k - 1));
        assert(apply_moves(s, ms.take(k)) == relocate(a, m));
        let n = live_count(s) as int;
        assert forall|j: int| 0 <= j < k - 1 implies (#[trigger] ms[j]).0 != m.1 && ms[j].1 != m.1 by {}
        assert forall|j: int| 0 <= j < k - 1 implies (#[trigger] ms[j]).0 != m.0 && ms[j].1 != m.0 by {}
        assert(a[m.1] == s[m.1]);
        lemma_relocate_keeps_payloads(a, m);
        let r = relocate(a, m);
        assert forall|x: int|
            0 <= x < s.len() && (forall|j: int|
                0 <= j < k ==> (#[trigger] ms[j]).0 != x && ms[j].1 != x) implies #[trigger] r[x]
            == s[x] by {
            assert(ms[k - 1].0 != x && ms[k - 1].1 != x);
        }
    }
}

/// Compaction loses no payload and makes none up: the payloads of the
/// occupied cells, counted with repetition, are the same before and after.
pub proof fn lemma_compaction_keeps_payloads<DataT>(
    s: Seq<Option<DataT>>,
    t: Seq<Option<DataT>>,
    ms: Seq<(int, int)>,
)
    requires
        is_compaction(s, t, ms),
    ensures
        live_multiset(t) == live_multiset(s),
{
    lemma_apply_moves_prefix(s, t, ms, ms.len() as int);
    assert(ms.take(ms.len() as int) =~= ms);
    lemma_live_multiset_dead_tail(apply_moves(s, ms), live_count(s) as int);
}

} // verus!
