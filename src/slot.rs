use vstd::prelude::*;

use crate::index::StableIndex;

verus! {

/// One storage cell: live payload, or a dead marker that carries the link
/// to the next dead cell of the free list.
#[derive(Clone, Debug)]
pub enum Slot<DataT, IndexT> {
    Dead { next_free: IndexT },
    Alive(DataT),
}

/// The payload a slot holds, if it is alive.
pub open spec fn slot_payload<DataT, IndexT>(s: Slot<DataT, IndexT>) -> Option<DataT> {
    match s {
        Slot::Alive(d) => Some(d),
        Slot::Dead { .. } => None,
    }
}

/// What a run of slots holds, cell by cell.
pub open spec fn payloads<DataT, IndexT>(s: Seq<Slot<DataT, IndexT>>) -> Seq<Option<DataT>> {
    s.map_values(|x: Slot<DataT, IndexT>| slot_payload(x))
}

/// `s` with its trailing empty cells cut off.
pub open spec fn trim_dead<DataT>(s: Seq<Option<DataT>>) -> Seq<Option<DataT>>
    decreases s.len(),
{
    if s.len() > 0 && s.last() is None {
        trim_dead(s.drop_last())
    } else {
        s
    }
}

/// The cells of `s` from `n` on are empty, and the one before them is not.
pub open spec fn dead_from<DataT>(s: Seq<Option<DataT>>, n: int) -> bool {
    &&& 0 <= n <= s.len()
    &&& forall|i: int| n <= i < s.len() ==> (#[trigger] s[i]) is None
    &&& n == 0 || s[n - 1] is Some
}

/// Cutting the empty tail keeps exactly the cells before it.
pub proof fn lemma_trim_dead_from<DataT>(s: Seq<Option<DataT>>, n: int)
    requires
        dead_from(s, n),
    ensures
        trim_dead(s) == s.subrange(0, n),
    decreases s.len() - n,
{
    if s.len() > n {
        assert(s.last() is None);
        assert(dead_from(s.drop_last(), n));
        lemma_trim_dead_from(s.drop_last(), n);
        assert(s.drop_last().subrange(0, n) =~= s.subrange(0, n));
    } else {
        assert(s.subrange(0, n) =~= s);
    }
}

/// Locates the run of dead slots at the end of `slice`: its first position
/// and its length, or `None` when the last slot is alive (or there is none).
pub fn find_start_of_trailing_dead_slots<IndexT: StableIndex, DataT>(
    slice: &[Slot<DataT, IndexT>],
) -> (r: Option<(IndexT, usize)>)
    requires
        slice@.len() <= IndexT::limit(),
    ensures
        match r {
            None => slice@.len() == 0 || slice@.last() is Alive,
            Some((p, k)) => {
                &&& k > 0
                &&& p.pos() + k == slice@.len()
                &&& dead_from(payloads(slice@), p.pos() as int)
            },
        },
{
    let len = slice.len();
    let mut count: usize = 0;
    while count < len
        invariant
            count <= len == slice@.len(),
            forall|i: int| len - count <= i < len ==> (#[trigger] slice@[i]) is Dead,
        ensures
            count <= len,
            forall|i: int| len - count <= i < len ==> (#[trigger] slice@[i]) is Dead,
            count == len || slice@[len - 1 - count] is Alive,
        decreases len - count,
    {
        let at: usize = len - 1 - count;
        if let Slot::Alive(_) = &slice[at] {
            break;
        }
        count = count + 1;
    }
    if count == 0 {
        None
    } else {
        proof {
            let v = payloads(slice@);
            assert forall|i: int| len - count <= i < v.len() implies (#[trigger] v[i]) is None by {
                assert(slice@[i] is Dead);
            }
        }
        Some((IndexT::cast_from(len - count), count))
    }
}

} // verus!
