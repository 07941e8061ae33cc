use vstd::multiset::Multiset;
use vstd::prelude::*;

verus! {

broadcast use vstd::seq_lib::group_to_multiset_ensures;

/// Position of the parent of the node at `i` in an array-laid binary tree.
pub open spec fn parent(i: int) -> int {
    (i - 1) / 2
}

/// Every node is at least as large as its parent.
pub open spec fn heap_ordered(s: Seq<usize>) -> bool {
    forall|i: int| 0 < i < s.len() ==> s[parent(i)] <= #[trigger] s[i]
}

/// The root of a heap-ordered array is its smallest element.
pub proof fn lemma_root_is_min(s: Seq<usize>, i: int)
    requires
        heap_ordered(s),
        0 <= i < s.len(),
    ensures
        s[0] <= s[i],
    decreases i,
{
    if i > 0 {
        lemma_root_is_min(s, parent(i));
    }
}

/// Exchanging two elements keeps the multiset.
pub proof fn lemma_swap_multiset(s: Seq<usize>, i: int, j: int)
    requires
        0 <= i < s.len(),
        0 <= j < s.len(),
    ensures
        s.update(i, s[j]).update(j, s[i]).to_multiset() == s.to_multiset(),
{
    broadcast use vstd::multiset::group_multiset_axioms;

    let t = s.update(i, s[j]);
    vstd::seq_lib::to_multiset_update(s, i, s[j]);
    vstd::seq_lib::to_multiset_update(t, j, s[i]);
    if i == j {
        assert(t.update(j, s[i]) =~= s);
    } else {
        assert(t[j] == s[j]);
        assert(t.update(j, s[i]).to_multiset() =~= s.to_multiset());
    }
}

/// A binary min-heap of storage positions, laid out in a vector.
pub struct MinHeap {
    items: Vec<usize>,
}

impl View for MinHeap {
    type V = Multiset<usize>;

    closed spec fn view(&self) -> Multiset<usize> {
        self.items@.to_multiset()
    }
}

impl MinHeap {
    pub closed spec fn wf(&self) -> bool {
        heap_ordered(self.items@)
    }

    pub fn new() -> (r: Self)
        ensures
            r.wf(),
            r@ == Multiset::<usize>::empty(),
    {
        let r = MinHeap { items: Vec::new() };
        assert(r.items@.to_multiset() =~= Multiset::<usize>::empty()) by {
            assert(r.items@.len() == 0);
        }
        r
    }

    pub fn len(&self) -> (r: usize)
        ensures
            r == self@.len(),
    {
        self.items.len()
    }

    fn swap_items(&mut self, i: usize, j: usize)
        requires
            i < old(self).items@.len(),
            j < old(self).items@.len(),
        ensures
            final(self).items@ == old(self).items@.update(i as int, old(self).items@[j as int]).update(
                j as int,
                old(self).items@[i as int],
            ),
            final(self)@ == old(self)@,
    {
        proof {
            lemma_swap_multiset(self.items@, i as int, j as int);
        }
        let a = self.items[i];
        let b = self.items[j];
        self.items.set(i, b);
        self.items.set(j, a);
    }

    /// Adds `x`, then moves it up past every larger parent.
    pub fn push(&mut self, x: usize)
        requires
            old(self).wf(),
        ensures
            final(self).wf(),
            final(self)@ == old(self)@.insert(x),
    {
        self.items.push(x);
        let ghost m = self@;
        let n = self.items.len();
        let mut k: usize = n - 1;
        while k > 0 && self.items[(k - 1) / 2] > self.items[k]
            invariant
                self.items@.len() == n,
                k < n,
                self@ == m,
                forall|i: int|
                    0 < i < n && i != k ==> self.items@[parent(i)] <= #[trigger] self.items@[i],
                k > 0 ==> forall|i: int|
                    0 < i < n && parent(i) == k ==> self.items@[parent(k as int)]
                        <= #[trigger] self.items@[i],
            decreases k,
        {
            let p = (k - 1) / 2;
            let ghost s = self.items@;
            self.swap_items(p, k);
            proof {
                let t = self.items@;
                assert forall|i: int| 0 < i < n && i != p implies t[parent(i)] <= #[trigger] t[i] by {
                    if i == k {
                    } else if parent(i) == k {
                        assert(s[parent(i)] == s[k as int]);
                    } else if parent(i) == p {
                        assert(s[p as int] <= s[i]);
                    } else {
                        assert(s[parent(i)] <= s[i]);
                    }
                }
                if p > 0 {
                    assert(s[parent(p as int)] <= s[p as int]);
                    assert forall|i: int|
                        0 < i < n && parent(i) == p implies t[parent(p as int)] <= #[trigger] t[i] by {
                        if i != k {
                            assert(s[p as int] <= s[i]);
                        }
                    }
                }
            }
            k = p;
        }
    }

    /// Takes out a smallest element, or returns `None` when empty.
    pub fn pop(&mut self) -> (r: Option<usize>)
        requires
            old(self).wf(),
        ensures
            final(self).wf(),
            match r {
                None => old(self)@.len() == 0 && final(self)@ == old(self)@,
                Some(x) => {
                    &&& old(self)@.count(x) > 0
                    &&& forall|y: usize| old(self)@.count(y) > 0 ==> x <= y
                    &&& final(self)@ == old(self)@.remove(x)
                },
            },
    {
        let n = self.items.len();
        if n == 0 {
            return None;
        }
        let ghost s0 = self.items@;
        proof {
            assert forall|y: usize| s0.to_multiset().count(y) > 0 implies s0[0] <= y by {
                assert(s0.contains(y));
                let i = choose|i: int| 0 <= i < s0.len() && s0[i] == y;
                lemma_root_is_min(s0, i);
            }
        }
        self.swap_items(0, n - 1);
        let x = self.items.pop().unwrap();
        proof {
            let t = self.items@;
            let s1 = s0.update(0, s0[n - 1]).update(n - 1, s0[0]);
            assert(s1.drop_last() =~= t);
            assert(s1 =~= t.push(x));
            assert(t.to_multiset() =~= s0.to_multiset().remove(x));
        }
        let len = n - 1;
        let ghost m = self@;
        let mut k: usize = 0;
        loop
            invariant
                self.items@.len() == len,
                len == 0 || k < len,
                self@ == m,
                forall|i: int|
                    0 < i < len && parent(i) != k ==> self.items@[parent(i)]
                        <= #[trigger] self.items@[i],
                k > 0 ==> forall|i: int|
                    0 < i < len && parent(i) == k ==> self.items@[parent(k as int)]
                        <= #[trigger] self.items@[i],
            ensures
                heap_ordered(self.items@),
                self@ == m,
            decreases len - k,
        {
            if k >= len / 2 {
                proof {
                    assert forall|i: int| 0 < i < len implies self.items@[parent(i)]
                        <= #[trigger] self.items@[i] by {
                        assert(parent(i) != k);
                    }
                }
                break;
            }
            let l = 2 * k + 1;
            let r = 2 * k + 2;
            let c = if r < len && self.items[r] < self.items[l] {
                r
            } else {
                l
            };
            if self.items[k] <= self.items[c] {
                proof {
                    assert forall|i: int| 0 < i < len implies self.items@[parent(i)]
                        <= #[trigger] self.items@[i] by {
                        if parent(i) == k {
                            assert(i == l || i == r);
                        }
                    }
                }
                break;
            }
            let ghost s = self.items@;
            self.swap_items(k, c);
            proof {
                let t = self.items@;
                assert forall|i: int| 0 < i < len && parent(i) != c implies t[parent(i)]
                    <= #[trigger] t[i] by {
                    if parent(i) == k {
                        assert(i == l || i == r);
                    } else if i == k {
                        assert(s[parent(k as int)] <= s[c as int]);
                    } else {
                        assert(s[parent(i)] <= s[i]);
                    }
                }
                assert forall|i: int| 0 < i < len && parent(i) == c implies t[parent(c as int)]
                    <= #[trigger] t[i] by {
                    assert(s[c as int] <= s[i]);
                }
            }
            k = c;
        }
        Some(x)
    }
}

} // verus!
