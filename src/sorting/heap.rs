//! Heap sort on a binary heap stored from index one of a vector.
use vstd::multiset::Multiset;
use vstd::prelude::*;

verus! {

broadcast use vstd::seq_lib::group_to_multiset_ensures;

/// Which end of the order the heap keeps at its root.
#[derive(Clone, Copy, Debug, PartialEq, Eq, Structural)]
pub enum HeapType {
    MAX,
    MIN,
}

/// Taking the root of an empty heap.
#[derive(Clone, Copy, Debug, PartialEq, Eq, Structural)]
pub struct EmptyHeap;

/// `a` may sit above `b` in a heap of this type.
pub open spec fn above(kind: HeapType, a: u32, b: u32) -> bool {
    match kind {
        HeapType::MAX => a >= b,
        HeapType::MIN => a <= b,
    }
}

/// Every entry from index `from` on sits below its parent, for entries
/// whose parent index is at least `lo`.
pub open spec fn ordered_from(kind: HeapType, h: Seq<u32>, lo: int) -> bool {
    forall|j: int| 2 <= j < h.len() && j / 2 >= lo ==> above(kind, #[trigger] h[j / 2], h[j])
}

/// Binary heap; index zero holds a placeholder, the items sit from index
/// one on, and the children of `i` are `2i` and `2i + 1`.
pub struct Heap {
    heap: Vec<u32>,
    kind: HeapType,
    comparisons: u32,
    swaps: u32,
}

impl Heap {
    /// The items, in heap order.
    pub closed spec fn items(&self) -> Seq<u32> {
        self.heap@.subrange(1, self.heap@.len() as int)
    }

    /// The heap's type.
    pub closed spec fn heap_type(&self) -> HeapType {
        self.kind
    }

    /// The heap property holds.
    pub closed spec fn wf(&self) -> bool {
        self.heap@.len() >= 1 && ordered_from(self.kind, self.heap@, 1)
    }

    /// Comparisons counted so far.
    pub closed spec fn spec_comparisons(&self) -> u32 {
        self.comparisons
    }

    /// Creates a heap of the given type holding a copy of `data`.
    pub fn new(data: &[u32], heap_type: HeapType) -> (r: Heap)
        requires
            data@.len() < usize::MAX,
        ensures
            r.wf(),
            r.heap_type() == heap_type,
            r.items().to_multiset() == data@.to_multiset(),
    {
        let mut heap: Vec<u32> = Vec::new();
        heap.push(0);
        let mut i: usize = 0;
        while i < data.len()
            invariant
                i <= data@.len(),
                heap@.len() == i + 1,
                heap@.subrange(1, heap@.len() as int) == data@.subrange(0, i as int),
            decreases data@.len() - i,
        {
            heap.push(data[i]);
            assert(heap@.subrange(1, heap@.len() as int) =~= data@.subrange(0, i + 1));
            i = i + 1;
        }
        assert(data@.subrange(0, data@.len() as int) =~= data@);
        let mut h = Heap { heap, kind: heap_type, comparisons: 0, swaps: 0 };
        h.build();
        h
    }

    /// Index of the left child of `index`.
    pub fn left(&self, index: usize) -> (r: usize)
        requires
            index <= usize::MAX / 2,
        ensures
            r == 2 * index,
    {
        index * 2
    }

    /// Index of the right child of `index`.
    pub fn right(&self, index: usize) -> (r: usize)
        requires
            index < usize::MAX / 2,
        ensures
            r == 2 * index + 1,
    {
        index * 2 + 1
    }

    /// Number of items.
    pub fn size(&self) -> (r: usize)
        requires
            self.wf(),
        ensures
            r == self.items().len(),
    {
        self.heap.len() - 1
    }

    /// Whether `a` may sit above `b`.
    fn above(&self, a: u32, b: u32) -> (r: bool)
        ensures
            r == above(self.kind, a, b),
    {
        match self.kind {
            HeapType::MAX => a >= b,
            HeapType::MIN => a <= b,
        }
    }

    /// Sifts the item at `index` down until every entry whose parent index
    /// is at least `index` sits below its parent.
    fn heapify(&mut self, index: usize)
        requires
            1 <= index < old(self).heap@.len(),
            ordered_from(old(self).kind, old(self).heap@, index + 1),
        ensures
            final(self).kind == old(self).kind,
            final(self).heap@.len() == old(self).heap@.len(),
            final(self).heap@[0] == old(self).heap@[0],
            ordered_from(final(self).kind, final(self).heap@, index as int),
            final(self).items().to_multiset() == old(self).items().to_multiset(),
            forall|j: int| 1 <= j < index ==> final(self).heap@[j] == old(self).heap@[j],
    {
        let ghost start = self.heap@;
        let len = self.heap.len();
        let mut m: usize = index;
        loop
            invariant_except_break
                index <= m < len,
                forall|j: int|
                    2 <= j < len && j / 2 >= index && j / 2 != m ==> above(
                        self.kind,
                        #[trigger] self.heap@[j / 2],
                        self.heap@[j],
                    ),
                m > index ==> forall|c: int|
                    2 * m <= c <= 2 * m + 1 && c < len ==> above(
                        self.kind,
                        self.heap@[(m / 2) as int],
                        #[trigger] self.heap@[c],
                    ),
            invariant
                len == self.heap@.len(),
                1 <= index < len,
                self.kind == old(self).kind,
                self.heap@[0] == start[0],
                self.items().to_multiset() == start.subrange(1, len as int).to_multiset(),
                forall|j: int| 1 <= j < index ==> self.heap@[j] == start[j],
                start == old(self).heap@,
            ensures
                ordered_from(self.kind, self.heap@, index as int),
            decreases len - m,
        {
            let mut best = m;
            self.comparisons = self.comparisons.saturating_add(2);
            if m <= (len - 1) / 2 {
                let l = m * 2;
                if self.above(self.heap[l], self.heap[best]) && self.heap[l] != self.heap[best] {
                    best = l;
                }
                if l + 1 < len && self.above(self.heap[l + 1], self.heap[best]) && self.heap[l + 1]
                    != self.heap[best] {
                    best = l + 1;
                }
            }
            if best == m {
                proof {
                    assert forall|j: int|
                        2 <= j < len && j / 2 >= index implies above(
                        self.kind,
                        #[trigger] self.heap@[j / 2],
                        self.heap@[j],
                    ) by {
                        if j / 2 == m {
                            assert(2 * m <= j <= 2 * m + 1);
                        }
                    }
                }
                break;
            }
            let ghost h = self.heap@;
            let a = self.heap[m];
            let b = self.heap[best];
            self.heap.set(m, b);
            self.heap.set(best, a);
            self.swaps = self.swaps.saturating_add(1);
            proof {
                let h2 = self.heap@;
                assert(h2 == h.update(m as int, b).update(best as int, a));
                let inner = h.subrange(1, len as int);
                assert(h.update(m as int, b).subrange(1, len as int) =~= inner.update(m - 1, b));
                assert(h2.subrange(1, len as int) =~= inner.update(m - 1, b).update(best - 1, a));
                assert(inner.update(m - 1, b)[best - 1] == b);
                assert(inner[m - 1] == a);
                assert(inner.update(m - 1, b).to_multiset() =~= inner.to_multiset().insert(b).remove(a));
                assert(inner.to_multiset().count(a) > 0);
                assert(h2.subrange(1, len as int).to_multiset() =~= inner.update(m - 1, b).to_multiset().insert(a).remove(b));
                assert(h2.subrange(1, len as int).to_multiset() =~= inner.to_multiset());
                assert forall|j: int|
                    2 <= j < len && j / 2 >= index && j / 2 != best implies above(
                    self.kind,
                    #[trigger] h2[j / 2],
                    h2[j],
                ) by {
                    if j / 2 == m {
                        assert(2 * m <= j <= 2 * m + 1);
                    } else if j == m {
                        assert(2 * (j / 2) <= m <= 2 * (j / 2) + 1);
                    } else if j == best {
                        assert(j / 2 == m);
                    } else {
                        assert(h2[j] == h[j]);
                        assert(h2[j / 2] == h[j / 2]);
                    }
                }
                assert forall|c: int| 2 * best <= c <= 2 * best + 1 && c < len implies above(
                    self.kind,
                    h2[(best / 2) as int],
                    #[trigger] h2[c],
                ) by {
                    assert(c / 2 == best);
                    assert(best / 2 == m);
                    assert(h2[c] == h[c]);
                }
            }
            m = best;
        }
    }

    /// Builds the heap bottom-up.
    fn build(&mut self)
        requires
            old(self).heap@.len() >= 1,
        ensures
            final(self).wf(),
            final(self).kind == old(self).kind,
            final(self).items().to_multiset() == old(self).items().to_multiset(),
    {
        let size = self.heap.len() - 1;
        let mut idx: usize = size / 2 + 1;
        while idx > 1
            invariant
                1 <= idx <= size / 2 + 1,
                size == self.heap@.len() - 1,
                self.kind == old(self).kind,
                ordered_from(self.kind, self.heap@, idx as int),
                self.items().to_multiset() == old(self).items().to_multiset(),
            decreases idx,
        {
            idx = idx - 1;
            self.heapify(idx);
        }
    }

    /// Removes and returns the root of the heap.
    /// # Errors
    /// `EmptyHeap` when the heap has no item.
    pub fn root(&mut self) -> (r: Result<u32, EmptyHeap>)
        requires
            old(self).wf(),
        ensures
            final(self).wf(),
            final(self).heap_type() == old(self).heap_type(),
            old(self).items().len() == 0 ==> r is Err && final(self).items() == old(self).items(),
            old(self).items().len() > 0 ==> (r matches Ok(x) && old(self).items().contains(x)
                && (forall|y: u32| old(self).items().contains(y) ==> above(old(self).heap_type(), x, y))
                && final(self).items().to_multiset() == old(self).items().to_multiset().remove(x)),
    {
        let size = self.heap.len() - 1;
        if size == 0 {
            return Err(EmptyHeap);
        }
        proof {
            lemma_root_above(self.kind, self.heap@);
        }
        let ghost h = self.heap@;
        let root = self.heap[1];
        proof {
            assert(h.subrange(1, h.len() as int)[0] == root);
        }
        if size == 1 {
            let x = self.heap.remove(1);
            proof {
                assert(h.subrange(1, 2) =~= seq![x]);
                assert(self.heap@.subrange(1, 1) =~= Seq::<u32>::empty());
                assert(seq![x] =~= Seq::<u32>::empty().push(x));
            }
            return Ok(x);
        }
        let last = self.heap.pop().unwrap();
        self.heap.set(1, last);
        proof {
            let inner = h.subrange(1, h.len() as int);
            assert(inner.drop_last() =~= h.subrange(1, h.len() - 1));
            assert(inner =~= inner.drop_last().push(last));
            let rest = inner.drop_last();
            assert(self.heap@.subrange(1, self.heap@.len() as int) =~= rest.update(0, last));
            assert(rest[0] == root);
            assert(rest.update(0, last).to_multiset() =~= rest.to_multiset().insert(last).remove(root));
            assert(inner.to_multiset() =~= rest.to_multiset().insert(last));
            assert forall|j: int| 2 <= j < self.heap@.len() && j / 2 >= 2 implies above(
                self.kind,
                #[trigger] self.heap@[j / 2],
                self.heap@[j],
            ) by {
                assert(self.heap@[j] == h[j]);
                assert(self.heap@[j / 2] == h[j / 2]);
            }
        }
        self.heapify(1);
        Ok(root)
    }
}

/// The root of a heap sits above every item.
proof fn lemma_root_above(kind: HeapType, h: Seq<u32>)
    requires
        h.len() >= 2,
        ordered_from(kind, h, 1),
    ensures
        forall|y: u32| h.subrange(1, h.len() as int).contains(y) ==> above(kind, h[1], y),
{
    assert forall|y: u32| h.subrange(1, h.len() as int).contains(y) implies above(kind, h[1], y) by {
        let k = choose|k: int| 0 <= k < h.len() - 1 && h.subrange(1, h.len() as int)[k] == y;
        lemma_ancestor_above(kind, h, k + 1);
    }
}

proof fn lemma_ancestor_above(kind: HeapType, h: Seq<u32>, j: int)
    requires
        1 <= j < h.len(),
        ordered_from(kind, h, 1),
    ensures
        above(kind, h[1], h[j]),
    decreases j,
{
    if j >= 2 {
        lemma_ancestor_above(kind, h, j / 2);
        assert(above(kind, h[j / 2], h[j]));
    }
}

/// Sorts `data` by taking the roots of a heap one after another: a `MAX`
/// heap gives descending order, a `MIN` heap ascending. Returns the sorted
/// items with the comparison and swap counts of the sorting phase.
pub fn sort(data: &[u32], order: HeapType) -> (r: (Vec<u32>, u32, u32))
    requires
        data@.len() < usize::MAX,
    ensures
        r.0@.to_multiset() == data@.to_multiset(),
        forall|i: int, j: int| 0 <= i < j < r.0@.len() ==> above(order, #[trigger] r.0@[i], #[trigger] r.0@[j]),
{
    let mut heap = Heap::new(data, order);
    heap.comparisons = 0;
    heap.swaps = 0;
    let mut sorted: Vec<u32> = Vec::new();
    let n = heap.size();
    let mut k: usize = 0;
    while k < n
        invariant
            heap.wf(),
            heap.kind == order,
            k <= n,
            heap.items().len() == n - k,
            sorted@.to_multiset().add(heap.items().to_multiset()) == data@.to_multiset(),
            forall|i: int, j: int| 0 <= i < j < sorted@.len() ==> above(order, #[trigger] sorted@[i], #[trigger] sorted@[j]),
            forall|i: int, y: u32| 0 <= i < sorted@.len() && #[trigger] heap.items().contains(y) ==> above(order, #[trigger] sorted@[i], y),
        decreases n - k,
    {
        let ghost before = heap.items();
        let x = match heap.root() {
            Ok(x) => x,
            Err(_) => {
                return (sorted, heap.comparisons, heap.swaps);
            },
        };
        let ghost prev = sorted@;
        sorted.push(x);
        proof {
            assert(heap.items().to_multiset().len() == before.to_multiset().len() - 1);
            assert forall|y: u32| heap.items().contains(y) implies before.contains(y) by {
                assert(heap.items().to_multiset().count(y) > 0);
            }
            assert(sorted@.to_multiset() =~= prev.to_multiset().insert(x));
            assert(before.to_multiset().count(x) > 0);
            assert(sorted@.to_multiset().add(heap.items().to_multiset()) =~= prev.to_multiset().add(before.to_multiset()));
            assert forall|i: int, j: int| 0 <= i < j < sorted@.len() implies above(order, #[trigger] sorted@[i], #[trigger] sorted@[j]) by {
                if j == prev.len() {
                    assert(before.contains(x));
                    assert(sorted@[i] == prev[i]);
                } else {
                    assert(sorted@[i] == prev[i] && sorted@[j] == prev[j]);
                }
            }
            assert forall|i: int, y: u32| 0 <= i < sorted@.len() && #[trigger] heap.items().contains(y) implies above(order, #[trigger] sorted@[i], y) by {
                assert(before.contains(y));
                if i < prev.len() {
                    assert(sorted@[i] == prev[i]);
                }
            }
        }
        k = k + 1;
    }
    proof {
        assert(heap.items().len() == 0);
        assert(heap.items().to_multiset() =~= Multiset::empty());
        assert(sorted@.to_multiset().add(Multiset::empty()) =~= sorted@.to_multiset());
    }
    (sorted, heap.comparisons, heap.swaps)
}

} // verus!
