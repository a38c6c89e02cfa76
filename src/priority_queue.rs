use std::collections::HashMap;
use vstd::prelude::*;

use crate::graph::Vertex;

verus! {

broadcast use vstd::std_specs::hash::group_hash_axioms;

/// An item of the queue: a key and its priority.
#[derive(Clone, Copy, PartialEq, Eq, Debug)]
pub struct PriorityQueueItem(pub Vertex, pub i32);

/// The position of the parent of position `i > 0` in a binary heap.
pub open spec fn heap_parent(i: int) -> int {
    (i - 1) / 2
}

/// Each item of `h` has a priority no smaller than that of its parent.
pub open spec fn heap_ordered(h: Seq<PriorityQueueItem>) -> bool {
    forall|j: int| #![trigger h[j]] 0 < j < h.len() ==> h[heap_parent(j)].1 <= h[j].1
}

/// Position `j` lies in the subtree of the binary heap rooted at position `root`.
pub open spec fn in_subtree(root: int, j: int) -> bool
    decreases j,
{
    if j <= root || j <= 0 {
        j == root
    } else {
        in_subtree(root, heap_parent(j))
    }
}

/// Inside the subtree rooted at `root`, each item has a priority no smaller than that of its
/// parent, except the children of `hole`.
pub open spec fn subtree_ordered_but(h: Seq<PriorityQueueItem>, root: int, hole: int) -> bool {
    forall|j: int|
        #![trigger h[j]]
        0 < j < h.len() && in_subtree(root, heap_parent(j)) && heap_parent(j) != hole ==> h[heap_parent(j)].1
            <= h[j].1
}

/// Inside the subtree rooted at `root`, each item has a priority no smaller than that of its
/// parent.
pub open spec fn subtree_ordered(h: Seq<PriorityQueueItem>, root: int) -> bool {
    forall|j: int|
        #![trigger h[j]]
        0 < j < h.len() && in_subtree(root, heap_parent(j)) ==> h[heap_parent(j)].1 <= h[j].1
}

/// A subtree holds only positions from its root on.
proof fn lemma_in_subtree_from(root: int, j: int)
    requires
        0 <= root,
        in_subtree(root, j),
    ensures
        root <= j,
    decreases j,
{
    if !(j <= root || j <= 0) {
        lemma_in_subtree_from(root, heap_parent(j));
    }
}

/// Every position lies in the subtree of the root.
proof fn lemma_in_subtree_of_root(j: int)
    requires
        0 <= j,
    ensures
        in_subtree(0, j),
    decreases j,
{
    if j > 0 {
        lemma_in_subtree_of_root(heap_parent(j));
    }
}

/// Heap order holds at every position but `hole` itself, and where `hole` has a parent, that
/// parent's priority is no larger than those of `hole`'s children.
pub open spec fn ordered_but_at(h: Seq<PriorityQueueItem>, hole: int) -> bool {
    &&& forall|j: int| #![trigger h[j]] 0 < j < h.len() && j != hole ==> h[heap_parent(j)].1 <= h[j].1
    &&& hole > 0 ==> forall|j: int|
        #![trigger h[j]]
        0 < j < h.len() && heap_parent(j) == hole ==> h[heap_parent(hole)].1 <= h[j].1
}

/// `idx` gives the position in `h` of each key of `h`, and of nothing else.
pub open spec fn indexed(h: Seq<PriorityQueueItem>, idx: Map<Vertex, usize>) -> bool {
    &&& forall|i: int| 0 <= i < h.len() ==> idx.contains_key(#[trigger] h[i].0) && idx[h[i].0] == i
    &&& forall|k: Vertex| #[trigger] idx.contains_key(k) ==> idx[k] < h.len() && h[idx[k] as int].0 == k
}

/// The priority of each key of `h`, by the positions in `idx`.
pub open spec fn priorities_of(h: Seq<PriorityQueueItem>, idx: Map<Vertex, usize>) -> Map<Vertex, i32> {
    idx.map_values(|i: usize| h[i as int].1)
}

/// The root of an ordered heap has the smallest priority.
proof fn lemma_root_min(h: Seq<PriorityQueueItem>, j: int)
    requires
        heap_ordered(h),
        0 <= j < h.len(),
    ensures
        h[0].1 <= h[j].1,
    decreases j,
{
    if j > 0 {
        assert(h[heap_parent(j)].1 <= h[j].1);
        lemma_root_min(h, heap_parent(j));
    }
}

fn parent(i: usize) -> (r: usize)
    ensures
        i > 0 ==> r == heap_parent(i as int),
        i == 0 ==> r == 0,
{
    if i == 0 {
        0
    } else {
        (i - 1) / 2
    }
}

fn left(i: usize) -> (r: usize)
    requires
        i < usize::MAX / 2,
    ensures
        r == 2 * i + 1,
{
    2 * i + 1
}

fn right(i: usize) -> (r: usize)
    requires
        i < usize::MAX / 2,
    ensures
        r == 2 * i + 2,
{
    2 * i + 2
}

/// A binary min-heap of keyed items with a map from each key to its position, which allows
/// lowering the priority of an item in place. Each key is in the queue at most once.
pub struct PriorityQueue {
    h: Vec<PriorityQueueItem>,
    indexes: HashMap<Vertex, usize>,
}

impl PriorityQueue {
    /// The heap array.
    pub closed spec fn heap(&self) -> Seq<PriorityQueueItem> {
        self.h@
    }

    /// The position of each key in the heap array.
    pub closed spec fn index_map(&self) -> Map<Vertex, usize> {
        self.indexes@
    }

    /// The heap is ordered and the index map gives the position of each key.
    pub open spec fn wf(&self) -> bool {
        heap_ordered(self.heap()) && indexed(self.heap(), self.index_map())
    }

    /// The priority of each key in the queue.
    pub open spec fn priorities(&self) -> Map<Vertex, i32> {
        priorities_of(self.heap(), self.index_map())
    }

    /// An empty queue.
    pub fn new() -> (pq: PriorityQueue)
        ensures
            pq.wf(),
            pq.heap() == Seq::<PriorityQueueItem>::empty(),
            pq.priorities() == Map::<Vertex, i32>::empty(),
    {
        let pq = PriorityQueue { h: Vec::new(), indexes: HashMap::new() };
        assert(pq.priorities() =~= Map::<Vertex, i32>::empty());
        pq
    }

    /// Exchanges the items at positions `i` and `j`, with their positions in the index map.
    fn swap(&mut self, i: usize, j: usize)
        requires
            i < old(self).heap().len(),
            j < old(self).heap().len(),
            indexed(old(self).heap(), old(self).index_map()),
        ensures
            final(self).heap() == old(self).heap().update(i as int, old(self).heap()[j as int]).update(
                j as int,
                old(self).heap()[i as int],
            ),
            indexed(final(self).heap(), final(self).index_map()),
            final(self).priorities() == old(self).priorities(),
    {
        let x = self.h[i];
        let y = self.h[j];
        self.indexes.insert(x.0, j);
        self.indexes.insert(y.0, i);
        self.h.set(i, y);
        self.h.set(j, x);
        proof {
            let h0 = old(self).heap();
            let h1 = self.heap();
            let m0 = old(self).index_map();
            let m1 = self.index_map();
            assert forall|k: int| 0 <= k < h1.len() implies m1.contains_key(#[trigger] h1[k].0) && m1[h1[k].0] == k by {
                if k != i && k != j {
                    assert(h1[k] == h0[k]);
                    assert(m0[h0[k].0] == k);
                }
            }
            assert forall|k: Vertex| #[trigger] m1.contains_key(k) implies m1[k] < h1.len() && h1[m1[k] as int].0 == k by {
                if k != x.0 && k != y.0 {
                    assert(m0[k] != i && m0[k] != j);
                }
            }
            assert(self.priorities() =~= old(self).priorities()) by {
                assert forall|k: Vertex| #[trigger] m1.contains_key(k) implies h1[m1[k] as int].1 == h0[m0[k] as int].1 by {
                    if k != x.0 && k != y.0 {
                        assert(m0[k] != i && m0[k] != j);
                    }
                }
            }
        }
    }

    /// Lowers the priority of the item at position `i` to `new_priority` and moves it up until
    /// its parent's priority is no larger.
    pub fn decrease_key(&mut self, i: usize, new_priority: i32)
        requires
            old(self).wf(),
            i < old(self).heap().len(),
            new_priority <= old(self).heap()[i as int].1,
        ensures
            final(self).wf(),
            final(self).heap().len() == old(self).heap().len(),
            final(self).priorities() == old(self).priorities().insert(old(self).heap()[i as int].0, new_priority),
    {
        let key = self.h[i].0;
        self.h.set(i, PriorityQueueItem(key, new_priority));
        let ghost target = self.priorities();
        proof {
            let h0 = old(self).heap();
            assert(target =~= old(self).priorities().insert(key, new_priority)) by {
                assert forall|k: Vertex| #[trigger] self.index_map().contains_key(k) && k != key implies self.index_map()[k] != i by {}
            }
            assert(ordered_but_at(self.heap(), i as int)) by {
                let h1 = self.heap();
                assert forall|j: int| #![trigger h1[j]] 0 < j < h1.len() && j != i implies h1[heap_parent(j)].1 <= h1[j].1 by {
                    assert(h0[heap_parent(j)].1 <= h0[j].1);
                }
                if i > 0 {
                    assert forall|j: int| #![trigger h1[j]] 0 < j < h1.len() && heap_parent(j) == i implies h1[heap_parent(i as int)].1 <= h1[j].1 by {
                        assert(h0[heap_parent(j)].1 <= h0[j].1);
                        assert(h0[heap_parent(i as int)].1 <= h0[i as int].1);
                    }
                }
            }
        }
        let mut index = i;
        while index > 0 && self.h[parent(index)].1 > self.h[index].1
            invariant
                index < self.heap().len(),
                self.heap().len() == old(self).heap().len(),
                indexed(self.heap(), self.index_map()),
                ordered_but_at(self.heap(), index as int),
                self.priorities() == target,
            decreases index,
        {
            let p = parent(index);
            let ghost h0 = self.heap();
            self.swap(index, p);
            proof {
                let h1 = self.heap();
                let c = index as int;
                let pp = p as int;
                assert(h1[pp] == h0[c] && h1[c] == h0[pp]);
                assert forall|j: int| #![trigger h1[j]] 0 < j < h1.len() && j != pp implies h1[heap_parent(j)].1 <= h1[j].1 by {
                    if j == c {
                    } else if heap_parent(j) == c {
                        assert(h0[j] == h1[j]);
                    } else if heap_parent(j) == pp {
                        assert(h0[j] == h1[j]);
                        assert(h0[heap_parent(j)].1 <= h0[j].1);
                    } else {
                        assert(h0[j] == h1[j]);
                        assert(h0[heap_parent(j)].1 <= h0[j].1);
                    }
                }
                if pp > 0 {
                    assert(h0[heap_parent(pp)].1 <= h0[pp].1);
                    assert forall|j: int| #![trigger h1[j]] 0 < j < h1.len() && heap_parent(j) == pp implies h1[heap_parent(pp)].1 <= h1[j].1 by {
                        if j != c {
                            assert(h0[j] == h1[j]);
                            assert(h0[heap_parent(j)].1 <= h0[j].1);
                        }
                    }
                }
            }
            index = p;
        }
        proof {
            let h1 = self.heap();
            assert forall|j: int| #![trigger h1[j]] 0 < j < h1.len() implies h1[heap_parent(j)].1 <= h1[j].1 by {}
        }
    }

    /// Moves the item at position `i` down, each time below the smaller of its children, until
    /// no child has a smaller priority. The subtrees of the children of `i` must be ordered;
    /// afterwards the subtree of `i` is, and no item outside it moves.
    fn min_heapify(&mut self, i: usize)
        requires
            i < old(self).heap().len(),
            indexed(old(self).heap(), old(self).index_map()),
            subtree_ordered_but(old(self).heap(), i as int, i as int),
        ensures
            indexed(final(self).heap(), final(self).index_map()),
            subtree_ordered(final(self).heap(), i as int),
            final(self).heap().len() == old(self).heap().len(),
            forall|j: int|
                0 <= j < old(self).heap().len() && !in_subtree(i as int, j) ==> #[trigger] final(self).heap()[j]
                    == old(self).heap()[j],
            final(self).priorities() == old(self).priorities(),
    {
        let mut cur = i;
        loop
            invariant
                i <= cur < self.heap().len(),
                self.heap().len() == old(self).heap().len(),
                indexed(self.heap(), self.index_map()),
                in_subtree(i as int, cur as int),
                subtree_ordered_but(self.heap(), i as int, cur as int),
                cur != i ==> forall|j: int|
                    #![trigger self.heap()[j]]
                    0 < j < self.heap().len() && heap_parent(j) == cur ==> self.heap()[heap_parent(cur as int)].1
                        <= self.heap()[j].1,
                forall|j: int|
                    0 <= j < old(self).heap().len() && !in_subtree(i as int, j) ==> #[trigger] self.heap()[j]
                        == old(self).heap()[j],
                self.priorities() == old(self).priorities(),
            decreases self.heap().len() - cur,
        {
            let n = self.h.len();
            if cur >= n / 2 {
                proof {
                    let h1 = self.heap();
                    assert forall|j: int| #![trigger h1[j]] 0 < j < h1.len() && in_subtree(i as int, heap_parent(j)) implies h1[heap_parent(j)].1 <= h1[j].1 by {
                        assert(heap_parent(j) != cur);
                    }
                }
                return;
            }
            let l = left(cur);
            let r = right(cur);
            let mut min = cur;
            if l < n && self.h[l].1 < self.h[min].1 {
                min = l;
            }
            if r < n && self.h[r].1 < self.h[min].1 {
                min = r;
            }
            if min == cur {
                proof {
                    let h1 = self.heap();
                    assert forall|j: int| #![trigger h1[j]] 0 < j < h1.len() && in_subtree(i as int, heap_parent(j)) implies h1[heap_parent(j)].1 <= h1[j].1 by {
                        if heap_parent(j) == cur {
                            assert(j == l || j == r);
                        }
                    }
                }
                return;
            }
            let ghost h0 = self.heap();
            proof {
                let m = min as int;
                assert(heap_parent(m) == cur);
                assert(in_subtree(i as int, m) == in_subtree(i as int, cur as int));
            }
            self.swap(min, cur);
            proof {
                let h1 = self.heap();
                let c = cur as int;
                let m = min as int;
                let root = i as int;
                assert(h1[c] == h0[m] && h1[m] == h0[c]);
                assert(heap_parent(m) == c);
                if c != root {
                    lemma_in_subtree_from(root, c);
                    assert(in_subtree(root, c) == in_subtree(root, heap_parent(c)));
                }
                assert forall|j: int| 0 <= j < old(self).heap().len() && !in_subtree(root, j) implies #[trigger] h1[j] == old(self).heap()[j] by {
                    assert(j != c && j != m);
                    assert(h1[j] == h0[j]);
                }
                assert forall|j: int|
                    #![trigger h1[j]]
                    0 < j < h1.len() && in_subtree(root, heap_parent(j)) && heap_parent(j) != m implies h1[heap_parent(j)].1 <= h1[j].1 by {
                    if j == m {
                    } else if heap_parent(j) == c {
                        assert(j == l || j == r);
                        assert(h0[j] == h1[j]);
                    } else if j == c {
                        assert(h0[heap_parent(j)] == h1[heap_parent(j)]);
                        if c == root {
                            lemma_in_subtree_from(root, heap_parent(j));
                        }
                    } else {
                        assert(h0[j] == h1[j]);
                        assert(h0[heap_parent(j)].1 <= h0[j].1);
                    }
                }
                assert forall|j: int| #![trigger h1[j]] 0 < j < h1.len() && heap_parent(j) == m implies h1[heap_parent(m)].1 <= h1[j].1 by {
                    assert(h0[j] == h1[j]);
                    assert(h0[heap_parent(j)].1 <= h0[j].1);
                }
            }
            cur = min;
        }
    }

    /// Adds `el` with its priority; the key must not be in the queue yet.
    pub fn insert(&mut self, el: PriorityQueueItem)
        requires
            old(self).wf(),
            !old(self).priorities().contains_key(el.0),
            old(self).heap().len() < usize::MAX,
        ensures
            final(self).wf(),
            final(self).heap().len() == old(self).heap().len() + 1,
            final(self).priorities() == old(self).priorities().insert(el.0, el.1),
    {
        self.h.push(PriorityQueueItem(el.0, i32::MAX));
        let n = self.h.len() - 1;
        self.indexes.insert(el.0, n);
        proof {
            let h0 = old(self).heap();
            let h1 = self.heap();
            let m0 = old(self).index_map();
            let m1 = self.index_map();
            assert forall|k: int| 0 <= k < h1.len() implies m1.contains_key(#[trigger] h1[k].0) && m1[h1[k].0] == k by {
                if k < n {
                    assert(h1[k] == h0[k]);
                    assert(m0[h0[k].0] == k);
                }
            }
            assert(heap_ordered(h1)) by {
                assert forall|j: int| #![trigger h1[j]] 0 < j < h1.len() implies h1[heap_parent(j)].1 <= h1[j].1 by {
                    if j < n {
                        assert(h0[j] == h1[j]);
                    }
                }
            }
            assert(self.priorities() =~= old(self).priorities().insert(el.0, i32::MAX));
        }
        self.decrease_key(n, el.1);
    }

    /// Removes and returns an item of smallest priority; none when the queue is empty.
    pub fn extract_min(&mut self) -> (r: Option<PriorityQueueItem>)
        requires
            old(self).wf(),
        ensures
            final(self).wf(),
            match r {
                None => old(self).heap().len() == 0 && final(self).heap().len() == 0,
                Some(it) => {
                    &&& old(self).priorities().contains_key(it.0)
                    &&& old(self).priorities()[it.0] == it.1
                    &&& forall|k: Vertex| #[trigger] old(self).priorities().contains_key(k) ==> it.1 <= old(self).priorities()[k]
                    &&& final(self).priorities() == old(self).priorities().remove(it.0)
                    &&& final(self).heap().len() == old(self).heap().len() - 1
                },
            },
    {
        if self.h.len() == 0 {
            return None;
        }
        let min = self.h[0];
        let last_i = self.h.len() - 1;
        let last = self.h[last_i];
        self.h.set(0, last);
        self.h.pop();
        self.indexes.remove(&min.0);
        proof {
            let h0 = old(self).heap();
            let m0 = old(self).index_map();
            assert forall|k: Vertex| #[trigger] old(self).priorities().contains_key(k) implies min.1 <= old(self).priorities()[k] by {
                lemma_root_min(h0, m0[k] as int);
            }
            assert(m0[min.0] == 0);
        }
        if self.h.len() > 0 {
            self.indexes.insert(last.0, 0);
            proof {
                let h0 = old(self).heap();
                let h1 = self.heap();
                let m0 = old(self).index_map();
                let m1 = self.index_map();
                assert(m0[last.0] == last_i);
                assert forall|k: int| 0 <= k < h1.len() implies m1.contains_key(#[trigger] h1[k].0) && m1[h1[k].0] == k by {
                    if k > 0 {
                        assert(h1[k] == h0[k]);
                        assert(m0[h0[k].0] == k);
                    }
                }
                assert forall|k: Vertex| #[trigger] m1.contains_key(k) implies m1[k] < h1.len() && h1[m1[k] as int].0 == k by {
                    if k != last.0 {
                        assert(m0[k] != 0 && m0[k] != last_i);
                    }
                }
                assert(subtree_ordered_but(h1, 0, 0)) by {
                    assert forall|j: int| #![trigger h1[j]] 0 < j < h1.len() && in_subtree(0, heap_parent(j)) && heap_parent(j) != 0 implies h1[heap_parent(j)].1 <= h1[j].1 by {
                        assert(h0[j] == h1[j]);
                        assert(h0[heap_parent(j)] == h1[heap_parent(j)]);
                    }
                }
                assert(self.priorities() =~= old(self).priorities().remove(min.0)) by {
                    assert forall|k: Vertex| #[trigger] m1.contains_key(k) && k != last.0 implies h1[m1[k] as int] == h0[m0[k] as int] by {
                        assert(m0[k] != 0 && m0[k] != last_i);
                    }
                }
            }
            self.min_heapify(0);
            proof {
                let h2 = self.heap();
                assert forall|j: int| #![trigger h2[j]] 0 < j < h2.len() implies h2[heap_parent(j)].1 <= h2[j].1 by {
                    lemma_in_subtree_of_root(heap_parent(j));
                }
            }
        } else {
            proof {
                assert(self.index_map() =~= Map::<Vertex, usize>::empty()) by {
                    let m0 = old(self).index_map();
                    assert forall|k: Vertex| !#[trigger] self.index_map().contains_key(k) by {
                        if m0.contains_key(k) {
                            assert(m0[k] == 0);
                        }
                    }
                }
                assert(self.priorities() =~= old(self).priorities().remove(min.0));
            }
        }
        Some(min)
    }

    /// The position of the item with key `el`, if it is in the queue.
    pub fn get_index(&self, el: &Vertex) -> (r: Option<usize>)
        ensures
            r == if self.index_map().contains_key(*el) {
                Some(self.index_map()[*el])
            } else {
                None::<usize>
            },
    {
        match self.indexes.get(el) {
            Some(i) => Some(*i),
            None => None,
        }
    }

    /// The item at position `i`, if there is one.
    pub fn get_element(&self, i: usize) -> (r: Option<&PriorityQueueItem>)
        ensures
            match r {
                Some(it) => i < self.heap().len() && *it == self.heap()[i as int],
                None => i >= self.heap().len(),
            },
    {
        if i < self.h.len() {
            Some(&self.h[i])
        } else {
            None
        }
    }

    /// Whether the queue is empty.
    pub fn is_empty(&self) -> (r: bool)
        ensures
            r == (self.heap().len() == 0),
    {
        self.h.len() == 0
    }

    /// A queue holding the items of `l`, whose keys are distinct.
    pub fn from(l: &Vec<PriorityQueueItem>) -> (pq: PriorityQueue)
        requires
            forall|i: int, j: int| 0 <= i < j < l@.len() ==> #[trigger] l@[i].0 != #[trigger] l@[j].0,
        ensures
            pq.wf(),
            forall|k: Vertex| #[trigger] pq.priorities().contains_key(k) <==> exists|i: int| 0 <= i < l@.len() && l@[i].0 == k,
            forall|i: int| 0 <= i < l@.len() ==> pq.priorities()[#[trigger] l@[i].0] == l@[i].1,
    {
        let mut pq = PriorityQueue::new();
        let mut i: usize = 0;
        while i < l.len()
            invariant
                pq.wf(),
                i <= l@.len(),
                pq.heap().len() == i,
                forall|i: int, j: int| 0 <= i < j < l@.len() ==> #[trigger] l@[i].0 != #[trigger] l@[j].0,
                forall|k: Vertex| #[trigger] pq.priorities().contains_key(k) <==> exists|j: int| 0 <= j < i && l@[j].0 == k,
                forall|j: int| 0 <= j < i ==> pq.priorities()[#[trigger] l@[j].0] == l@[j].1,
            decreases l@.len() - i,
        {
            let el = l[i];
            proof {
                assert(!pq.priorities().contains_key(el.0)) by {
                    if pq.priorities().contains_key(el.0) {
                        let j = choose|j: int| 0 <= j < i && l@[j].0 == el.0;
                        assert(l@[j].0 != l@[i as int].0);
                    }
                }
            }
            pq.insert(el);
            proof {
                assert forall|k: Vertex| #[trigger] pq.priorities().contains_key(k) <==> exists|j: int| 0 <= j < i + 1 && l@[j].0 == k by {
                    if k == el.0 {
                        assert(l@[i as int].0 == k);
                    }
                }
                assert forall|j: int| 0 <= j < i + 1 implies pq.priorities()[#[trigger] l@[j].0] == l@[j].1 by {
                    if j < i {
                        assert(l@[j].0 != l@[i as int].0);
                    }
                }
            }
            i = i + 1;
        }
        pq
    }
}

/// Two items taken out one after the other, with nothing added or lowered in between, come
/// out in non-decreasing priority: the first is a minimum of the priorities before, and the
/// second is among what remains.
pub proof fn lemma_extract_min_order(
    before: Map<Vertex, i32>,
    first: PriorityQueueItem,
    second: PriorityQueueItem,
)
    requires
        before.contains_key(first.0),
        before[first.0] == first.1,
        forall|k: Vertex| #[trigger] before.contains_key(k) ==> first.1 <= before[k],
        before.remove(first.0).contains_key(second.0),
        before.remove(first.0)[second.0] == second.1,
    ensures
        first.1 <= second.1,
{
    assert(before.contains_key(second.0));
}

} // verus!
