use std::collections::{HashMap, HashSet};
use vstd::prelude::*;

use crate::graph::{set_to_vec, Vertex};

verus! {

broadcast use vstd::std_specs::hash::group_hash_axioms;

/// `roots` after the set represented by `from` is hung under the representative `to`.
pub open spec fn merge_roots(roots: Map<Vertex, Vertex>, from: Vertex, to: Vertex) -> Map<Vertex, Vertex> {
    roots.map_values(|r: Vertex| if r == from { to } else { r })
}

/// The representative that stays a representative when the sets of `rx` and `ry` merge:
/// the one with the larger counter, `rx` on a tie.
pub open spec fn union_winner(sizes: Map<Vertex, u64>, rx: Vertex, ry: Vertex) -> Vertex {
    if sizes[rx] >= sizes[ry] {
        rx
    } else {
        ry
    }
}

/// The representative that goes under the other when the sets of `rx` and `ry` merge.
pub open spec fn union_loser(sizes: Map<Vertex, u64>, rx: Vertex, ry: Vertex) -> Vertex {
    if sizes[rx] >= sizes[ry] {
        ry
    } else {
        rx
    }
}

/// Disjoint sets of vertices, with union by size and no path compression.
pub struct UnionFind {
    data: HashMap<Vertex, Vertex>,
    sizes: HashMap<Vertex, u64>,
    roots: Ghost<Map<Vertex, Vertex>>,
    rank: Ghost<Map<Vertex, nat>>,
}

impl UnionFind {
    /// The parent of each registered vertex; a representative is its own parent.
    pub closed spec fn parents(&self) -> Map<Vertex, Vertex> {
        self.data@
    }

    /// The representative of the set of each registered vertex.
    pub closed spec fn root_map(&self) -> Map<Vertex, Vertex> {
        self.roots@
    }

    /// The size counter of each registered vertex.
    pub closed spec fn size_map(&self) -> Map<Vertex, u64> {
        self.sizes@
    }

    /// Following parents from any vertex reaches its representative: the rank grows strictly
    /// along each parent link and is highest at the representative.
    pub closed spec fn links(&self) -> bool {
        &&& self.rank@.dom() == self.data@.dom()
        &&& forall|x: Vertex| #[trigger] self.data@.contains_key(x) && self.data@[x] != x ==> {
            &&& self.data@.contains_key(self.data@[x])
            &&& self.rank@[x] < self.rank@[self.data@[x]]
            &&& self.roots@[x] == self.roots@[self.data@[x]]
        }
        &&& forall|x: Vertex| #[trigger] self.data@.contains_key(x) ==> self.rank@[x] <= self.rank@[self.roots@[x]]
        &&& forall|x: Vertex| #[trigger] self.data@.contains_key(x) && self.data@[x] == x ==> self.roots@[x] == x
    }

    /// Parent links lead to representatives, and every registered vertex has a parent, a
    /// representative and a size counter.
    pub open spec fn wf(&self) -> bool {
        &&& self.links()
        &&& self.parents().dom() == self.root_map().dom()
        &&& self.size_map().dom() == self.root_map().dom()
        &&& forall|x: Vertex| #[trigger] self.root_map().contains_key(x) ==> {
            &&& self.root_map().contains_key(self.root_map()[x])
            &&& self.root_map()[self.root_map()[x]] == self.root_map()[x]
            &&& self.parents()[self.root_map()[x]] == self.root_map()[x]
        }
    }

    /// An empty structure.
    pub fn new() -> (uf: UnionFind)
        ensures
            uf.wf(),
            uf.root_map() == Map::<Vertex, Vertex>::empty(),
    {
        UnionFind {
            data: HashMap::new(),
            sizes: HashMap::new(),
            roots: Ghost(Map::empty()),
            rank: Ghost(Map::empty()),
        }
    }

    /// One singleton set for each vertex of `l`.
    pub fn from(l: &HashSet<Vertex>) -> (uf: UnionFind)
        ensures
            uf.wf(),
            uf.root_map().dom() == l@,
            forall|x: Vertex| #[trigger] l@.contains(x) ==> uf.root_map()[x] == x && uf.size_map()[x] == 0,
    {
        let items = set_to_vec(l);
        let mut uf = UnionFind::new();
        let mut i: usize = 0;
        while i < items.len()
            invariant
                uf.wf(),
                i <= items.len(),
                forall|z: Vertex| #[trigger] uf.root_map().contains_key(z) <==> exists|j: int| 0 <= j < i && items@[j] == z,
                forall|x: Vertex| #[trigger] uf.root_map().contains_key(x) ==> uf.root_map()[x] == x && uf.size_map()[x] == 0,
            decreases items.len() - i,
        {
            let x = items[i];
            uf.data.insert(x, x);
            uf.sizes.insert(x, 0);
            proof {
                uf.roots@ = uf.roots@.insert(x, x);
                uf.rank@ = uf.rank@.insert(x, 0);
                assert forall|z: Vertex| #[trigger] uf.root_map().contains_key(z) implies exists|j: int| 0 <= j < i + 1 && items@[j] == z by {
                    if z == x {
                        assert(items@[i as int] == z);
                    }
                }
            }
            i = i + 1;
        }
        proof {
            assert forall|z: Vertex| uf.root_map().contains_key(z) <==> l@.contains(z) by {
                if l@.contains(z) {
                    assert(items@.to_set().contains(z));
                }
                if uf.root_map().contains_key(z) {
                    let j = choose|j: int| 0 <= j < i && items@[j] == z;
                    assert(items@.to_set().contains(items@[j]));
                }
            }
            assert(uf.root_map().dom() =~= l@);
        }
        uf
    }

    /// The parent of `el`, if it is registered.
    pub fn parent(&self, el: &Vertex) -> (r: Option<Vertex>)
        ensures
            r == if self.parents().contains_key(*el) {
                Some(self.parents()[*el])
            } else {
                None::<Vertex>
            },
    {
        match self.data.get(el) {
            Some(p) => Some(*p),
            None => None,
        }
    }

    /// The representative of the set of `el`, if it is registered. The representative is its
    /// own parent.
    pub fn find(&self, el: &Vertex) -> (r: Option<Vertex>)
        requires
            self.wf(),
        ensures
            r == if self.root_map().contains_key(*el) {
                Some(self.root_map()[*el])
            } else {
                None::<Vertex>
            },
            r matches Some(p) ==> self.parents()[p] == p,
    {
        let start = *el;
        if self.data.get(&start).is_none() {
            return None;
        }
        let mut cur = start;
        loop
            invariant
                self.wf(),
                start == *el,
                self.root_map().contains_key(start),
                self.root_map().contains_key(cur),
                self.root_map()[cur] == self.root_map()[start],
            decreases self.rank@[self.roots@[start]] - self.rank@[cur],
        {
            let p = *self.data.get(&cur).unwrap();
            if p == cur {
                return Some(cur);
            }
            cur = p;
        }
    }

    /// Hangs the representative `el` under the representative `new_parent`, and counts one more
    /// under `new_parent`.
    pub fn change_parent(&mut self, el: Vertex, new_parent: Vertex)
        requires
            old(self).wf(),
            old(self).root_map().contains_key(el),
            old(self).root_map().contains_key(new_parent),
            old(self).root_map()[el] == el,
            old(self).root_map()[new_parent] == new_parent,
            el != new_parent,
        ensures
            final(self).wf(),
            final(self).parents() == old(self).parents().insert(el, new_parent),
            final(self).root_map() == merge_roots(old(self).root_map(), el, new_parent),
            final(self).size_map() == old(self).size_map().insert(
                new_parent,
                old(self).size_map()[new_parent].saturating_add(1),
            ),
    {
        let s = *self.sizes.get(&new_parent).unwrap();
        self.sizes.insert(new_parent, s.saturating_add(1));
        self.data.insert(el, new_parent);
        proof {
            let old_rank = self.rank@;
            let r_el = old_rank[el];
            let r_np = old_rank[new_parent];
            let new_r = if r_np > r_el { r_np } else { r_el + 1 };
            self.rank@ = old_rank.insert(new_parent, new_r);
            self.roots@ = merge_roots(self.roots@, el, new_parent);
            assert(self.rank@.dom() =~= self.data@.dom());
            assert(self.parents().dom() =~= self.root_map().dom());
            assert(self.size_map().dom() =~= self.root_map().dom());
        }
    }

    /// Merges the sets of `x` and `y`: the representative of the smaller counter goes under the
    /// other, and `y`'s under `x`'s on a tie. Returns whether the two sets were distinct; when
    /// they were not, nothing changes.
    pub fn union(&mut self, x: &Vertex, y: &Vertex) -> (r: bool)
        requires
            old(self).wf(),
            old(self).root_map().contains_key(*x),
            old(self).root_map().contains_key(*y),
        ensures
            final(self).wf(),
            r == (old(self).root_map()[*x] != old(self).root_map()[*y]),
            !r ==> *final(self) == *old(self),
            r ==> final(self).parents() == old(self).parents().insert(
                union_loser(old(self).size_map(), old(self).root_map()[*x], old(self).root_map()[*y]),
                union_winner(old(self).size_map(), old(self).root_map()[*x], old(self).root_map()[*y]),
            ),
            r ==> final(self).root_map() == merge_roots(
                old(self).root_map(),
                union_loser(old(self).size_map(), old(self).root_map()[*x], old(self).root_map()[*y]),
                union_winner(old(self).size_map(), old(self).root_map()[*x], old(self).root_map()[*y]),
            ),
            r ==> {
                let w = union_winner(old(self).size_map(), old(self).root_map()[*x], old(self).root_map()[*y]);
                final(self).size_map() == old(self).size_map().insert(w, old(self).size_map()[w].saturating_add(1))
            },
            final(self).root_map().dom() == old(self).root_map().dom(),
            final(self).root_map()[*x] == final(self).root_map()[*y],
    {
        let root_x = self.find(x).unwrap();
        let root_y = self.find(y).unwrap();
        if root_x == root_y {
            return false;
        }
        let size_x = *self.sizes.get(&root_x).unwrap();
        let size_y = *self.sizes.get(&root_y).unwrap();
        let (from, to) = if size_x >= size_y {
            (root_y, root_x)
        } else {
            (root_x, root_y)
        };
        self.change_parent(from, to);
        proof {
            let m = old(self).root_map();
            assert(self.root_map()[*x] == to);
            assert(self.root_map()[*y] == to);
            assert(self.root_map().dom() =~= m.dom());
        }
        true
    }
}

/// The vertex reached from `x` by following `n` parent links.
pub open spec fn ancestor(parents: Map<Vertex, Vertex>, x: Vertex, n: nat) -> Vertex
    decreases n,
{
    if n == 0 {
        x
    } else {
        ancestor(parents, parents[x], (n - 1) as nat)
    }
}

/// Following parent links from any registered vertex reaches its representative: the parent
/// links never form a cycle.
pub proof fn lemma_parent_chain_reaches_root(uf: &UnionFind, x: Vertex)
    requires
        uf.wf(),
        uf.root_map().contains_key(x),
    ensures
        exists|n: nat| ancestor(uf.parents(), x, n) == uf.root_map()[x],
{
    lemma_chain_from(uf, x);
}

/// The induction behind `lemma_parent_chain_reaches_root`, on the rank below the representative.
proof fn lemma_chain_from(uf: &UnionFind, x: Vertex)
    requires
        uf.wf(),
        uf.root_map().contains_key(x),
    ensures
        exists|n: nat| ancestor(uf.parents(), x, n) == uf.root_map()[x],
    decreases uf.rank@[uf.roots@[x]] - uf.rank@[x],
{
    let p = uf.parents();
    if p[x] == x {
        assert(ancestor(p, x, 0) == uf.root_map()[x]);
    } else {
        let y = p[x];
        lemma_chain_from(uf, y);
        let n = choose|n: nat| ancestor(p, y, n) == uf.root_map()[y];
        assert(ancestor(p, x, n + 1) == ancestor(p, y, n));
    }
}

} // verus!
