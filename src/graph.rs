//! The graph: registered nodes and a list of directed edges between them.

use vstd::prelude::*;
use crate::registry::{distinct_labels, register_model, NodeRegistry};

verus! {

/// A directed edge `(from, to)` between node indices: `from` must come before
/// `to`.
#[derive(Clone, Copy, Debug, PartialEq, Eq, Structural)]
pub struct Edge(pub usize, pub usize);

/// Some edge of `edges` ends at `n`.
pub open spec fn has_incoming(edges: Seq<Edge>, n: usize) -> bool {
    exists|k: int| 0 <= k < edges.len() && edges[k].1 == n
}

/// The number of edges of `edges` that end at `v`: the indegree of `v`.
pub open spec fn in_count(edges: Seq<Edge>, v: usize) -> nat
    decreases edges.len(),
{
    if edges.len() == 0 {
        0
    } else {
        in_count(edges.drop_last(), v) + if edges.last().1 == v {
            1nat
        } else {
            0nat
        }
    }
}

/// An indegree is at most the number of edges, and positive exactly when some
/// edge ends at the node.
pub proof fn lemma_in_count(edges: Seq<Edge>, v: usize)
    ensures
        in_count(edges, v) <= edges.len(),
        in_count(edges, v) > 0 <==> has_incoming(edges, v),
    decreases edges.len(),
{
    if edges.len() > 0 {
        let init = edges.drop_last();
        lemma_in_count(init, v);
        if has_incoming(init, v) {
            let k = choose|k: int| 0 <= k < init.len() && init[k].1 == v;
            assert(edges[k].1 == v);
        }
        if has_incoming(edges, v) && edges.last().1 != v {
            let k = choose|k: int| 0 <= k < edges.len() && edges[k].1 == v;
            assert(init[k].1 == v);
        }
        if edges.last().1 == v {
            assert(edges[edges.len() - 1].1 == v);
        }
    }
}

/// Removing an edge lowers the indegree of its target by one, and no other.
pub proof fn lemma_in_count_remove(edges: Seq<Edge>, k: int, v: usize)
    requires
        0 <= k < edges.len(),
    ensures
        in_count(edges.remove(k), v) + (if edges[k].1 == v {
            1nat
        } else {
            0nat
        }) == in_count(edges, v),
    decreases edges.len(),
{
    if k == edges.len() - 1 {
        assert(edges.remove(k) =~= edges.drop_last());
    } else {
        let init = edges.drop_last();
        lemma_in_count_remove(init, k, v);
        assert(edges.remove(k).drop_last() =~= init.remove(k));
        assert(edges.remove(k).last() == edges.last());
    }
}

/// A node that some edge ends at is left with none by removing an edge
/// exactly when that edge is the only one ending at it: so it becomes ready
/// at one removal only.
pub proof fn lemma_last_incoming_removed(edges: Seq<Edge>, k: int, m: usize)
    requires
        0 <= k < edges.len(),
        has_incoming(edges, m),
    ensures
        !has_incoming(edges.remove(k), m) <==> edges[k].1 == m && in_count(edges, m) == 1,
{
    lemma_in_count(edges, m);
    lemma_in_count(edges.remove(k), m);
    lemma_in_count_remove(edges, k, m);
}

/// How many times `e` occurs in `edges`.
pub open spec fn count(edges: Seq<Edge>, e: Edge) -> nat {
    edges.to_multiset().count(e)
}

/// The first position of `e` in `edges`, where it occurs.
pub open spec fn first_index_of(edges: Seq<Edge>, e: Edge) -> int {
    choose|k: int| 0 <= k < edges.len() && edges[k] == e && forall|j: int| 0 <= j < k ==> edges[j] != e
}

/// Every edge joins two distinct nodes among the first `n`.
pub open spec fn edges_wf(edges: Seq<Edge>, n: nat) -> bool {
    forall|k: int| 0 <= k < edges.len() ==> edges[k].0 < n && edges[k].1 < n && edges[k].0 != edges[k].1
}

/// The registered nodes, with indices `0..size()`, and the current edges.
pub struct Graph {
    nodes: NodeRegistry,
    edges: Vec<Edge>,
}

impl Graph {
    /// The node labels, by index.
    pub closed spec fn labels(&self) -> Seq<Seq<char>> {
        self.nodes@
    }

    /// The edges, in storage order.
    pub closed spec fn edge_seq(&self) -> Seq<Edge> {
        self.edges@
    }

    /// Labels are distinct; no edge is a self-loop; edges join registered nodes.
    pub closed spec fn wf(&self) -> bool {
        &&& self.nodes.wf()
        &&& edges_wf(self.edges@, self.nodes@.len())
    }

    pub proof fn lemma_wf(&self)
        requires
            self.wf(),
        ensures
            distinct_labels(self.labels()),
            edges_wf(self.edge_seq(), self.labels().len()),
    {
    }

    pub fn new() -> (r: Graph)
        ensures
            r.wf(),
            r.labels() == Seq::<Seq<char>>::empty(),
            r.edge_seq() == Seq::<Edge>::empty(),
    {
        Graph { nodes: NodeRegistry::new(), edges: Vec::new() }
    }

    /// Number of registered nodes.
    pub fn node_count(&self) -> (r: usize)
        ensures
            r == self.labels().len(),
    {
        self.nodes.size()
    }

    /// Number of edges.
    pub fn edge_count(&self) -> (r: usize)
        ensures
            r == self.edge_seq().len(),
    {
        self.edges.len()
    }

    /// The label of node `i`.
    pub fn label(&self, i: usize) -> (r: &str)
        requires
            i < self.labels().len(),
        ensures
            r@ == self.labels()[i as int],
    {
        self.nodes.label(i)
    }

    /// The edges, in storage order.
    pub fn edges(&self) -> (r: &Vec<Edge>)
        ensures
            r@ == self.edge_seq(),
    {
        &self.edges
    }

    /// Gives the label `n` its node index: the one it has, or the next one.
    pub fn register_node(&mut self, n: &str) -> (r: usize)
        requires
            old(self).wf(),
        ensures
            final(self).wf(),
            final(self).labels() == register_model(old(self).labels(), n@).0,
            r == register_model(old(self).labels(), n@).1,
            r < final(self).labels().len(),
            final(self).labels()[r as int] == n@,
            final(self).edge_seq() == old(self).edge_seq(),
    {
        self.nodes.register(n)
    }

    /// Appends the edge `(from, to)`, unless it is a self-loop, which is dropped.
    pub fn add_edge(&mut self, from: usize, to: usize)
        requires
            old(self).wf(),
            from < old(self).labels().len(),
            to < old(self).labels().len(),
        ensures
            final(self).wf(),
            final(self).labels() == old(self).labels(),
            final(self).edge_seq() == if from == to {
                old(self).edge_seq()
            } else {
                old(self).edge_seq().push(Edge(from, to))
            },
    {
        if from != to {
            self.edges.push(Edge(from, to));
        }
    }

    /// The edges that satisfy `criteria`, in storage order.
    pub fn collect_edges<P: Fn(&Edge) -> bool>(&self, criteria: P) -> (r: Vec<Edge>)
        requires
            forall|e: &Edge| #[trigger] criteria.requires((e,)),
            forall|e: &Edge, b1: bool, b2: bool|
                criteria.ensures((e,), b1) && criteria.ensures((e,), b2) ==> b1 == b2,
        ensures
            r@ == self.edge_seq().filter(|e: Edge| criteria.ensures((&e,), true)),
            forall|k: int|
                0 <= k < self.edge_seq().len() ==> #[trigger] criteria.ensures((&self.edge_seq()[k],), true)
                    || criteria.ensures((&self.edge_seq()[k],), false),
    {
        let ghost keep = |e: Edge| criteria.ensures((&e,), true);
        let mut r: Vec<Edge> = Vec::new();
        let mut i: usize = 0;
        while i < self.edges.len()
            invariant
                0 <= i <= self.edges@.len(),
                forall|e: &Edge| #[trigger] criteria.requires((e,)),
                forall|e: &Edge, b1: bool, b2: bool|
                    criteria.ensures((e,), b1) && criteria.ensures((e,), b2) ==> b1 == b2,
                keep == (|e: Edge| criteria.ensures((&e,), true)),
                forall|k: int|
                    0 <= k < i ==> #[trigger] criteria.ensures((&self.edges@[k],), true)
                        || criteria.ensures((&self.edges@[k],), false),
                r@ == self.edges@.subrange(0, i as int).filter(keep),
            decreases self.edges@.len() - i,
        {
            let e = self.edges[i];
            let keep_it = criteria(&e);
            proof {
                assert(self.edges@.subrange(0, i + 1) =~= self.edges@.subrange(0, i as int).push(e));
                self.edges@.subrange(0, i as int).lemma_filter_push(e, keep);
                assert(criteria.ensures((&e,), keep_it));
                if criteria.ensures((&e,), true) {
                    assert(keep_it == true);
                }
                assert(keep(e) == keep_it);
            }
            if keep_it {
                r.push(e);
            }
            i = i + 1;
        }
        assert(self.edges@.subrange(0, i as int) =~= self.edges@);
        r
    }

    /// The indegree of each node.
    pub fn indegrees(&self) -> (r: Vec<usize>)
        requires
            self.wf(),
        ensures
            r@.len() == self.labels().len(),
            forall|v: usize| v < self.labels().len() ==> r@[v as int] == in_count(self.edge_seq(), v),
    {
        let n = self.nodes.size();
        let mut r: Vec<usize> = Vec::new();
        let mut v: usize = 0;
        while v < n
            invariant
                0 <= v <= n,
                n == self.nodes@.len(),
                r@.len() == v,
                forall|w: int| 0 <= w < v ==> r@[w] == 0,
            decreases n - v,
        {
            r.push(0);
            v = v + 1;
        }
        let mut i: usize = 0;
        assert(self.edges@.take(0) =~= Seq::<Edge>::empty());
        while i < self.edges.len()
            invariant
                0 <= i <= self.edges@.len(),
                self.wf(),
                n == self.nodes@.len(),
                r@.len() == n,
                forall|w: usize| w < n ==> r@[w as int] == in_count(self.edges@.take(i as int), w),
            decreases self.edges@.len() - i,
        {
            let to = self.edges[i].1;
            assert(self.edges@.take(i + 1).drop_last() =~= self.edges@.take(i as int));
            assert(self.edges@.take(i + 1).last() == self.edges@[i as int]);
            proof {
                lemma_in_count(self.edges@.take(i as int), to);
            }
            r.set(to, r[to] + 1);
            i = i + 1;
        }
        assert(self.edges@.take(i as int) =~= self.edges@);
        r
    }

    /// The nodes that no edge ends at, in ascending order.
    pub fn collect_nodes_without_incoming(&self) -> (r: Vec<usize>)
        requires
            self.wf(),
        ensures
            forall|a: int, b: int| 0 <= a < b < r@.len() ==> r@[a] < r@[b],
            forall|v: usize|
                r@.contains(v) <==> v < self.labels().len() && !has_incoming(self.edge_seq(), v),
    {
        let n = self.nodes.size();
        let mut targeted: Vec<bool> = Vec::new();
        let mut v: usize = 0;
        while v < n
            invariant
                0 <= v <= n,
                n == self.nodes@.len(),
                targeted@.len() == v,
                forall|w: int| 0 <= w < v ==> !targeted@[w],
            decreases n - v,
        {
            targeted.push(false);
            v = v + 1;
        }
        let mut i: usize = 0;
        while i < self.edges.len()
            invariant
                0 <= i <= self.edges@.len(),
                self.wf(),
                n == self.nodes@.len(),
                targeted@.len() == n,
                forall|w: usize|
                    w < n ==> (targeted@[w as int] <==> exists|k: int|
                        0 <= k < i && self.edges@[k].1 == w),
            decreases self.edges@.len() - i,
        {
            let to = self.edges[i].1;
            targeted.set(to, true);
            assert forall|w: usize| w < n implies (targeted@[w as int] <==> exists|k: int|
                0 <= k < i + 1 && self.edges@[k].1 == w) by {
                if w == to {
                    assert(self.edges@[i as int].1 == w);
                }
            }
            i = i + 1;
        }
        let mut r: Vec<usize> = Vec::new();
        let mut v: usize = 0;
        while v < n
            invariant
                0 <= v <= n,
                n == self.nodes@.len(),
                targeted@.len() == n,
                forall|w: usize| w < n ==> (targeted@[w as int] <==> has_incoming(self.edges@, w)),
                forall|a: int, b: int| 0 <= a < b < r@.len() ==> r@[a] < r@[b],
                forall|a: int| 0 <= a < r@.len() ==> r@[a] < v,
                forall|w: usize| r@.contains(w) <==> w < v && !has_incoming(self.edges@, w),
            decreases n - v,
        {
            let ghost r0 = r@;
            if !targeted[v] {
                r.push(v);
            }
            assert forall|w: usize| r@.contains(w) <==> w < v + 1 && !has_incoming(self.edges@, w) by {
                if w == v && !targeted@[v as int] {
                    assert(r@[r@.len() - 1] == v);
                }
                if r@.contains(w) && w != v {
                    let a = choose|a: int| 0 <= a < r@.len() && r@[a] == w;
                    assert(r0[a] == w);
                }
                if r0.contains(w) {
                    let a = choose|a: int| 0 <= a < r0.len() && r0[a] == w;
                    assert(r@[a] == w);
                }
            }
            v = v + 1;
        }
        r
    }

    /// Whether some edge ends at `n`.
    pub fn has_incoming_edges(&self, n: usize) -> (r: bool)
        ensures
            r == has_incoming(self.edge_seq(), n),
    {
        let mut i: usize = 0;
        while i < self.edges.len()
            invariant
                0 <= i <= self.edges@.len(),
                forall|k: int| 0 <= k < i ==> self.edges@[k].1 != n,
            decreases self.edges@.len() - i,
        {
            if self.edges[i].1 == n {
                return true;
            }
            i = i + 1;
        }
        false
    }

    /// Removes the first occurrence of `e`, which must be present.
    pub fn remove_edge(&mut self, e: &Edge)
        requires
            old(self).wf(),
            old(self).edge_seq().contains(*e),
        ensures
            final(self).wf(),
            final(self).labels() == old(self).labels(),
            0 <= first_index_of(old(self).edge_seq(), *e) < old(self).edge_seq().len(),
            old(self).edge_seq()[first_index_of(old(self).edge_seq(), *e)] == *e,
            final(self).edge_seq() == old(self).edge_seq().remove(
                first_index_of(old(self).edge_seq(), *e),
            ),
    {
        let mut i: usize = 0;
        while i < self.edges.len()
            invariant
                0 <= i <= self.edges@.len(),
                forall|k: int| 0 <= k < i ==> self.edges@[k] != *e,
                *self == *old(self),
                self.wf(),
            decreases self.edges@.len() - i,
        {
            if self.edges[i] == *e {
                assert(first_index_of(self.edges@, *e) == i) by {
                    let k = first_index_of(self.edges@, *e);
                    assert(0 <= k < self.edges@.len() && self.edges@[k] == *e && forall|j: int|
                        0 <= j < k ==> self.edges@[j] != *e);
                    assert(!(k < i));
                    assert(!(i < k));
                }
                self.edges.remove(i);
                assert forall|k: int| 0 <= k < self.edges@.len() implies self.edges@[k] == old(
                    self,
                ).edges@[if k < i {
                    k
                } else {
                    k + 1
                }] by {}
                assert(edges_wf(self.edges@, self.nodes@.len()));
                return;
            }
            i = i + 1;
        }
        assert(false) by {
            let k = choose|k: int| 0 <= k < self.edges@.len() && self.edges@[k] == *e;
        }
    }
}

} // verus!
