//! Kahn's topological sort, and what its outcome says of the graph.

use vstd::prelude::*;
use crate::graph::{
    count, edges_wf, first_index_of, has_incoming, in_count, lemma_in_count, lemma_in_count_remove,
    Edge, Graph,
};

verus! {

broadcast use {vstd::seq_lib::group_to_multiset_ensures, vstd::multiset::group_multiset_axioms};

/// Whenever an edge joins two nodes of `order`, its source comes first.
pub open spec fn precedes_all(order: Seq<usize>, edges: Seq<Edge>) -> bool {
    forall|k: int, a: int, b: int|
        0 <= k < edges.len() && 0 <= a < order.len() && 0 <= b < order.len() && #[trigger] order[a]
            == #[trigger] edges[k].0 && #[trigger] order[b] == edges[k].1 ==> a < b
}

/// `order` lists each of the nodes `0..n` once, every edge going forward.
pub open spec fn is_topological_order(order: Seq<usize>, n: nat, edges: Seq<Edge>) -> bool {
    &&& order.len() == n
    &&& order.no_duplicates()
    &&& forall|a: int| 0 <= a < order.len() ==> order[a] < n
    &&& precedes_all(order, edges)
}

/// Every source of an edge of `rest` is also the target of an edge of `rest`.
pub open spec fn sources_have_incoming(rest: Seq<Edge>) -> bool {
    forall|k: int| 0 <= k < rest.len() ==> has_incoming(rest, #[trigger] rest[k].0)
}

/// A sequence without duplicates of numbers below `n` has at most `n`
/// elements, and fewer when one of them is missing.
pub proof fn lemma_distinct_below(s: Seq<usize>, n: nat)
    requires
        s.no_duplicates(),
        forall|a: int| 0 <= a < s.len() ==> s[a] < n,
    ensures
        s.len() <= n,
        forall|v: usize| v < n && !s.contains(v) ==> s.len() < n,
        n <= usize::MAX + 1 && (forall|v: usize| v < n ==> s.contains(v)) ==> s.len() == n,
    decreases n,
{
    if n > 0 {
        let top: int = n - 1;
        let has_top = exists|k: int| 0 <= k < s.len() && s[k] == top;
        let k = if has_top {
            choose|k: int| 0 <= k < s.len() && s[k] == top
        } else {
            s.len() as int
        };
        let rest = if has_top {
            s.remove(k)
        } else {
            s
        };
        // the index in `s` of the element at `a` in `rest`
        let at = |a: int| if has_top && a >= k { a + 1 } else { a };
        assert forall|a: int| 0 <= a < rest.len() implies rest[a] == s[at(a)] && at(a) != k by {}
        assert forall|a: int| 0 <= a < rest.len() implies rest[a] < n - 1 by {
            assert(rest[a] == s[at(a)]);
            if !has_top {
                assert(s[a] != top);
            }
        }
        assert(rest.no_duplicates()) by {
            assert forall|a: int, b: int| 0 <= a < rest.len() && 0 <= b < rest.len() && a != b
                implies rest[a] != rest[b] by {
                assert(rest[a] == s[at(a)] && rest[b] == s[at(b)]);
            }
        }
        lemma_distinct_below(rest, (n - 1) as nat);
        if n <= usize::MAX + 1 && forall|v: usize| v < n ==> s.contains(v) {
            assert(s.contains(top as usize));
            assert forall|v: usize| v < n - 1 implies rest.contains(v) by {
                assert(s.contains(v));
                let i = choose|i: int| 0 <= i < s.len() && s[i] == v;
                assert(i != k);
                let a = if has_top && i > k { i - 1 } else { i };
                assert(rest[a] == v);
            }
        }
        assert forall|v: usize| v < n && !s.contains(v) implies s.len() < n by {
            if v != top {
                assert(!rest.contains(v)) by {
                    if rest.contains(v) {
                        let a = choose|a: int| 0 <= a < rest.len() && rest[a] == v;
                        assert(s[at(a)] == v);
                    }
                }
            } else {
                assert(!has_top);
            }
        }
    } else {
        if s.len() > 0 {
            assert(s[0] < n);
        }
    }
}

/// How often an element occurs in a filtered sequence.
pub proof fn lemma_filter_count(s: Seq<Edge>, p: spec_fn(Edge) -> bool, e: Edge)
    ensures
        count(s.filter(p), e) == if p(e) {
            count(s, e)
        } else {
            0
        },
    decreases s.len(),
{
    if s.len() > 0 {
        let init = s.drop_last();
        lemma_filter_count(init, p, e);
        assert(init.push(s.last()) =~= s);
        init.lemma_filter_push(s.last(), p);
    } else {
        assert(s.filter(p) =~= s) by {
            reveal(Seq::filter);
        }
    }
}

/// Whether an edge ends at `v` depends only on how often each edge ending at
/// `v` occurs.
pub proof fn lemma_incoming_by_count(s1: Seq<Edge>, s2: Seq<Edge>, v: usize)
    requires
        forall|x: Edge| x.1 == v ==> (count(s1, x) > 0 <==> count(s2, x) > 0),
    ensures
        has_incoming(s1, v) == has_incoming(s2, v),
{
    if has_incoming(s1, v) {
        let k = choose|k: int| 0 <= k < s1.len() && s1[k].1 == v;
        assert(s1.contains(s1[k]));
        assert(count(s2, s1[k]) > 0);
        assert(s2.contains(s1[k]));
    }
    if has_incoming(s2, v) {
        let k = choose|k: int| 0 <= k < s2.len() && s2[k].1 == v;
        assert(s2.contains(s2[k]));
        assert(count(s1, s2[k]) > 0);
        assert(s1.contains(s2[k]));
    }
}

/// In a topological order, no source of `rest` stands at a position below `p`.
proof fn lemma_no_source_below(order: Seq<usize>, n: nat, edges: Seq<Edge>, rest: Seq<Edge>, p: int)
    requires
        0 <= p <= order.len(),
        is_topological_order(order, n, edges),
        edges_wf(edges, n),
        forall|k: int| 0 <= k < rest.len() ==> edges.contains(#[trigger] rest[k]),
        sources_have_incoming(rest),
    ensures
        forall|k: int, c: int|
            0 <= k < rest.len() && 0 <= c < order.len() && #[trigger] order[c] == #[trigger] rest[k].0 ==> c >= p,
    decreases p,
{
    if p > 0 {
        lemma_no_source_below(order, n, edges, rest, p - 1);
        assert forall|k: int, c: int|
            0 <= k < rest.len() && 0 <= c < order.len() && #[trigger] order[c] == #[trigger] rest[k].0
                implies c >= p by {
            if c == p - 1 {
                assert(has_incoming(rest, rest[k].0));
                let k2 = choose|k2: int| 0 <= k2 < rest.len() && rest[k2].1 == rest[k].0;
                assert(edges.contains(rest[k2]));
                let k3 = choose|k3: int| 0 <= k3 < edges.len() && edges[k3] == rest[k2];
                let u = rest[k2].0;
                assert(u < n);
                lemma_distinct_below(order, n);
                assert(order.contains(u));
                let c2 = choose|c2: int| 0 <= c2 < order.len() && order[c2] == u;
                assert(order[c2] == edges[k3].0 && order[c] == edges[k3].1);
                assert(c2 >= p - 1);
            }
        }
    }
}

/// A non-empty set of edges of a graph in which every source is also a target
/// leaves the graph without a topological order: it holds a cycle.
pub proof fn lemma_residue_blocks_order(order: Seq<usize>, n: nat, edges: Seq<Edge>, rest: Seq<Edge>)
    requires
        rest.len() > 0,
        edges_wf(edges, n),
        forall|k: int| 0 <= k < rest.len() ==> edges.contains(#[trigger] rest[k]),
        sources_have_incoming(rest),
    ensures
        !is_topological_order(order, n, edges),
{
    if is_topological_order(order, n, edges) {
        lemma_no_source_below(order, n, edges, rest, order.len() as int);
        let u = rest[0].0;
        assert(edges.contains(rest[0]));
        let k3 = choose|k3: int| 0 <= k3 < edges.len() && edges[k3] == rest[0];
        assert(u < n);
        lemma_distinct_below(order, n);
        assert(order.contains(u));
        let c = choose|c: int| 0 <= c < order.len() && order[c] == u;
        assert(order[c] == rest[0].0);
    }
}

/// How a sort ended: with every node placed, or with edges left that lie on
/// or behind a cycle. Either way the nodes placed, in order.
#[derive(Debug)]
pub enum SortOutcome {
    Acyclic(Vec<usize>),
    Cyclic(Vec<usize>),
}

impl SortOutcome {
    pub open spec fn order(&self) -> Seq<usize> {
        match self {
            SortOutcome::Acyclic(o) => o@,
            SortOutcome::Cyclic(o) => o@,
        }
    }

    /// The nodes placed, in order.
    pub fn placed(&self) -> (r: &Vec<usize>)
        ensures
            r@ == self.order(),
    {
        match self {
            SortOutcome::Acyclic(o) => o,
            SortOutcome::Cyclic(o) => o,
        }
    }
}

/// Sorts the nodes of `graph` by Kahn's algorithm, removing each edge once its
/// source is placed. A node is placed once no edge ends at it, as a counter of
/// the edges left that end at each node shows. The edges left
/// in `graph` are those whose source was never placed: none exactly when the
/// graph has a topological order, which is then the one returned.
#[verifier::rlimit(60)]
pub fn topo_sort(graph: &mut Graph) -> (r: SortOutcome)
    requires
        old(graph).wf(),
    ensures
        final(graph).wf(),
        final(graph).labels() == old(graph).labels(),
        r.order().no_duplicates(),
        forall|a: int| 0 <= a < r.order().len() ==> r.order()[a] < old(graph).labels().len(),
        precedes_all(r.order(), old(graph).edge_seq()),
        forall|v: usize|
            v < old(graph).labels().len() ==> (r.order().contains(v) <==> !has_incoming(
                final(graph).edge_seq(),
                v,
            )),
        forall|e: Edge|
            count(final(graph).edge_seq(), e) == if r.order().contains(e.0) {
                0
            } else {
                count(old(graph).edge_seq(), e)
            },
        r is Acyclic <==> final(graph).edge_seq().len() == 0,
        r is Acyclic ==> is_topological_order(
            r.order(),
            old(graph).labels().len(),
            old(graph).edge_seq(),
        ),
        r is Cyclic ==> forall|o: Seq<usize>|
            !is_topological_order(o, old(graph).labels().len(), old(graph).edge_seq()),
{
    let ghost labels = graph.labels();
    let ghost e0 = graph.edge_seq();
    let ghost nn = labels.len();
    proof {
        graph.lemma_wf();
    }
    let n_nodes = graph.node_count();
    let mut order = graph.collect_nodes_without_incoming();
    let mut indegree = graph.indegrees();
    proof {
        assert forall|k: int| 0 <= k < e0.len() implies count(graph.edge_seq(), #[trigger] e0[k]) > 0 by {
            assert(e0.contains(e0[k]));
        }
    }
    assert forall|a: int| 0 <= a < order@.len() implies order@[a] < nn by {
        assert(order@.contains(order@[a]));
    }
    let mut i: usize = 0;
    while i < order.len()
        invariant
            graph.wf(),
            graph.labels() == labels,
            nn == labels.len(),
            n_nodes == nn,
            indegree@.len() == nn,
            forall|v: usize| v < nn ==> indegree@[v as int] == in_count(graph.edge_seq(), v),
            edges_wf(e0, nn),
            0 <= i <= order@.len(),
            order@.no_duplicates(),
            forall|a: int| 0 <= a < order@.len() ==> order@[a] < nn,
            forall|v: usize| v < nn ==> (order@.contains(v) <==> !has_incoming(graph.edge_seq(), v)),
            forall|e: Edge|
                (forall|a: int| 0 <= a < i ==> order@[a] != e.0) ==> #[trigger] count(
                    graph.edge_seq(),
                    e,
                ) == count(e0, e),
            forall|e: Edge, a: int|
                0 <= a < i && #[trigger] order@[a] == e.0 ==> #[trigger] count(graph.edge_seq(), e) == 0,
            forall|k: int, a: int, b: int|
                0 <= k < e0.len() && 0 <= a < order@.len() && 0 <= b < order@.len() && count(
                    graph.edge_seq(),
                    e0[k],
                ) == 0 && #[trigger] order@[a] == #[trigger] e0[k].0 && #[trigger] order@[b]
                    == e0[k].1 ==> a < b,
        decreases n_nodes - i,
    {
        proof {
            lemma_distinct_below(order@, nn);
        }
        let n = order[i];
        let ghost es = graph.edge_seq();
        let ghost ls = order@;
        let from_n = |e: &Edge| -> (b: bool)
            ensures
                b == (e.0 == n),
            { e.0 == n };
        let ghost crit = from_n;
        let out = graph.collect_edges(from_n);
        proof {
            let keep = |e: Edge| crit.ensures((&e,), true);
            assert forall|e: Edge| #[trigger] count(out@, e) == if e.0 == n {
                count(es, e)
            } else {
                0
            } by {
                lemma_filter_count(es, keep, e);
                if count(es, e) > 0 {
                    assert(es.contains(e));
                    let k = choose|k: int| 0 <= k < es.len() && es[k] == e;
                    assert(crit.ensures((&es[k],), true) || crit.ensures((&es[k],), false));
                }
            }
        }
        let mut j: usize = 0;
        assert(out@.skip(0) =~= out@);
        while j < out.len()
            invariant
                graph.wf(),
                graph.labels() == labels,
                nn == labels.len(),
                indegree@.len() == nn,
                forall|v: usize| v < nn ==> indegree@[v as int] == in_count(graph.edge_seq(), v),
                edges_wf(e0, nn),
                0 <= j <= out@.len(),
                0 <= i < order@.len(),
                order@[i as int] == n,
                order@.no_duplicates(),
                forall|a: int| 0 <= a < order@.len() ==> order@[a] < nn,
                forall|v: usize| v < nn ==> (order@.contains(v) <==> !has_incoming(graph.edge_seq(), v)),
                forall|e: Edge| e.0 == n ==> #[trigger] count(graph.edge_seq(), e) == count(out@.skip(j as int), e),
                forall|e: Edge| e.0 != n ==> #[trigger] count(graph.edge_seq(), e) == count(es, e),
                forall|e: Edge|
                    (forall|a: int| 0 <= a < i ==> order@[a] != e.0) ==> #[trigger] count(es, e) == count(e0, e),
                forall|e: Edge, a: int| 0 <= a < i && #[trigger] order@[a] == e.0 ==> #[trigger] count(es, e) == 0,
                forall|t: int| 0 <= t < out@.len() ==> #[trigger] out@[t].0 == n,
                forall|k: int, a: int, b: int|
                    0 <= k < e0.len() && 0 <= a < order@.len() && 0 <= b < order@.len() && count(
                        graph.edge_seq(),
                        e0[k],
                    ) == 0 && #[trigger] order@[a] == #[trigger] e0[k].0 && #[trigger] order@[b]
                        == e0[k].1 ==> a < b,
            decreases out@.len() - j,
        {
            let e = out[j];
            let ghost before = graph.edge_seq();
            proof {
                graph.lemma_wf();
            }
            let ghost lb = order@;
            proof {
                assert(out@.skip(j as int).remove(0) =~= out@.skip(j + 1));
                assert(out@.skip(j as int)[0] == e);
                assert(out@[j as int].0 == n);
                assert(count(before, e) == count(out@.skip(j as int), e));
                assert(count(out@.skip(j as int), e) > 0);
                assert(before.to_multiset().count(e) > 0);
                assert(before.contains(e));
            }
            graph.remove_edge(&e);
            proof {
                let fi = first_index_of(before, e);
                assert(graph.edge_seq() == before.remove(fi));
                assert(before[fi] == e);
                assert(forall|x: Edge| #[trigger] count(graph.edge_seq(), x) == if x == e {
                    (count(before, x) - 1) as nat
                } else {
                    count(before, x)
                });
                assert(forall|x: Edge| #[trigger] count(out@.skip(j as int), x) == if x == e {
                    count(out@.skip(j + 1), x) + 1
                } else {
                    count(out@.skip(j + 1), x)
                });
                let k = choose|k: int| 0 <= k < before.len() && before[k] == e;
                assert(e.1 != n);
                assert(e.1 < nn);
            }
            let m = e.1;
            proof {
                assert(has_incoming(before, m));
                assert(!order@.contains(m));
                assert forall|v: usize| v != m implies has_incoming(graph.edge_seq(), v) == has_incoming(before, v) by {
                    lemma_incoming_by_count(graph.edge_seq(), before, v);
                }
            }
            proof {
                let fi = first_index_of(before, e);
                lemma_in_count(before, m);
                lemma_in_count(graph.edge_seq(), m);
                assert forall|v: usize| v < nn implies in_count(graph.edge_seq(), v) + (if v == m {
                    1nat
                } else {
                    0nat
                }) == in_count(before, v) by {
                    lemma_in_count_remove(before, fi, v);
                }
            }
            indegree.set(m, indegree[m] - 1);
            if indegree[m] == 0 {
                order.push(m);
                proof {
                    assert(order@[order@.len() - 1] == m);
                    assert(forall|a: int| 0 <= a < order@.len() ==> order@[a] < nn);
                    assert(forall|a: int| 0 <= a < lb.len() ==> order@[a] == lb[a]);
                }
            }
            proof {
                assert forall|v: usize| v < nn implies (order@.contains(v) <==> !has_incoming(graph.edge_seq(), v)) by {
                    if order@.contains(v) && v != m {
                        let a = choose|a: int| 0 <= a < order@.len() && order@[a] == v;
                        assert(lb[a] == v);
                    }
                    if lb.contains(v) {
                        let a = choose|a: int| 0 <= a < lb.len() && lb[a] == v;
                        assert(order@[a] == v);
                    }
                }
                assert forall|k: int, a: int, b: int|
                    0 <= k < e0.len() && 0 <= a < order@.len() && 0 <= b < order@.len() && count(
                        graph.edge_seq(),
                        e0[k],
                    ) == 0 && #[trigger] order@[a] == #[trigger] e0[k].0 && #[trigger] order@[b]
                        == e0[k].1 implies a < b by {
                    let x = e0[k];
                    if a == lb.len() {
                        // `m` was just placed; no edge from it was removed yet.
                        assert(x.0 == m);
                        assert(x.0 != x.1);
                        assert(forall|c: int| 0 <= c < i ==> lb[c] != m);
                        assert(count(es, x) == count(e0, x));
                        assert(e0.contains(x));
                    } else if b == lb.len() {
                    } else if count(before, x) == 0 {
                        assert(lb[a] == x.0 && lb[b] == x.1);
                    } else {
                        assert(x == e);
                        assert(lb[b] == m);
                    }
                }
            }
            j = j + 1;
        }
        proof {
            assert(out@.skip(j as int) =~= Seq::<Edge>::empty());
            assert forall|e: Edge|
                (forall|a: int| 0 <= a < i + 1 ==> order@[a] != e.0) implies #[trigger] count(
                    graph.edge_seq(),
                    e,
                ) == count(e0, e) by {
                assert(order@[i as int] != e.0);
            }
        }
        i = i + 1;
    }
    proof {
        assert forall|e: Edge| #[trigger] count(graph.edge_seq(), e) == if order@.contains(e.0) {
            0
        } else {
            count(e0, e)
        } by {
            if order@.contains(e.0) {
                let a = choose|a: int| 0 <= a < order@.len() && order@[a] == e.0;
            }
        }
        assert forall|k: int, a: int, b: int|
            0 <= k < e0.len() && 0 <= a < order@.len() && 0 <= b < order@.len() && #[trigger] order@[a]
                == #[trigger] e0[k].0 && #[trigger] order@[b] == e0[k].1 implies a < b by {
            assert(count(graph.edge_seq(), e0[k]) == 0);
        }
    }
    if graph.edge_count() == 0 {
        proof {
            assert forall|v: usize| v < nn implies order@.contains(v) by {
                assert(!has_incoming(graph.edge_seq(), v));
            }
            lemma_distinct_below(order@, nn);
        }
        SortOutcome::Acyclic(order)
    } else {
        proof {
            let rest = graph.edge_seq();
            assert forall|k: int| 0 <= k < rest.len() implies e0.contains(#[trigger] rest[k]) by {
                assert(rest.contains(rest[k]));
                assert(count(rest, rest[k]) > 0);
            }
            assert forall|k: int| 0 <= k < rest.len() implies has_incoming(rest, #[trigger] rest[k].0) by {
                assert(rest.contains(rest[k]));
                assert(count(rest, rest[k]) > 0);
                assert(!order@.contains(rest[k].0));
            }
            assert forall|o: Seq<usize>| !is_topological_order(o, nn, e0) by {
                lemma_residue_blocks_order(o, nn, e0, rest);
            }
        }
        SortOutcome::Cyclic(order)
    }
}

/// Residues of at least this many edges are reported by their count alone.
pub const RESIDUE_LIST_LIMIT: usize = 100;

/// The edges left in `graph`, when there are few enough to list them.
pub fn residue_listing(graph: &Graph) -> (r: Option<&Vec<Edge>>)
    ensures
        r is Some <==> graph.edge_seq().len() < RESIDUE_LIST_LIMIT,
        r matches Some(v) ==> v@ == graph.edge_seq(),
{
    if graph.edge_count() < RESIDUE_LIST_LIMIT {
        Some(graph.edges())
    } else {
        None
    }
}

} // verus!
