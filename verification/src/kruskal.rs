//! Kruskal's minimum-spanning-tree construction: collect every directed
//! edge as a (weight, from, to) triplet, sort ascending, and accept each
//! edge that joins two still-separate sets of a weighted quick-union
//! structure, stopping after `N - 1` acceptances.
//!
//! One specification-level fold, `kruskal_spec`, pins the whole outcome
//! down; the accepted total cost saturates at `u32::MAX`.  The graph is
//! read as directed edges exactly as stored: callers wanting undirected
//! semantics supply each edge in both directions.

use vstd::prelude::*;
use vstd::relations::{sorted_by, total_ordering};
use vstd::seq_lib::lemma_sorted_unique;
use crate::graph::{AdjList, Edge, Graph};
use crate::union_find::{UnionFind, WeightedQuickUnion, rank_sum, root_of};

verus! {

broadcast use vstd::seq_lib::group_to_multiset_ensures;

/// The lexicographic order on (weight, from, to) triplets the edges are
/// sorted by.
pub open spec fn trip_le(a: (u32, usize, usize), b: (u32, usize, usize)) -> bool {
    a.0 < b.0 || (a.0 == b.0 && (a.1 < b.1 || (a.1 == b.1 && a.2 <= b.2)))
}

/// `trip_le` is a total order, so a sorted arrangement of the edges is
/// unique.
pub proof fn lemma_trip_le_total()
    ensures
        total_ordering(|a: (u32, usize, usize), b: (u32, usize, usize)| trip_le(a, b)),
{
}

/// One vertex's outgoing edges as (weight, from, to) triplets.
pub open spec fn row_triples(row: Seq<Edge>, from: usize) -> Seq<(u32, usize, usize)> {
    row.map_values(|e: Edge| (e.0, from, e.1))
}

/// The first `n` vertices' triplets, in vertex then stored order.
pub open spec fn graph_triples(adj: Seq<Seq<Edge>>, n: int) -> Seq<(u32, usize, usize)>
    decreases n,
{
    if n <= 0 {
        Seq::empty()
    } else {
        graph_triples(adj, n - 1) + row_triples(adj[n - 1], (n - 1) as usize)
    }
}

/// The running state of the scan over the sorted edges.
#[verifier::ext_equal]
pub struct KruskalState {
    pub ids: Seq<int>,
    pub rank: Seq<usize>,
    pub cost: u32,
    pub picked: int,
}

/// Merge the sets of `to` and `from` exactly as the weighted quick-union
/// does: smaller tree under larger, ties attaching `from`'s root under
/// `to`'s.
pub open spec fn kruskal_union(st: KruskalState, to: int, from: int) -> KruskalState {
    let rp = root_of(st.ids, to);
    let rq = root_of(st.ids, from);
    if st.rank[rp] < st.rank[rq] {
        KruskalState {
            ids: st.ids.update(rp, rq),
            rank: st.rank.update(rq, rank_sum(st.rank[rq] as usize, st.rank[rp] as usize)),
            ..st
        }
    } else {
        KruskalState {
            ids: st.ids.update(rq, rp),
            rank: st.rank.update(rp, rank_sum(st.rank[rp] as usize, st.rank[rq] as usize)),
            ..st
        }
    }
}

/// Scan the sorted edges from position `i`: skip an edge whose ends are
/// already connected, otherwise union them and accept the weight; stop
/// once `n - 1` edges are accepted.
pub open spec fn kruskal_loop(
    edges: Seq<(u32, usize, usize)>,
    n: int,
    i: int,
    st: KruskalState,
) -> KruskalState
    decreases edges.len() - i,
{
    if i < 0 || i >= edges.len() || st.picked == n - 1 {
        st
    } else {
        let w = edges[i].0;
        let from = edges[i].1 as int;
        let to = edges[i].2 as int;
        let st1 = if root_of(st.ids, to) == root_of(st.ids, from) {
            st
        } else {
            KruskalState {
                cost: crate::dijkstra::saturate_add(st.cost, w),
                picked: st.picked + 1,
                ..kruskal_union(st, to, from)
            }
        };
        kruskal_loop(edges, n, i + 1, st1)
    }
}

/// The scan's starting state: singletons, no cost, nothing accepted.
pub open spec fn kruskal_init(n: nat) -> KruskalState {
    KruskalState {
        ids: Seq::new(n, |i: int| i),
        rank: Seq::new(n, |i: int| 1usize),
        cost: 0u32,
        picked: 0,
    }
}

/// The edges of the graph, sorted by `trip_le`.
pub open spec fn sorted_triples(adj: Seq<Seq<Edge>>) -> Seq<(u32, usize, usize)> {
    graph_triples(adj, adj.len() as int).sort_by(
        |a: (u32, usize, usize), b: (u32, usize, usize)| trip_le(a, b),
    )
}

/// The whole run: what `kruskal` must produce for neighbour structure
/// `adj`.
pub open spec fn kruskal_spec(adj: Seq<Seq<Edge>>) -> KruskalState {
    kruskal_loop(sorted_triples(adj), adj.len() as int, 0, kruskal_init(adj.len()))
}

/// Stable insertion sort of the edge triplets by `trip_le`.
fn sort_triples(v: &mut Vec<(u32, usize, usize)>)
    ensures
        sorted_by(final(v)@, |a: (u32, usize, usize), b: (u32, usize, usize)| trip_le(a, b)),
        final(v)@.to_multiset() == old(v)@.to_multiset(),
{
    let ghost leq = |a: (u32, usize, usize), b: (u32, usize, usize)| trip_le(a, b);
    let n = v.len();
    if n < 2 {
        return;
    }
    for i in 1..n
        invariant
            n == v@.len(),
            v@.to_multiset() == old(v)@.to_multiset(),
            forall|a: int, b: int| 0 <= a <= b < i ==> trip_le(v@[a], v@[b]),
    {
        let mut j = i;
        loop
            invariant_except_break
                n == v@.len(),
                j <= i < n,
                v@.to_multiset() == old(v)@.to_multiset(),
                forall|a: int, b: int|
                    0 <= a <= b <= i && a != j && b != j ==> trip_le(v@[a], v@[b]),
                forall|b: int| j < b <= i ==> trip_le(v@[j as int], v@[b]),
            ensures
                n == v@.len(),
                j <= i < n,
                v@.to_multiset() == old(v)@.to_multiset(),
                forall|a: int, b: int|
                    0 <= a <= b <= i && a != j && b != j ==> trip_le(v@[a], v@[b]),
                forall|b: int| j < b <= i ==> trip_le(v@[j as int], v@[b]),
                j == 0 || trip_le(v@[j - 1], v@[j as int]),
            decreases j,
        {
            if j == 0 {
                break;
            }
            let prev = v[j - 1];
            let cur = v[j];
            if prev.0 < cur.0 || (prev.0 == cur.0 && (prev.1 < cur.1 || (prev.1 == cur.1 && prev.2
                <= cur.2))) {
                break;
            }
            let ghost s = v@;
            let x = v[j - 1];
            let y = v[j];
            v.set(j - 1, y);
            v.set(j, x);
            proof {
                lemma_swap_triples(s, j as int - 1, j as int);
                assert forall|a: int, b: int|
                    0 <= a <= b <= i && a != j - 1 && b != j - 1 implies trip_le(
                    v@[a],
                    v@[b],
                ) by {
                    if a == j && b != j {
                        assert(trip_le(s[j - 1], s[b]));
                    } else if b == j && a != j {
                        assert(trip_le(s[a], s[j - 1]));
                    }
                }
                assert forall|b: int| j - 1 < b <= i implies trip_le(v@[j - 1], #[trigger] v@[b]) by {
                    if b == j {
                    } else {
                        assert(trip_le(s[j as int], s[b]));
                    }
                }
            }
            j = j - 1;
        }
        proof {
            assert forall|a: int, b: int| 0 <= a <= b <= i implies trip_le(v@[a], v@[b]) by {
                if a == j && b != j {
                    if j > 0 {
                        assert(trip_le(v@[j - 1], v@[j as int]));
                        assert(trip_le(v@[j - 1], v@[b]));
                    }
                } else if b == j && a != j {
                    assert(trip_le(v@[a], v@[j - 1]));
                    assert(trip_le(v@[j - 1], v@[j as int]));
                }
            }
        }
    }
    proof {
        if n == 0 {
        }
        assert(sorted_by(v@, leq));
    }
}

/// Exchanging two entries of a triplet sequence leaves its multiset alone.
proof fn lemma_swap_triples(s: Seq<(u32, usize, usize)>, i: int, j: int)
    requires
        0 <= i < s.len(),
        0 <= j < s.len(),
    ensures
        s.update(i, s[j]).update(j, s[i]).to_multiset() == s.to_multiset(),
{
    let t = s.update(i, s[j]);
    let u = t.update(j, s[i]);
    assert(t.to_multiset() == s.to_multiset().insert(s[j]).remove(s[i]));
    assert(u.to_multiset() == t.to_multiset().insert(s[i]).remove(t[j]));
    if i == j {
        assert(u.to_multiset() =~= s.to_multiset());
    } else {
        assert(t[j] == s[j]);
        assert(u.to_multiset() =~= s.to_multiset());
    }
}

/// Kruskal's algorithm over the adjacency-list representation.  Returns
/// the union-find state and total cost of a minimum spanning tree, or
/// `None` when fewer than `N - 1` edges could be accepted (the graph does
/// not connect) — in particular for the empty graph.
#[verifier::loop_isolation(false)]
pub fn kruskal(graph: Graph<AdjList>) -> (r: Option<
    (UnionFind<WeightedQuickUnion, usize, Vec<usize>>, u32),
>)
    requires
        graph.wf(),
    ensures
        r is Some <==> (graph.adj().len() > 0 && kruskal_spec(graph.adj()).picked == graph.adj().len() - 1),
        r matches Some(pair) ==> pair.0.wf() && pair.0.ids() == kruskal_spec(graph.adj()).ids
            && pair.0.rank@ == kruskal_spec(graph.adj()).rank && pair.1 == kruskal_spec(
            graph.adj(),
        ).cost,
{
    let ghost adj = graph.adj();
    let ghost leq = |a: (u32, usize, usize), b: (u32, usize, usize)| trip_le(a, b);
    let n = graph.len();
    if n == 0 {
        return None;
    }
    let mut uf = UnionFind::<WeightedQuickUnion, usize, Vec<usize>>::new(n);

    let mut edges: Vec<(u32, usize, usize)> = Vec::new();
    for from in 0..n
        invariant
            edges@ == graph_triples(adj, from as int),
    {
        let row = graph.neighbours(from);
        let m = row.len();
        for j in 0..m
            invariant
                m == row@.len(),
                row@ == adj[from as int],
                edges@ == graph_triples(adj, from as int) + row_triples(
                    adj[from as int],
                    from,
                ).take(j as int),
        {
            let e = row[j];
            edges.push((e.0, from, e.1));
            proof {
                let rt = row_triples(adj[from as int], from);
                assert(rt[j as int] == (row@[j as int].0, from, row@[j as int].1));
                assert(rt.take(j + 1 as int) =~= rt.take(j as int).push(rt[j as int]));
                assert(edges@ =~= graph_triples(adj, from as int) + rt.take(j + 1 as int));
            }
        }
        proof {
            let rt = row_triples(adj[from as int], from);
            assert(rt.take(m as int) =~= rt);
            assert(edges@ =~= graph_triples(adj, from as int + 1));
        }
    }
    proof {
        lemma_graph_triples_bounded(adj, n as int);
    }
    let ghost unsorted = edges@;
    sort_triples(&mut edges);
    proof {
        lemma_trip_le_total();
        unsorted.lemma_sort_by_ensures(leq);
        lemma_sorted_unique(edges@, unsorted.sort_by(leq), leq);
        assert(edges@ == sorted_triples(adj));
        assert forall|k: int| 0 <= k < edges@.len() implies (#[trigger] edges@[k]).1 < n
            && edges@[k].2 < n by {
            assert(edges@.to_multiset().contains(edges@[k]));
            assert(unsorted.to_multiset().contains(edges@[k]));
            assert(unsorted.contains(edges@[k]));
        }
    }

    let mut no_edges: usize = 0;
    let mut cost: u32 = 0;
    let ghost init = kruskal_init(n as nat);
    proof {
        assert(uf.ids() =~= init.ids);
        assert(uf.rank@ =~= init.rank);
    }
    let ghost target = kruskal_loop(edges@, n as int, 0, init);
    let edge_count = edges.len();
    for k in 0..edge_count
        invariant
            uf.wf(),
            uf.ids().len() == n,
            uf.rank@.len() == n,
            no_edges <= n - 1,
            kruskal_loop(
                edges@,
                n as int,
                k as int,
                KruskalState {
                    ids: uf.ids(),
                    rank: uf.rank@,
                    cost: cost,
                    picked: no_edges as int,
                },
            ) == target,
    {
        let ghost st = KruskalState {
            ids: uf.ids(),
            rank: uf.rank@,
            cost: cost,
            picked: no_edges as int,
        };
        if no_edges != n - 1 {
            let (weight, from, to) = edges[k];
            if !uf.connected(to, from) {
                uf.union(to, from);
                cost = cost.saturating_add(weight);
                no_edges = no_edges + 1;
            }
        }
        proof {
            let st2 = KruskalState {
                ids: uf.ids(),
                rank: uf.rank@,
                cost: cost,
                picked: no_edges as int,
            };
            assert(kruskal_loop(edges@, n as int, k as int, st) == kruskal_loop(
                edges@,
                n as int,
                k + 1,
                st2,
            ));
        }
    }
    proof {
        let st = KruskalState {
            ids: uf.ids(),
            rank: uf.rank@,
            cost: cost,
            picked: no_edges as int,
        };
        assert(kruskal_loop(edges@, n as int, edge_count as int, st) == st);
    }

    if no_edges != n - 1 {
        return None;
    }
    Some((uf, cost))
}

/// Every collected triplet's endpoints lie inside the graph.
proof fn lemma_graph_triples_bounded(adj: Seq<Seq<Edge>>, n: int)
    requires
        crate::graph::adj_wf(adj),
        0 <= n <= adj.len(),
    ensures
        forall|k: int|
            0 <= k < graph_triples(adj, n).len() ==> (#[trigger] graph_triples(adj, n)[k]).1 < n
                && graph_triples(adj, n)[k].2 < adj.len(),
    decreases n,
{
    if n > 0 {
        lemma_graph_triples_bounded(adj, n - 1);
        let prev = graph_triples(adj, n - 1);
        let rt = row_triples(adj[n - 1], (n - 1) as usize);
        assert forall|k: int| 0 <= k < graph_triples(adj, n).len() implies (#[trigger] graph_triples(
            adj,
            n,
        )[k]).1 < n && graph_triples(adj, n)[k].2 < adj.len() by {
            if k < prev.len() {
                assert(graph_triples(adj, n)[k] == prev[k]);
            } else {
                assert(graph_triples(adj, n)[k] == rt[k - prev.len()]);
                assert(adj[n - 1][k - prev.len()].1 < adj.len());
            }
        }
    }
}

} // verus!
