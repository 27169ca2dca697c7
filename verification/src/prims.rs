//! Prim's minimum-spanning-tree construction: grow a tree from one root,
//! always taking the cheapest edge that reaches an unvisited vertex, with
//! the binary-heap frontier and lazy deletion of stale entries.
//!
//! One specification-level fold, `prim_spec`, pins the whole report down.
//! A vertex's recorded predecessor is the first vertex that offered its
//! cheapest connecting edge; accepted weights and tree distances saturate
//! at `u32::MAX`.  The graph is read as directed edges exactly as stored:
//! callers wanting undirected semantics supply each edge in both
//! directions.

use vstd::prelude::*;
use vstd::multiset::Multiset;
use crate::graph::{AdjList, Edge, Graph};
use crate::frontier::{BinaryMinHeap, Frontier, lemma_min_entry, min_entry};
use crate::dijkstra::{dist_sum, lemma_dist_sum_nonneg, lemma_dist_sum_update, saturate_add};

verus! {

broadcast use vstd::seq_lib::group_to_multiset_ensures;

/// The report of one spanning-tree run: predecessor in the tree, distance
/// from the root along tree edges, visited flags, and the tree's total
/// cost.
#[derive(Debug, Clone)]
pub struct MstInfo<T> {
    pub predecessors: Vec<Option<usize>>,
    pub distance: Vec<T>,
    pub visited: Vec<bool>,
    pub min_cost: T,
}

impl<T> MstInfo<T> {
    pub fn new(
        predecessors: Vec<Option<usize>>,
        visited: Vec<bool>,
        distance: Vec<T>,
        min_cost: T,
    ) -> (r: Self)
        ensures
            r.predecessors == predecessors,
            r.visited == visited,
            r.distance == distance,
            r.min_cost == min_cost,
    {
        Self { predecessors, visited, distance, min_cost }
    }
}

/// The working state of a run, at the specification level.
#[verifier::ext_equal]
pub struct PrimState {
    pub dist: Seq<u32>,
    pub pred: Seq<Option<usize>>,
    pub visited: Seq<bool>,
    pub best_w: Seq<u32>,
    pub best_p: Seq<Option<usize>>,
    pub queue: Multiset<Edge>,
    pub cost: u32,
    pub visited_count: int,
}

/// Offer the neighbours `row[i..]` of the just-finalized vertex `v` their
/// connecting edge: every unvisited neighbour strictly improved gets the
/// new cheapest weight, `v` as its offerer, and a fresh frontier entry.
pub open spec fn prim_relax(row: Seq<Edge>, v: int, st: PrimState, i: int) -> PrimState
    decreases row.len() - i,
{
    if i < 0 || i >= row.len() {
        st
    } else {
        let w = row[i].0;
        let u = row[i].1 as int;
        let st1 = if 0 <= u < st.best_w.len() && !st.visited[u] && w < st.best_w[u] {
            PrimState {
                best_w: st.best_w.update(u, w),
                best_p: st.best_p.update(u, Some(v as usize)),
                queue: st.queue.insert(Edge(w, u as usize)),
                ..st
            }
        } else {
            st
        };
        prim_relax(row, v, st1, i + 1)
    }
}

/// One iteration: pop the least frontier entry; a stale (already visited)
/// or out-of-range vertex is discarded, a fresh one is finalized — its
/// offered weight joins the cost, its offerer becomes its predecessor,
/// its tree distance extends its offerer's — and its neighbours are
/// offered edges.
pub open spec fn prim_next(adj: Seq<Seq<Edge>>, st: PrimState) -> PrimState {
    let e = min_entry(st.queue);
    let v = e.1 as int;
    let w = e.0;
    let st0 = PrimState { queue: st.queue.remove(e), ..st };
    if 0 <= v < adj.len() && v < st.visited.len() && !st.visited[v] {
        let ndist = match st.best_p[v] {
            Some(p) => if 0 <= p < st.dist.len() {
                st.dist.update(v, saturate_add(st.dist[p as int], w))
            } else {
                st.dist
            },
            None => st.dist,
        };
        let st1 = PrimState {
            dist: ndist,
            pred: st.pred.update(v, st.best_p[v]),
            visited: st.visited.update(v, true),
            cost: saturate_add(st.cost, w),
            visited_count: st.visited_count + 1,
            ..st0
        };
        prim_relax(adj[v], v, st1, 0)
    } else {
        st0
    }
}

/// Offering edges never raises the best-weight sum, and leaves the state
/// alone exactly when it leaves the sum alone.
proof fn lemma_prim_relax_measure(row: Seq<Edge>, v: int, st: PrimState, i: int)
    ensures
        dist_sum(prim_relax(row, v, st, i).best_w) <= dist_sum(st.best_w),
        dist_sum(prim_relax(row, v, st, i).best_w) == dist_sum(st.best_w) ==> prim_relax(
            row,
            v,
            st,
            i,
        ) == st,
    decreases row.len() - i,
{
    if 0 <= i < row.len() {
        let w = row[i].0;
        let u = row[i].1 as int;
        if 0 <= u < st.best_w.len() && !st.visited[u] && w < st.best_w[u] {
            let st1 = PrimState {
                best_w: st.best_w.update(u, w),
                best_p: st.best_p.update(u, Some(v as usize)),
                queue: st.queue.insert(Edge(w, u as usize)),
                ..st
            };
            lemma_dist_sum_update(st.best_w, u, w);
            lemma_prim_relax_measure(row, v, st1, i + 1);
        } else {
            lemma_prim_relax_measure(row, v, st, i + 1);
        }
    }
}

/// One iteration drives the lexicographic measure (best-weight sum,
/// frontier size) strictly down.
proof fn lemma_prim_next_measure(adj: Seq<Seq<Edge>>, st: PrimState)
    requires
        st.queue.len() > 0,
    ensures
        dist_sum(prim_next(adj, st).best_w) <= dist_sum(st.best_w),
        dist_sum(prim_next(adj, st).best_w) == dist_sum(st.best_w) ==> prim_next(
            adj,
            st,
        ).queue.len() < st.queue.len(),
{
    lemma_min_entry(st.queue);
    let e = min_entry(st.queue);
    let v = e.1 as int;
    assert(st.queue.count(e) > 0);
    assert(st.queue.remove(e).len() == st.queue.len() - 1);
    let st0 = PrimState { queue: st.queue.remove(e), ..st };
    if 0 <= v < adj.len() && v < st.visited.len() && !st.visited[v] {
        let ndist = match st.best_p[v] {
            Some(p) => if 0 <= p < st.dist.len() {
                st.dist.update(v, saturate_add(st.dist[p as int], e.0))
            } else {
                st.dist
            },
            None => st.dist,
        };
        let st1 = PrimState {
            dist: ndist,
            pred: st.pred.update(v, st.best_p[v]),
            visited: st.visited.update(v, true),
            cost: saturate_add(st.cost, e.0),
            visited_count: st.visited_count + 1,
            ..st0
        };
        lemma_prim_relax_measure(adj[v], v, st1, 0);
    }
}

/// Run iterations until the frontier drains, or — a second guard the
/// loop carries — the visit counter passes the vertex count, which a real
/// run never reaches.
pub open spec fn prim_loop(adj: Seq<Seq<Edge>>, st: PrimState) -> PrimState
    decreases dist_sum(st.best_w), st.queue.len(),
        via prim_loop_decreases
{
    if st.queue.len() == 0 || st.visited_count > adj.len() {
        st
    } else {
        prim_loop(adj, prim_next(adj, st))
    }
}

#[via_fn]
proof fn prim_loop_decreases(adj: Seq<Seq<Edge>>, st: PrimState) {
    if st.queue.len() > 0 && st.visited_count <= adj.len() {
        lemma_dist_sum_nonneg(st.best_w);
        lemma_dist_sum_nonneg(prim_next(adj, st).best_w);
        lemma_prim_next_measure(adj, st);
    }
}

/// The state a run starts from: the root at distance zero with a zero-cost
/// offer, everything else unreached.
pub open spec fn prim_init(n: nat, src: int) -> PrimState {
    PrimState {
        dist: Seq::new(n, |i: int| if i == src { 0u32 } else { u32::MAX }),
        pred: Seq::new(n, |i: int| None),
        visited: Seq::new(n, |i: int| false),
        best_w: Seq::new(n, |i: int| if i == src { 0u32 } else { u32::MAX }),
        best_p: Seq::new(n, |i: int| None),
        queue: Multiset::empty().insert(Edge(0, src as usize)),
        cost: 0u32,
        visited_count: 0,
    }
}

/// The whole run: what `prims` must report for neighbour structure `adj`
/// and root `src`.
pub open spec fn prim_spec(adj: Seq<Seq<Edge>>, src: int) -> PrimState {
    prim_loop(adj, prim_init(adj.len(), src))
}

/// Minimum spanning tree from `src` over the adjacency-list
/// representation: `None` exactly when the run finalizes fewer vertices
/// than the graph has — the graph does not connect from the root.
#[verifier::loop_isolation(false)]
pub fn prims(graph: Graph<AdjList>, src: usize) -> (r: Option<MstInfo<u32>>)
    requires
        graph.wf(),
        src < graph.adj().len(),
        graph.adj().len() < usize::MAX,
    ensures
        r is Some <==> prim_spec(graph.adj(), src as int).visited_count == graph.adj().len(),
        r matches Some(m) ==> m.predecessors@ == prim_spec(graph.adj(), src as int).pred
            && m.distance@ == prim_spec(graph.adj(), src as int).dist && m.visited@ == prim_spec(
            graph.adj(),
            src as int,
        ).visited && m.min_cost == prim_spec(graph.adj(), src as int).cost,
{
    let ghost adj = graph.adj();
    let n = graph.len();
    let mut visited: Vec<bool> = Vec::new();
    let mut predecessors: Vec<Option<usize>> = Vec::new();
    let mut distance: Vec<u32> = Vec::new();
    let mut best_w: Vec<u32> = Vec::new();
    let mut best_p: Vec<Option<usize>> = Vec::new();
    for i in 0..n
        invariant
            visited@.len() == i,
            predecessors@.len() == i,
            distance@.len() == i,
            best_w@.len() == i,
            best_p@.len() == i,
            forall|k: int| 0 <= k < i ==> visited@[k] == false,
            forall|k: int| 0 <= k < i ==> predecessors@[k] is None,
            forall|k: int| 0 <= k < i ==> distance@[k] == u32::MAX,
            forall|k: int| 0 <= k < i ==> best_w@[k] == u32::MAX,
            forall|k: int| 0 <= k < i ==> best_p@[k] is None,
    {
        visited.push(false);
        predecessors.push(None);
        distance.push(u32::MAX);
        best_w.push(u32::MAX);
        best_p.push(None);
    }
    distance.set(src, 0);
    best_w.set(src, 0);
    let mut pq = <BinaryMinHeap as Frontier>::singleton(Edge(0, src));
    let mut no_visited: usize = 0;
    let mut min_cost: u32 = 0;
    let ghost init = prim_init(n as nat, src as int);
    proof {
        assert(distance@ =~= init.dist);
        assert(predecessors@ =~= init.pred);
        assert(visited@ =~= init.visited);
        assert(best_w@ =~= init.best_w);
        assert(best_p@ =~= init.best_p);
        assert(pq.items().to_multiset() == init.queue);
    }
    let ghost target = prim_loop(adj, init);
    #[verifier::loop_isolation(true)]
    loop
        invariant_except_break
            pq.wf(),
            adj == graph.adj(),
            graph.wf(),
            adj.len() == n,
            n < usize::MAX,
            distance@.len() == n,
            predecessors@.len() == n,
            visited@.len() == n,
            best_w@.len() == n,
            best_p@.len() == n,
            forall|x: Edge| pq.items().to_multiset().contains(x) ==> x.1 < n,
            forall|k: int|
                0 <= k < n && best_p@[k] is Some ==> (best_p@[k] matches Some(p) && p < n),
            no_visited <= n + 1,
            prim_loop(
                adj,
                PrimState {
                    dist: distance@,
                    pred: predecessors@,
                    visited: visited@,
                    best_w: best_w@,
                    best_p: best_p@,
                    queue: pq.items().to_multiset(),
                    cost: min_cost,
                    visited_count: no_visited as int,
                },
            ) == target,
        ensures
            distance@ == target.dist,
            predecessors@ == target.pred,
            visited@ == target.visited,
            min_cost == target.cost,
            no_visited as int == target.visited_count,
        decreases dist_sum(best_w@), pq.items().to_multiset().len(),
    {
        proof {
            lemma_dist_sum_nonneg(best_w@);
        }
        let ghost st = PrimState {
            dist: distance@,
            pred: predecessors@,
            visited: visited@,
            best_w: best_w@,
            best_p: best_p@,
            queue: pq.items().to_multiset(),
            cost: min_cost,
            visited_count: no_visited as int,
        };
        if pq.is_empty() {
            proof {
                assert(prim_loop(adj, st) == st);
            }
            break;
        }
        if no_visited > n {
            proof {
                assert(prim_loop(adj, st) == st);
            }
            break;
        }
        proof {
            lemma_min_entry(st.queue);
            lemma_prim_next_measure(adj, st);
        }
        let e = pq.pop().unwrap();
        let weight = e.0;
        let vertex = e.1;
        proof {
            assert(e == min_entry(st.queue));
            assert forall|x: Edge| pq.items().to_multiset().contains(x) implies x.1 < n by {
                assert(st.queue.remove(min_entry(st.queue)).count(x) > 0);
                assert(st.queue.count(x) > 0);
                assert(st.queue.contains(x));
            }
        }
        if visited[vertex] {
            proof {
                let done = PrimState {
                    dist: distance@,
                    pred: predecessors@,
                    visited: visited@,
                    best_w: best_w@,
                    best_p: best_p@,
                    queue: pq.items().to_multiset(),
                    cost: min_cost,
                    visited_count: no_visited as int,
                };
                assert(done == prim_next(adj, st));
                assert(prim_loop(adj, st) == prim_loop(adj, done));
            }
            continue;
        }
        visited.set(vertex, true);
        min_cost = min_cost.saturating_add(weight);
        no_visited = no_visited + 1;
        let offerer = best_p[vertex];
        predecessors.set(vertex, offerer);
        match offerer {
            Some(p) => {
                let through = distance[p];
                distance.set(vertex, through.saturating_add(weight));
            },
            None => {},
        }
        let ghost st1 = PrimState {
            dist: distance@,
            pred: predecessors@,
            visited: visited@,
            best_w: best_w@,
            best_p: best_p@,
            queue: pq.items().to_multiset(),
            cost: min_cost,
            visited_count: no_visited as int,
        };
        let row = graph.neighbours(vertex);
        let row_len = row.len();
        for j in 0..row_len
            invariant
                pq.wf(),
                row@ == adj[vertex as int],
                row_len == row@.len(),
                distance@.len() == n,
                predecessors@.len() == n,
                visited@.len() == n,
                best_w@.len() == n,
                best_p@.len() == n,
                forall|x: Edge| pq.items().to_multiset().contains(x) ==> x.1 < n,
                forall|k: int|
                    0 <= k < n && best_p@[k] is Some ==> (best_p@[k] matches Some(p) && p < n),
                prim_relax(
                    adj[vertex as int],
                    vertex as int,
                    PrimState {
                        dist: distance@,
                        pred: predecessors@,
                        visited: visited@,
                        best_w: best_w@,
                        best_p: best_p@,
                        queue: pq.items().to_multiset(),
                        cost: min_cost,
                        visited_count: no_visited as int,
                    },
                    j as int,
                ) == prim_relax(adj[vertex as int], vertex as int, st1, 0),
        {
            let ghost cur = PrimState {
                dist: distance@,
                pred: predecessors@,
                visited: visited@,
                best_w: best_w@,
                best_p: best_p@,
                queue: pq.items().to_multiset(),
                cost: min_cost,
                visited_count: no_visited as int,
            };
            let edge = row[j];
            let w2 = edge.0;
            let neighbour = edge.1;
            proof {
                assert(adj[vertex as int][j as int].1 < n);
            }
            if !visited[neighbour] && w2 < best_w[neighbour] {
                best_w.set(neighbour, w2);
                best_p.set(neighbour, Some(vertex));
                pq.push(Edge(w2, neighbour));
                proof {
                    broadcast use vstd::seq_lib::group_to_multiset_ensures;

                    assert forall|x: Edge| pq.items().to_multiset().contains(x) implies x.1
                        < n by {
                        assert(cur.queue.insert(Edge(w2, neighbour)).count(x) > 0);
                        if x != Edge(w2, neighbour) {
                            assert(cur.queue.count(x) > 0);
                            assert(cur.queue.contains(x));
                        }
                    }
                }
            }
            proof {
                let next = PrimState {
                    dist: distance@,
                    pred: predecessors@,
                    visited: visited@,
                    best_w: best_w@,
                    best_p: best_p@,
                    queue: pq.items().to_multiset(),
                    cost: min_cost,
                    visited_count: no_visited as int,
                };
                assert(prim_relax(adj[vertex as int], vertex as int, cur, j as int) == prim_relax(
                    adj[vertex as int],
                    vertex as int,
                    next,
                    j + 1,
                ));
            }
        }
        proof {
            let done = PrimState {
                dist: distance@,
                pred: predecessors@,
                visited: visited@,
                best_w: best_w@,
                best_p: best_p@,
                queue: pq.items().to_multiset(),
                cost: min_cost,
                visited_count: no_visited as int,
            };
            assert(prim_relax(adj[vertex as int], vertex as int, done, row_len as int) == done);
            assert(done == prim_next(adj, st));
            assert(prim_loop(adj, st) == prim_loop(adj, done));
            lemma_dist_sum_nonneg(done.best_w);
        }
    }
    if no_visited != n {
        return None;
    }
    Some(MstInfo::new(predecessors, visited, distance, min_cost))
}

} // verus!
