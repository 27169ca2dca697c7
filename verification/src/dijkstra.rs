//! The single-source shortest-path engine: Dijkstra's algorithm in its
//! lazy-deletion variant, generic over the two graph representations and
//! the two frontier strategies.
//!
//! One specification-level execution, `dij_spec`, pins down the whole
//! report for every combination: the engine is proven to compute exactly
//! that state, whichever representation hands out the neighbours and
//! whichever frontier strategy orders the pops.  Candidate distances
//! saturate at `u32::MAX`, the "unreachable" sentinel, so a relaxation
//! whose sum would overflow never wins.

use vstd::prelude::*;
use vstd::multiset::Multiset;
use crate::graph::{AdjList, AdjMatrix, Edge, Graph, GraphError, adj_wf, lemma_matrix_adj_wf};
use crate::convert::{ListGraph, MatrixGraph};
use crate::frontier::{
    ArrayPriorityQueue, BinaryMinHeap, Frontier, lemma_min_entry, min_entry,
};

verus! {

/// The report of one shortest-path run: distance from the source
/// (`u32::MAX` meaning unreachable), predecessor on a cheapest path, and
/// whether the vertex was ever finalized.
#[derive(Debug, Clone)]
pub struct DjikstraRunInfo {
    pub distance: Vec<u32>,
    pub predecessors: Vec<Option<usize>>,
    pub visited: Vec<bool>,
}

impl DjikstraRunInfo {
    pub fn new(distance: Vec<u32>, predecessors: Vec<Option<usize>>, visited: Vec<bool>) -> (r:
        Self)
        ensures
            r.distance == distance,
            r.predecessors == predecessors,
            r.visited == visited,
    {
        Self { distance, predecessors, visited }
    }
}

/// The working state of a run, at the specification level: the three report
/// columns plus the frontier contents.
#[verifier::ext_equal]
pub struct SearchState {
    pub dist: Seq<u32>,
    pub pred: Seq<Option<usize>>,
    pub visited: Seq<bool>,
    pub queue: Multiset<Edge>,
}

/// Addition capped at the unreachable sentinel.
pub open spec fn saturate_add(a: u32, b: u32) -> u32 {
    if a + b > u32::MAX {
        u32::MAX
    } else {
        (a + b) as u32
    }
}

/// Relax the neighbours `row[i..]` of the just-finalized vertex `v`: every
/// strictly improved neighbour gets the new distance, `v` as predecessor,
/// and a fresh frontier entry.
pub open spec fn relax_from(row: Seq<Edge>, v: int, st: SearchState, i: int) -> SearchState
    decreases row.len() - i,
{
    if i < 0 || i >= row.len() {
        st
    } else {
        let w = row[i].0;
        let u = row[i].1 as int;
        let cand = saturate_add(st.dist[v], w);
        let st1 = if 0 <= u < st.dist.len() && !st.visited[u] && st.dist[u] > cand {
            SearchState {
                dist: st.dist.update(u, cand),
                pred: st.pred.update(u, Some(v as usize)),
                visited: st.visited,
                queue: st.queue.insert(Edge(cand, u as usize)),
            }
        } else {
            st
        };
        relax_from(row, v, st1, i + 1)
    }
}

/// One engine iteration: pop the least frontier entry, mark its vertex
/// visited, relax its neighbours.  An entry pointing beyond the graph is
/// discarded; the engine never produces one.
pub open spec fn dij_next(adj: Seq<Seq<Edge>>, st: SearchState) -> SearchState {
    let e = min_entry(st.queue);
    let v = e.1 as int;
    if 0 <= v < adj.len() && v < st.visited.len() {
        let st1 = SearchState {
            dist: st.dist,
            pred: st.pred,
            visited: st.visited.update(v, true),
            queue: st.queue.remove(e),
        };
        relax_from(adj[v], v, st1, 0)
    } else {
        SearchState { dist: st.dist, pred: st.pred, visited: st.visited, queue: st.queue.remove(e) }
    }
}

/// The sum of all entries of a distance column; the engine's termination
/// measure, since every relaxation that pushes strictly lowers it.
pub open spec fn dist_sum(s: Seq<u32>) -> int
    decreases s.len(),
{
    if s.len() == 0 {
        0
    } else {
        s.last() + dist_sum(s.drop_last())
    }
}

pub proof fn lemma_dist_sum_nonneg(s: Seq<u32>)
    ensures
        dist_sum(s) >= 0,
    decreases s.len(),
{
    if s.len() > 0 {
        lemma_dist_sum_nonneg(s.drop_last());
    }
}

pub proof fn lemma_dist_sum_update(s: Seq<u32>, u: int, x: u32)
    requires
        0 <= u < s.len(),
    ensures
        dist_sum(s.update(u, x)) == dist_sum(s) - s[u] + x,
    decreases s.len(),
{
    if u == s.len() - 1 {
        assert(s.update(u, x).drop_last() =~= s.drop_last());
        assert(s.update(u, x).last() == x);
    } else {
        lemma_dist_sum_update(s.drop_last(), u, x);
        assert(s.update(u, x).drop_last() =~= s.drop_last().update(u, x));
        assert(s.update(u, x).last() == s.last());
    }
}

/// Relaxation never raises the distance sum, and leaves the state alone
/// exactly when it leaves the sum alone.
proof fn lemma_relax_measure(row: Seq<Edge>, v: int, st: SearchState, i: int)
    ensures
        dist_sum(relax_from(row, v, st, i).dist) <= dist_sum(st.dist),
        dist_sum(relax_from(row, v, st, i).dist) == dist_sum(st.dist) ==> relax_from(
            row,
            v,
            st,
            i,
        ) == st,
    decreases row.len() - i,
{
    if 0 <= i < row.len() {
        let w = row[i].0;
        let u = row[i].1 as int;
        let cand = saturate_add(st.dist[v], w);
        if 0 <= u < st.dist.len() && !st.visited[u] && st.dist[u] > cand {
            let st1 = SearchState {
                dist: st.dist.update(u, cand),
                pred: st.pred.update(u, Some(v as usize)),
                visited: st.visited,
                queue: st.queue.insert(Edge(cand, u as usize)),
            };
            lemma_dist_sum_update(st.dist, u, cand);
            lemma_relax_measure(row, v, st1, i + 1);
        } else {
            lemma_relax_measure(row, v, st, i + 1);
        }
    }
}

/// One iteration drives the lexicographic measure (distance sum, frontier
/// size) strictly down.
proof fn lemma_next_measure(adj: Seq<Seq<Edge>>, st: SearchState)
    requires
        st.queue.len() > 0,
    ensures
        dist_sum(dij_next(adj, st).dist) <= dist_sum(st.dist),
        dist_sum(dij_next(adj, st).dist) == dist_sum(st.dist) ==> dij_next(adj, st).queue.len()
            < st.queue.len(),
{
    lemma_min_entry(st.queue);
    let e = min_entry(st.queue);
    let v = e.1 as int;
    assert(st.queue.count(e) > 0);
    assert(st.queue.remove(e).len() == st.queue.len() - 1);
    if 0 <= v < adj.len() && v < st.visited.len() {
        let st1 = SearchState {
            dist: st.dist,
            pred: st.pred,
            visited: st.visited.update(v, true),
            queue: st.queue.remove(e),
        };
        lemma_relax_measure(adj[v], v, st1, 0);
    }
}

/// Run iterations until the frontier drains.
pub open spec fn dij_loop(adj: Seq<Seq<Edge>>, st: SearchState) -> SearchState
    decreases dist_sum(st.dist), st.queue.len(),
        via dij_loop_decreases
{
    if st.queue.len() == 0 {
        st
    } else {
        dij_loop(adj, dij_next(adj, st))
    }
}

#[via_fn]
proof fn dij_loop_decreases(adj: Seq<Seq<Edge>>, st: SearchState) {
    if st.queue.len() > 0 {
        lemma_dist_sum_nonneg(st.dist);
        lemma_dist_sum_nonneg(dij_next(adj, st).dist);
        lemma_next_measure(adj, st);
    }
}

/// The state a run starts from: source at distance zero, everything else
/// unreachable, nothing visited, the frontier holding the source alone.
pub open spec fn dij_init(n: nat, src: int) -> SearchState {
    SearchState {
        dist: Seq::new(n, |i: int| if i == src { 0u32 } else { u32::MAX }),
        pred: Seq::new(n, |i: int| None),
        visited: Seq::new(n, |i: int| false),
        queue: Multiset::empty().insert(Edge(0, src as usize)),
    }
}

/// The whole run: what every representation and frontier combination must
/// report for neighbour structure `adj` and source `src`.  The empty graph
/// short-circuits to the empty report.
pub open spec fn dij_spec(adj: Seq<Seq<Edge>>, src: int) -> SearchState {
    if adj.len() == 0 {
        SearchState {
            dist: Seq::empty(),
            pred: Seq::empty(),
            visited: Seq::empty(),
            queue: Multiset::empty(),
        }
    } else {
        dij_loop(adj, dij_init(adj.len(), src))
    }
}

/// What the engine asks of a graph representation: a well-formed neighbour
/// structure it can enumerate.
pub trait GraphAccess: Sized {
    spec fn adjacency(&self) -> Seq<Seq<Edge>>;

    spec fn valid(&self) -> bool;

    proof fn valid_implies_wf(&self)
        requires
            self.valid(),
        ensures
            adj_wf(self.adjacency()),
    ;

    fn vertex_count(&self) -> (n: usize)
        ensures
            n == self.adjacency().len(),
    ;

    fn neighbours_of(&self, vertex: usize) -> (buf: Vec<Edge>)
        requires
            self.valid(),
            vertex < self.adjacency().len(),
        ensures
            buf@ == self.adjacency()[vertex as int],
    ;
}

impl GraphAccess for Graph<AdjMatrix> {
    open spec fn adjacency(&self) -> Seq<Seq<Edge>> {
        self.adj()
    }

    open spec fn valid(&self) -> bool {
        self.wf()
    }

    proof fn valid_implies_wf(&self) {
        lemma_matrix_adj_wf(self.matrix());
    }

    fn vertex_count(&self) -> (n: usize) {
        self.len()
    }

    fn neighbours_of(&self, vertex: usize) -> (buf: Vec<Edge>) {
        self.neighbours(vertex)
    }
}

impl GraphAccess for Graph<AdjList> {
    open spec fn adjacency(&self) -> Seq<Seq<Edge>> {
        self.adj()
    }

    open spec fn valid(&self) -> bool {
        self.wf()
    }

    proof fn valid_implies_wf(&self) {
    }

    fn vertex_count(&self) -> (n: usize) {
        self.len()
    }

    fn neighbours_of(&self, vertex: usize) -> (buf: Vec<Edge>) {
        let row = self.neighbours(vertex);
        let m = row.len();
        let mut buf: Vec<Edge> = Vec::new();
        for j in 0..m
            invariant
                m == row@.len(),
                row@ == self.adj()[vertex as int],
                buf@ == row@.take(j as int),
        {
            buf.push(row[j]);
            proof {
                assert(row@.take(j + 1 as int) =~= row@.take(j as int).push(row@[j as int]));
            }
        }
        proof {
            assert(row@.take(m as int) =~= row@);
        }
        buf
    }
}

/// Build the initial report columns and a frontier holding the source.
fn djikstra_setup<F: Frontier>(sz_v: usize, src: usize) -> (r: (
    Vec<u32>,
    Vec<Option<usize>>,
    Vec<bool>,
    F,
))
    requires
        src < sz_v,
    ensures
        r.0@ == dij_init(sz_v as nat, src as int).dist,
        r.1@ == dij_init(sz_v as nat, src as int).pred,
        r.2@ == dij_init(sz_v as nat, src as int).visited,
        r.3.inv(),
        r.3.contents() == dij_init(sz_v as nat, src as int).queue,
{
    let mut distance: Vec<u32> = Vec::new();
    let mut predecessors: Vec<Option<usize>> = Vec::new();
    let mut visited: Vec<bool> = Vec::new();
    for i in 0..sz_v
        invariant
            distance@.len() == i,
            predecessors@.len() == i,
            visited@.len() == i,
            forall|k: int| 0 <= k < i ==> distance@[k] == u32::MAX,
            forall|k: int| 0 <= k < i ==> predecessors@[k] is None,
            forall|k: int| 0 <= k < i ==> visited@[k] == false,
    {
        distance.push(u32::MAX);
        predecessors.push(None);
        visited.push(false);
    }
    let pq = F::singleton(Edge(0, src));
    distance.set(src, 0);
    proof {
        assert(distance@ =~= dij_init(sz_v as nat, src as int).dist);
        assert(predecessors@ =~= dij_init(sz_v as nat, src as int).pred);
        assert(visited@ =~= dij_init(sz_v as nat, src as int).visited);
    }
    (distance, predecessors, visited, pq)
}

/// The engine itself, shared by all four public entry points: proven to
/// compute exactly `dij_spec` of its graph's neighbour structure.
fn dijkstra_engine<G: GraphAccess, F: Frontier>(graph: &G, src: usize) -> (r: DjikstraRunInfo)
    requires
        graph.valid(),
        graph.adjacency().len() == 0 || (src as int) < graph.adjacency().len(),
    ensures
        r.distance@ == dij_spec(graph.adjacency(), src as int).dist,
        r.predecessors@ == dij_spec(graph.adjacency(), src as int).pred,
        r.visited@ == dij_spec(graph.adjacency(), src as int).visited,
{
    let n = graph.vertex_count();
    if n == 0 {
        return DjikstraRunInfo::new(Vec::new(), Vec::new(), Vec::new());
    }
    proof {
        graph.valid_implies_wf();
    }
    let ghost adj = graph.adjacency();
    let ghost target = dij_loop(adj, dij_init(n as nat, src as int));
    let (mut distance, mut predecessors, mut visited, mut pq) = djikstra_setup::<F>(n, src);
    loop
        invariant_except_break
            pq.inv(),
            adj == graph.adjacency(),
            adj_wf(adj),
            adj.len() == n,
            graph.valid(),
            distance@.len() == n,
            predecessors@.len() == n,
            visited@.len() == n,
            forall|x: Edge| pq.contents().contains(x) ==> x.1 < n,
            dij_loop(
                adj,
                SearchState {
                    dist: distance@,
                    pred: predecessors@,
                    visited: visited@,
                    queue: pq.contents(),
                },
            ) == target,
        ensures
            distance@ == target.dist,
            predecessors@ == target.pred,
            visited@ == target.visited,
        decreases dist_sum(distance@), pq.contents().len(),
    {
        proof {
            lemma_dist_sum_nonneg(distance@);
        }
        if pq.is_empty() {
            proof {
                let st = SearchState {
                    dist: distance@,
                    pred: predecessors@,
                    visited: visited@,
                    queue: pq.contents(),
                };
                assert(dij_loop(adj, st) == st);
            }
            break;
        }
        let ghost st0 = SearchState {
            dist: distance@,
            pred: predecessors@,
            visited: visited@,
            queue: pq.contents(),
        };
        proof {
            lemma_min_entry(st0.queue);
            lemma_next_measure(adj, st0);
        }
        let e = pq.pop().unwrap();
        let vertex = e.1;
        visited.set(vertex, true);
        let ghost st1 = SearchState {
            dist: distance@,
            pred: predecessors@,
            visited: visited@,
            queue: pq.contents(),
        };
        proof {
            assert(e == min_entry(st0.queue));
            assert forall|x: Edge| pq.contents().contains(x) implies x.1 < n by {
                assert(st0.queue.remove(min_entry(st0.queue)).count(x) > 0);
                assert(st0.queue.count(x) > 0);
                assert(st0.queue.contains(x));
            }
            assert(st1.visited =~= st0.visited.update(vertex as int, true));
            assert(st1 == SearchState {
                dist: st0.dist,
                pred: st0.pred,
                visited: st0.visited.update(vertex as int, true),
                queue: st0.queue.remove(e),
            });
        }
        let row = graph.neighbours_of(vertex);
        let row_len = row.len();
        for j in 0..row_len
            invariant
                pq.inv(),
                adj == graph.adjacency(),
                adj_wf(adj),
                adj.len() == n,
                graph.valid(),
                vertex < n,
                row@ == adj[vertex as int],
                row_len == row@.len(),
                distance@.len() == n,
                predecessors@.len() == n,
                visited@.len() == n,
                forall|x: Edge| pq.contents().contains(x) ==> x.1 < n,
                relax_from(
                    adj[vertex as int],
                    vertex as int,
                    SearchState {
                        dist: distance@,
                        pred: predecessors@,
                        visited: visited@,
                        queue: pq.contents(),
                    },
                    j as int,
                ) == relax_from(adj[vertex as int], vertex as int, st1, 0),
        {
            let ghost cur = SearchState {
                dist: distance@,
                pred: predecessors@,
                visited: visited@,
                queue: pq.contents(),
            };
            let edge = row[j];
            let weight = edge.0;
            let neighbour = edge.1;
            proof {
                assert(adj[vertex as int][j as int].1 < n);
            }
            let cand = distance[vertex].saturating_add(weight);
            if !visited[neighbour] && distance[neighbour] > cand {
                distance.set(neighbour, cand);
                predecessors.set(neighbour, Some(vertex));
                pq.push(Edge(cand, neighbour));
                proof {
                    assert forall|x: Edge| pq.contents().contains(x) implies x.1 < n by {
                        assert(cur.queue.insert(Edge(cand, neighbour)).count(x) > 0);
                        if x != Edge(cand, neighbour) {
                            assert(cur.queue.count(x) > 0);
                            assert(cur.queue.contains(x));
                        }
                    }
                }
            }
            proof {
                let next = SearchState {
                    dist: distance@,
                    pred: predecessors@,
                    visited: visited@,
                    queue: pq.contents(),
                };
                assert(relax_from(adj[vertex as int], vertex as int, cur, j as int) == relax_from(
                    adj[vertex as int],
                    vertex as int,
                    next,
                    j + 1,
                ));
            }
        }
        proof {
            let done = SearchState {
                dist: distance@,
                pred: predecessors@,
                visited: visited@,
                queue: pq.contents(),
            };
            assert(relax_from(adj[vertex as int], vertex as int, done, row_len as int) == done);
            assert(done == dij_next(adj, st0));
            assert(dij_loop(adj, st0) == dij_loop(adj, done));
            lemma_dist_sum_nonneg(done.dist);
            assert(dist_sum(done.dist) <= dist_sum(st0.dist));
            assert(dist_sum(done.dist) == dist_sum(st0.dist) ==> done.queue.len()
                < st0.queue.len());
        }
    }
    DjikstraRunInfo::new(distance, predecessors, visited)
}

/// Dijkstra over an adjacency list with the binary-heap frontier.
pub fn djikstra_bheap_list_graph(graph: ListGraph, src: usize) -> (r: DjikstraRunInfo)
    requires
        graph.wf(),
        graph.adj().len() == 0 || (src as int) < graph.adj().len(),
    ensures
        r.distance@ == dij_spec(graph.adj(), src as int).dist,
        r.predecessors@ == dij_spec(graph.adj(), src as int).pred,
        r.visited@ == dij_spec(graph.adj(), src as int).visited,
{
    dijkstra_engine::<Graph<AdjList>, BinaryMinHeap>(&graph.0, src)
}

/// Dijkstra over an adjacency matrix with the binary-heap frontier.
pub fn djikstra_bheap_matrix(graph: MatrixGraph, src: usize) -> (r: DjikstraRunInfo)
    requires
        graph.wf(),
        graph.adj().len() == 0 || (src as int) < graph.adj().len(),
    ensures
        r.distance@ == dij_spec(graph.adj(), src as int).dist,
        r.predecessors@ == dij_spec(graph.adj(), src as int).pred,
        r.visited@ == dij_spec(graph.adj(), src as int).visited,
{
    dijkstra_engine::<Graph<AdjMatrix>, BinaryMinHeap>(&graph.0, src)
}

/// Dijkstra over an adjacency list with the linear-scan frontier.
pub fn djikstra_array_pq_list_graph(graph: ListGraph, src: usize) -> (r: DjikstraRunInfo)
    requires
        graph.wf(),
        graph.adj().len() == 0 || (src as int) < graph.adj().len(),
    ensures
        r.distance@ == dij_spec(graph.adj(), src as int).dist,
        r.predecessors@ == dij_spec(graph.adj(), src as int).pred,
        r.visited@ == dij_spec(graph.adj(), src as int).visited,
{
    dijkstra_engine::<Graph<AdjList>, ArrayPriorityQueue<Edge>>(&graph.0, src)
}

/// Dijkstra over an adjacency matrix with the linear-scan frontier.
pub fn djikstra_array_pq_matrix(graph: MatrixGraph, src: usize) -> (r: DjikstraRunInfo)
    requires
        graph.wf(),
        graph.adj().len() == 0 || (src as int) < graph.adj().len(),
    ensures
        r.distance@ == dij_spec(graph.adj(), src as int).dist,
        r.predecessors@ == dij_spec(graph.adj(), src as int).pred,
        r.visited@ == dij_spec(graph.adj(), src as int).visited,
{
    dijkstra_engine::<Graph<AdjMatrix>, ArrayPriorityQueue<Edge>>(&graph.0, src)
}

/// The per-vertex bookkeeping facts every run maintains: the source sits
/// at distance zero with no predecessor; any vertex with a predecessor
/// `p` was reached over a real edge out of the already-finalized `p`, its
/// distance is exactly `p`'s distance plus that edge's weight, and
/// strictly above `p`'s; and a vertex without a predecessor is either the
/// source or unreached.
pub open spec fn pred_wf(adj: Seq<Seq<Edge>>, st: SearchState, src: int) -> bool {
    &&& st.dist.len() == adj.len()
    &&& st.pred.len() == adj.len()
    &&& st.visited.len() == adj.len()
    &&& 0 <= src < adj.len()
    &&& st.dist[src] == 0
    &&& st.pred[src] is None
    &&& forall|v: int|
        0 <= v < adj.len() ==> match #[trigger] st.pred[v] {
            Some(p) => {
                &&& p < adj.len()
                &&& st.visited[p as int]
                &&& st.dist[v] < u32::MAX
                &&& st.dist[p as int] < st.dist[v]
                &&& exists|j: int|
                    0 <= j < adj[p as int].len() && (#[trigger] adj[p as int][j]).1 == v
                        && st.dist[v] == st.dist[p as int] + adj[p as int][j].0
            },
            None => st.dist[v] < u32::MAX ==> v == src,
        }
}

/// Relaxation preserves the bookkeeping facts once the relaxing vertex is
/// finalized.
proof fn lemma_relax_pinv(adj: Seq<Seq<Edge>>, v: int, st: SearchState, i: int, src: int)
    requires
        adj_wf(adj),
        adj.len() <= usize::MAX,
        pred_wf(adj, st, src),
        0 <= v < adj.len(),
        st.visited[v],
    ensures
        pred_wf(adj, relax_from(adj[v], v, st, i), src),
        relax_from(adj[v], v, st, i).visited == st.visited,
    decreases adj[v].len() - i,
{
    let row = adj[v];
    if 0 <= i < row.len() {
        let w = row[i].0;
        let u = row[i].1 as int;
        let cand = saturate_add(st.dist[v], w);
        if 0 <= u < st.dist.len() && !st.visited[u] && st.dist[u] > cand {
            let st1 = SearchState {
                dist: st.dist.update(u, cand),
                pred: st.pred.update(u, Some(v as usize)),
                visited: st.visited,
                queue: st.queue.insert(Edge(cand, u as usize)),
            };
            assert(u != src);
            assert(cand == st.dist[v] + w);
            assert(w >= 1);
            assert(pred_wf(adj, st1, src)) by {
                assert forall|x: int| 0 <= x < adj.len() implies match #[trigger] st1.pred[x] {
                    Some(p) => {
                        &&& p < adj.len()
                        &&& st1.visited[p as int]
                        &&& st1.dist[x] < u32::MAX
                        &&& st1.dist[p as int] < st1.dist[x]
                        &&& exists|j: int|
                            0 <= j < adj[p as int].len() && (#[trigger] adj[p as int][j]).1 == x
                                && st1.dist[x] == st1.dist[p as int] + adj[p as int][j].0
                    },
                    None => st1.dist[x] < u32::MAX ==> x == src,
                } by {
                    if x == u {
                        assert(v as usize as int == v);
                        assert(st1.pred[x] == Some(v as usize));
                        assert(adj[v][i].1 == u as usize);
                        assert(st1.dist[u] == st1.dist[v] + adj[v][i].0);
                    } else {
                        match st.pred[x] {
                            Some(p) => {
                                assert(st.visited[p as int]);
                                assert(p as int != u);
                                let j = choose|j: int|
                                    0 <= j < adj[p as int].len() && (#[trigger] adj[p as int][j]).1
                                        == x && st.dist[x] == st.dist[p as int] + adj[p as int][j].0;
                                assert(0 <= j < adj[p as int].len() && adj[p as int][j].1 == x
                                    && st1.dist[x] == st1.dist[p as int] + adj[p as int][j].0);
                            },
                            None => {},
                        }
                    }
                }
            }
            lemma_relax_pinv(adj, v, st1, i + 1, src);
            assert(relax_from(row, v, st, i) == relax_from(row, v, st1, i + 1));
        } else {
            lemma_relax_pinv(adj, v, st, i + 1, src);
            assert(relax_from(row, v, st, i) == relax_from(row, v, st, i + 1));
        }
    }
}

/// One iteration preserves the bookkeeping facts.
proof fn lemma_next_pinv(adj: Seq<Seq<Edge>>, st: SearchState, src: int)
    requires
        adj_wf(adj),
        adj.len() <= usize::MAX,
        pred_wf(adj, st, src),
        st.queue.len() > 0,
    ensures
        pred_wf(adj, dij_next(adj, st), src),
{
    lemma_min_entry(st.queue);
    let e = min_entry(st.queue);
    let v = e.1 as int;
    if 0 <= v < adj.len() && v < st.visited.len() {
        let st1 = SearchState {
            dist: st.dist,
            pred: st.pred,
            visited: st.visited.update(v, true),
            queue: st.queue.remove(e),
        };
        assert(pred_wf(adj, st1, src)) by {
            assert forall|x: int| 0 <= x < adj.len() implies match #[trigger] st1.pred[x] {
                Some(p) => {
                    &&& p < adj.len()
                    &&& st1.visited[p as int]
                    &&& st1.dist[x] < u32::MAX
                    &&& st1.dist[p as int] < st1.dist[x]
                    &&& exists|j: int|
                        0 <= j < adj[p as int].len() && (#[trigger] adj[p as int][j]).1 == x
                            && st1.dist[x] == st1.dist[p as int] + adj[p as int][j].0
                },
                None => st1.dist[x] < u32::MAX ==> x == src,
            } by {
                match st.pred[x] {
                    Some(p) => {
                        assert(st.visited[p as int]);
                        let j = choose|j: int|
                            0 <= j < adj[p as int].len() && (#[trigger] adj[p as int][j]).1 == x
                                && st.dist[x] == st.dist[p as int] + adj[p as int][j].0;
                        assert(0 <= j < adj[p as int].len() && adj[p as int][j].1 == x && st1.dist[x]
                            == st1.dist[p as int] + adj[p as int][j].0);
                    },
                    None => {},
                }
            }
        }
        lemma_relax_pinv(adj, v, st1, 0, src);
    }
}

/// The whole run preserves the bookkeeping facts.
proof fn lemma_loop_pinv(adj: Seq<Seq<Edge>>, st: SearchState, src: int)
    requires
        adj_wf(adj),
        adj.len() <= usize::MAX,
        pred_wf(adj, st, src),
    ensures
        pred_wf(adj, dij_loop(adj, st), src),
    decreases dist_sum(st.dist), st.queue.len(),
{
    if st.queue.len() > 0 {
        lemma_next_pinv(adj, st, src);
        lemma_next_measure(adj, st);
        lemma_dist_sum_nonneg(st.dist);
        lemma_dist_sum_nonneg(dij_next(adj, st).dist);
        lemma_loop_pinv(adj, dij_next(adj, st), src);
    }
}

/// Law: after any run, the source reports distance zero and no
/// predecessor.
pub proof fn lemma_shortest_path_source(adj: Seq<Seq<Edge>>, src: int)
    requires
        adj_wf(adj),
        adj.len() <= usize::MAX,
        0 <= src < adj.len(),
    ensures
        dij_spec(adj, src).dist[src] == 0,
        dij_spec(adj, src).pred[src] is None,
{
    let init = dij_init(adj.len(), src);
    assert(pred_wf(adj, init, src));
    lemma_loop_pinv(adj, init, src);
}

/// Following predecessors from `v` walks back to the source within `fuel`
/// steps, each step crossing a real edge whose weight is exactly the
/// distance difference — so the walked path's summed weights telescope to
/// `dist[v]`.
pub open spec fn chain_to_src(
    adj: Seq<Seq<Edge>>,
    dist: Seq<u32>,
    pred: Seq<Option<usize>>,
    src: int,
    v: int,
    fuel: nat,
) -> bool
    decreases fuel,
{
    if v == src {
        pred[v] is None && dist[v] == 0
    } else if fuel == 0 {
        false
    } else {
        match pred[v] {
            Some(p) => (p as int) < adj.len() && (exists|j: int|
                0 <= j < adj[p as int].len() && (#[trigger] adj[p as int][j]).1 == v && dist[v]
                    == dist[p as int] + adj[p as int][j].0) && chain_to_src(
                adj,
                dist,
                pred,
                src,
                p as int,
                (fuel - 1) as nat,
            ),
            None => false,
        }
    }
}

/// More fuel never hurts a chain.
proof fn lemma_chain_fuel(
    adj: Seq<Seq<Edge>>,
    dist: Seq<u32>,
    pred: Seq<Option<usize>>,
    src: int,
    v: int,
    f1: nat,
    f2: nat,
)
    requires
        chain_to_src(adj, dist, pred, src, v, f1),
        f1 <= f2,
    ensures
        chain_to_src(adj, dist, pred, src, v, f2),
    decreases f1,
{
    if v != src {
        match pred[v] {
            Some(p) => {
                lemma_chain_fuel(adj, dist, pred, src, p as int, (f1 - 1) as nat, (f2 - 1) as nat);
            },
            None => {},
        }
    }
}

/// Under the bookkeeping facts, every reached vertex has a full chain.
proof fn lemma_pinv_chain(adj: Seq<Seq<Edge>>, st: SearchState, src: int, v: int)
    requires
        adj_wf(adj),
        pred_wf(adj, st, src),
        0 <= v < adj.len(),
        st.dist[v] < u32::MAX,
    ensures
        chain_to_src(adj, st.dist, st.pred, src, v, (st.dist[v] + 1) as nat),
    decreases st.dist[v],
{
    if v != src {
        match st.pred[v] {
            Some(p) => {
                lemma_pinv_chain(adj, st, src, p as int);
                lemma_chain_fuel(
                    adj,
                    st.dist,
                    st.pred,
                    src,
                    p as int,
                    (st.dist[p as int] + 1) as nat,
                    st.dist[v] as nat,
                );
            },
            None => {
                assert(false);
            },
        }
    }
}

/// Law: for every vertex a run reaches, following predecessor pointers
/// walks back to the source along real edges whose weights sum, step by
/// step, to exactly the reported distance.
pub proof fn lemma_predecessor_paths(adj: Seq<Seq<Edge>>, src: int)
    requires
        adj_wf(adj),
        adj.len() <= usize::MAX,
        0 <= src < adj.len(),
    ensures
        forall|v: int|
            0 <= v < adj.len() && dij_spec(adj, src).dist[v] < u32::MAX ==> chain_to_src(
                adj,
                dij_spec(adj, src).dist,
                dij_spec(adj, src).pred,
                src,
                v,
                (dij_spec(adj, src).dist[v] + 1) as nat,
            ),
{
    let init = dij_init(adj.len(), src);
    assert(pred_wf(adj, init, src));
    lemma_loop_pinv(adj, init, src);
    let fin = dij_spec(adj, src);
    assert forall|v: int| 0 <= v < adj.len() && fin.dist[v] < u32::MAX implies chain_to_src(
        adj,
        fin.dist,
        fin.pred,
        src,
        v,
        (fin.dist[v] + 1) as nat,
    ) by {
        lemma_pinv_chain(adj, fin, src, v);
    }
}

/// Law: the four (representation, frontier) combinations agree.  Each of
/// the four `djikstra_*` functions ensures its report equals the one
/// specification run `dij_spec` over its graph's neighbour structure,
/// whichever frontier strategy it uses; converting a well-formed matrix
/// graph to a list keeps that structure, so all four reports over one
/// graph are the same.
pub proof fn lemma_four_combinations_agree(g: MatrixGraph, l: ListGraph, src: int)
    requires
        g.wf(),
        l.adj() == g.adj(),
    ensures
        dij_spec(l.adj(), src) == dij_spec(g.adj(), src),
{
}

/// Which representation a `shortest_path` call should run on.
#[derive(Debug, Clone, Copy, PartialEq, Eq, Structural)]
pub enum Representation {
    Matrix,
    List,
}

/// Which frontier strategy a `shortest_path` call should select with.
#[derive(Debug, Clone, Copy, PartialEq, Eq, Structural)]
pub enum FrontierKind {
    BinaryHeap,
    ArrayScan,
}

/// The one checked entry point: run Dijkstra on a well-formed matrix graph
/// with any representation and frontier choice.  Fails exactly when the
/// source is out of range; the report never depends on the choices.
pub fn shortest_path(
    graph: MatrixGraph,
    src: usize,
    repr: Representation,
    frontier: FrontierKind,
) -> (r: Result<DjikstraRunInfo, GraphError>)
    requires
        graph.wf(),
    ensures
        r is Ok <==> (graph.adj().len() == 0 || (src as int) < graph.adj().len()),
        r matches Ok(info) ==> info.distance@ == dij_spec(graph.adj(), src as int).dist
            && info.predecessors@ == dij_spec(graph.adj(), src as int).pred && info.visited@
            == dij_spec(graph.adj(), src as int).visited,
        r matches Err(e) ==> e == GraphError::SourceOutOfRange,
{
    let n = graph.len();
    if n != 0 && src >= n {
        return Err(GraphError::SourceOutOfRange);
    }
    let info = match (repr, frontier) {
        (Representation::Matrix, FrontierKind::BinaryHeap) => djikstra_bheap_matrix(graph, src),
        (Representation::Matrix, FrontierKind::ArrayScan) => djikstra_array_pq_matrix(graph, src),
        (Representation::List, FrontierKind::BinaryHeap) => {
            let ghost a = graph.adj();
            let list = ListGraph::from(graph);
            proof {
                assert(list.adj() == a);
            }
            djikstra_bheap_list_graph(list, src)
        },
        (Representation::List, FrontierKind::ArrayScan) => {
            let ghost a = graph.adj();
            let list = ListGraph::from(graph);
            proof {
                assert(list.adj() == a);
            }
            djikstra_array_pq_list_graph(list, src)
        },
    };
    Ok(info)
}

} // verus!
