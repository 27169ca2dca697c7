//! The graph representation layer: one `Graph` wrapper over two concrete
//! backings, a dense adjacency matrix and a sparse adjacency list, behind a
//! common neighbour-enumeration contract.
//!
//! Weights are unsigned; in the matrix backing a `0` entry is the "no edge"
//! sentinel, so every real edge has weight at least 1.  The adjacency-list
//! backing keeps the same convention as its well-formedness invariant.

use vstd::prelude::*;

verus! {

/// A half-edge: weight first, destination vertex second.
#[derive(Debug, Copy, Clone, PartialEq, Eq, Structural)]
pub struct Edge(pub u32, pub usize);

/// The priority-structure ordering of edges: a cheaper edge ranks higher
/// (the comparison is inverted on weights, so a max-heap pops the
/// cheapest), and on tied weights the larger vertex index ranks higher.
pub open spec fn edge_cmp(a: Edge, b: Edge) -> core::cmp::Ordering {
    if a.0 < b.0 {
        core::cmp::Ordering::Greater
    } else if a.0 > b.0 {
        core::cmp::Ordering::Less
    } else if a.1 < b.1 {
        core::cmp::Ordering::Less
    } else if a.1 > b.1 {
        core::cmp::Ordering::Greater
    } else {
        core::cmp::Ordering::Equal
    }
}

impl PartialOrd for Edge {
    fn partial_cmp(&self, other: &Self) -> (r: Option<core::cmp::Ordering>)
        ensures
            r == Some(edge_cmp(*self, *other)),
    {
        if self.0 < other.0 {
            Some(core::cmp::Ordering::Greater)
        } else if self.0 > other.0 {
            Some(core::cmp::Ordering::Less)
        } else if self.1 < other.1 {
            Some(core::cmp::Ordering::Less)
        } else if self.1 > other.1 {
            Some(core::cmp::Ordering::Greater)
        } else {
            Some(core::cmp::Ordering::Equal)
        }
    }
}

impl vstd::std_specs::cmp::PartialOrdSpecImpl for Edge {
    open spec fn obeys_partial_cmp_spec() -> bool {
        true
    }

    open spec fn partial_cmp_spec(&self, other: &Self) -> Option<core::cmp::Ordering> {
        Some(edge_cmp(*self, *other))
    }
}

/// Dense backing: an `N x N` grid of weights, `0` meaning "no edge".
#[derive(Debug, Clone, PartialEq)]
pub struct AdjMatrix(pub Vec<Vec<u32>>);

/// Sparse backing: one ordered sequence of outgoing edges per vertex.
#[derive(Debug, Clone, PartialEq)]
pub struct AdjList(pub Vec<Vec<Edge>>);

/// A graph over some backing representation.
#[derive(Debug, Clone, PartialEq)]
pub struct Graph<T> {
    pub internal_repr: T,
}

/// A square grid: every row is as long as there are rows.
pub open spec fn matrix_is_square(m: Seq<Seq<u32>>) -> bool {
    forall|i: int| 0 <= i < m.len() ==> (#[trigger] m[i]).len() == m.len()
}

/// The edges hiding in the first `n` entries of one matrix row: each nonzero
/// entry at column `j` is an edge of that weight towards vertex `j`.
pub open spec fn row_edges_upto(row: Seq<u32>, n: int) -> Seq<Edge>
    decreases n,
{
    if n <= 0 {
        Seq::empty()
    } else if row[n - 1] != 0 {
        row_edges_upto(row, n - 1).push(Edge(row[n - 1], (n - 1) as usize))
    } else {
        row_edges_upto(row, n - 1)
    }
}

/// A matrix, read as one neighbour sequence per vertex.
pub open spec fn matrix_adj(m: Seq<Seq<u32>>) -> Seq<Seq<Edge>> {
    Seq::new(m.len(), |v: int| row_edges_upto(m[v], m[v].len() as int))
}

/// Well-formed neighbour structure over `n` vertices: every edge points at a
/// real vertex and carries a nonzero weight.
pub open spec fn adj_wf(adj: Seq<Seq<Edge>>) -> bool {
    forall|v: int, j: int|
        0 <= v < adj.len() && 0 <= j < adj[v].len()
            ==> (#[trigger] adj[v][j]).1 < adj.len() && adj[v][j].0 >= 1
}

/// Every edge produced by a row scan is in range and nonzero.
proof fn lemma_row_edges_wf(row: Seq<u32>, n: int)
    requires
        0 <= n <= row.len(),
    ensures
        forall|j: int|
            0 <= j < row_edges_upto(row, n).len()
                ==> (#[trigger] row_edges_upto(row, n)[j]).1 < n
                    && row_edges_upto(row, n)[j].0 >= 1,
    decreases n,
{
    if n > 0 {
        lemma_row_edges_wf(row, n - 1);
        let prev = row_edges_upto(row, n - 1);
        let cur = row_edges_upto(row, n);
        if row[n - 1] != 0 {
            assert(cur == prev.push(Edge(row[n - 1], (n - 1) as usize)));
            assert forall|j: int| 0 <= j < cur.len() implies (#[trigger] cur[j]).1 < n
                && cur[j].0 >= 1 by {
                if j < prev.len() {
                    assert(cur[j] == prev[j]);
                }
            }
        }
    }
}

/// A square matrix always yields a well-formed neighbour structure.
pub proof fn lemma_matrix_adj_wf(m: Seq<Seq<u32>>)
    requires
        matrix_is_square(m),
    ensures
        adj_wf(matrix_adj(m)),
        matrix_adj(m).len() == m.len(),
{
    assert forall|v: int, j: int|
        0 <= v < matrix_adj(m).len() && 0 <= j < matrix_adj(m)[v].len() implies (
        #[trigger] matrix_adj(m)[v][j]).1 < matrix_adj(m).len() && matrix_adj(m)[v][j].0
        >= 1 by {
        lemma_row_edges_wf(m[v], m[v].len() as int);
    }
}

/// A construction-time failure: the input data cannot back a graph.
#[derive(Debug, Clone, Copy, PartialEq, Eq, Structural)]
pub enum GraphError {
    /// A matrix whose rows are not all as long as the number of rows.
    NotSquare,
    /// An edge pointing at a vertex that does not exist, or carrying the
    /// reserved weight zero.
    BadEdge,
    /// A source vertex at or beyond the number of vertices.
    SourceOutOfRange,
}

impl Graph<AdjMatrix> {
    /// The matrix itself, as mathematical sequences.
    pub open spec fn matrix(self) -> Seq<Seq<u32>> {
        self.internal_repr.0@.map_values(|row: Vec<u32>| row@)
    }

    /// The neighbour structure the matrix denotes.
    pub open spec fn adj(self) -> Seq<Seq<Edge>> {
        matrix_adj(self.matrix())
    }

    pub open spec fn wf(self) -> bool {
        matrix_is_square(self.matrix())
    }

    /// Checked construction: accepts exactly the square matrices.
    pub fn new(data: Vec<Vec<u32>>) -> (r: Result<Self, GraphError>)
        ensures
            r matches Ok(g) ==> g.wf() && g.internal_repr.0 == data,
            r is Ok <==> matrix_is_square(data@.map_values(|row: Vec<u32>| row@)),
            r matches Err(e) ==> e == GraphError::NotSquare,
    {
        let n = data.len();
        for i in 0..n
            invariant
                n == data@.len(),
                forall|k: int| 0 <= k < i ==> (#[trigger] data@[k])@.len() == n,
        {
            if data[i].len() != n {
                proof {
                    let m = data@.map_values(|row: Vec<u32>| row@);
                    assert(m[i as int].len() != m.len());
                }
                return Err(GraphError::NotSquare);
            }
        }
        Ok(Graph { internal_repr: AdjMatrix(data) })
    }

    /// Construction from a square matrix.
    pub fn from(data: Vec<Vec<u32>>) -> (g: Self)
        requires
            matrix_is_square(data@.map_values(|row: Vec<u32>| row@)),
        ensures
            g.wf() && g.internal_repr.0 == data,
    {
        Graph { internal_repr: AdjMatrix(data) }
    }

    /// Whether the stored matrix is square.
    pub fn is_square(&self) -> (b: bool)
        ensures
            b == matrix_is_square(self.matrix()),
    {
        let n = self.internal_repr.0.len();
        for i in 0..n
            invariant
                n == self.matrix().len(),
                forall|k: int| 0 <= k < i ==> (#[trigger] self.matrix()[k]).len() == n,
        {
            if self.internal_repr.0[i].len() != n {
                proof {
                    assert(self.matrix()[i as int].len() != self.matrix().len());
                }
                return false;
            }
        }
        true
    }

    /// All edges leaving `vertex`: the nonzero entries of its row, in column
    /// order.
    pub fn neighbours(&self, vertex: usize) -> (buf: Vec<Edge>)
        requires
            self.wf(),
            vertex < self.adj().len(),
        ensures
            buf@ == self.adj()[vertex as int],
    {
        let row = &self.internal_repr.0[vertex];
        let mut buf: Vec<Edge> = Vec::new();
        let n = row.len();
        for i in 0..n
            invariant
                n == row@.len(),
                buf@ == row_edges_upto(row@, i as int),
        {
            let x = row[i];
            if x != 0 {
                buf.push(Edge(x, i));
            }
        }
        buf
    }

    pub fn len(&self) -> (n: usize)
        ensures
            n == self.matrix().len(),
            n == self.adj().len(),
    {
        self.internal_repr.0.len()
    }
}

impl Graph<AdjList> {
    /// The neighbour structure, as mathematical sequences.
    pub open spec fn adj(self) -> Seq<Seq<Edge>> {
        self.internal_repr.0@.map_values(|row: Vec<Edge>| row@)
    }

    pub open spec fn wf(self) -> bool {
        adj_wf(self.adj())
    }

    /// Checked construction: accepts exactly the lists whose edges point at
    /// real vertices with nonzero weights.
    pub fn new(data: Vec<Vec<Edge>>) -> (r: Result<Self, GraphError>)
        ensures
            r matches Ok(g) ==> g.wf() && g.internal_repr.0 == data,
            r is Ok <==> adj_wf(data@.map_values(|row: Vec<Edge>| row@)),
            r matches Err(e) ==> e == GraphError::BadEdge,
    {
        let n = data.len();
        for v in 0..n
            invariant
                n == data@.len(),
                forall|a: int, b: int|
                    0 <= a < v && 0 <= b < (#[trigger] data@[a])@.len()
                        ==> (#[trigger] data@[a]@[b]).1 < n && data@[a]@[b].0 >= 1,
        {
            let row = &data[v];
            let m = row.len();
            for j in 0..m
                invariant
                    n == data@.len(),
                    m == row@.len(),
                    row@ == data@[v as int]@,
                    v < n,
                    forall|a: int, b: int|
                        0 <= a < v && 0 <= b < (#[trigger] data@[a])@.len()
                            ==> (#[trigger] data@[a]@[b]).1 < n && data@[a]@[b].0 >= 1,
                    forall|b: int|
                        0 <= b < j ==> (#[trigger] row@[b]).1 < n && row@[b].0 >= 1,
            {
                let e = row[j];
                if e.1 >= n || e.0 == 0 {
                    proof {
                        let m = data@.map_values(|row: Vec<Edge>| row@);
                        assert(!(m[v as int][j as int].1 < m.len() && m[v as int][j as int].0
                            >= 1));
                    }
                    return Err(GraphError::BadEdge);
                }
            }
        }
        Ok(Graph { internal_repr: AdjList(data) })
    }

    /// Construction from well-formed adjacency data.
    pub fn from(data: Vec<Vec<Edge>>) -> (g: Self)
        requires
            adj_wf(data@.map_values(|row: Vec<Edge>| row@)),
        ensures
            g.wf() && g.internal_repr.0 == data,
    {
        Graph { internal_repr: AdjList(data) }
    }

    /// The stored edges leaving `vertex`.
    pub fn neighbours(&self, vertex: usize) -> (row: &Vec<Edge>)
        requires
            vertex < self.adj().len(),
        ensures
            row@ == self.adj()[vertex as int],
    {
        &self.internal_repr.0[vertex]
    }

    /// Mutable access to the stored edges leaving `vertex`.  Verus gives a
    /// returned mutable borrow no contract, so nothing is known of the
    /// graph afterwards; callers re-validate with `Graph::new` if they
    /// need a well-formed graph again.
    pub fn neighbours_mut(&mut self, vertex: usize) -> &mut Vec<Edge>
        requires
            vertex < old(self).adj().len(),
    {
        &mut self.internal_repr.0[vertex]
    }

    #[inline]
    pub fn len(&self) -> (n: usize)
        ensures
            n == self.adj().len(),
    {
        self.internal_repr.0.len()
    }
}

} // verus!
