//! Named graph types over the two backings, with lossless conversion
//! between them.
//!
//! Conversion keeps the node count and the edge set: a matrix becomes the
//! list of its nonzero entries in column order, and a list becomes the
//! matrix holding each edge's weight at its `(from, to)` cell.  The
//! round-trip law `lemma_matrix_round_trip` pins this down.

use vstd::prelude::*;
use crate::graph::{
    AdjList, AdjMatrix, Edge, Graph, GraphError, adj_wf, lemma_matrix_adj_wf, matrix_adj,
    matrix_is_square, row_edges_upto,
};

verus! {

/// A graph in the dense matrix representation.
#[derive(Debug, Clone, PartialEq)]
pub struct MatrixGraph(pub Graph<AdjMatrix>);

/// A graph in the sparse adjacency-list representation.
#[derive(Debug, Clone, PartialEq)]
pub struct ListGraph(pub Graph<AdjList>);

impl MatrixGraph {
    pub open spec fn matrix(self) -> Seq<Seq<u32>> {
        self.0.matrix()
    }

    pub open spec fn adj(self) -> Seq<Seq<Edge>> {
        self.0.adj()
    }

    pub open spec fn wf(self) -> bool {
        self.0.wf()
    }

    /// Checked construction: accepts exactly the square matrices.
    pub fn new(data: Vec<Vec<u32>>) -> (r: Result<Self, GraphError>)
        ensures
            r matches Ok(g) ==> g.wf() && g.matrix() == data@.map_values(|row: Vec<u32>| row@),
            r is Ok <==> matrix_is_square(data@.map_values(|row: Vec<u32>| row@)),
            r matches Err(e) ==> e == GraphError::NotSquare,
    {
        match Graph::<AdjMatrix>::new(data) {
            Ok(g) => Ok(MatrixGraph(g)),
            Err(e) => Err(e),
        }
    }

    pub fn len(&self) -> (n: usize)
        ensures
            n == self.matrix().len(),
            n == self.adj().len(),
    {
        self.0.len()
    }
}

impl ListGraph {
    pub open spec fn adj(self) -> Seq<Seq<Edge>> {
        self.0.adj()
    }

    pub open spec fn wf(self) -> bool {
        self.0.wf()
    }

    /// Checked construction: accepts exactly the lists whose edges point at
    /// real vertices with nonzero weights.
    pub fn new(data: Vec<Vec<Edge>>) -> (r: Result<Self, GraphError>)
        ensures
            r matches Ok(g) ==> g.wf() && g.adj() == data@.map_values(|row: Vec<Edge>| row@),
            r is Ok <==> adj_wf(data@.map_values(|row: Vec<Edge>| row@)),
            r matches Err(e) ==> e == GraphError::BadEdge,
    {
        match Graph::<AdjList>::new(data) {
            Ok(g) => Ok(ListGraph(g)),
            Err(e) => Err(e),
        }
    }

    pub fn len(&self) -> (n: usize)
        ensures
            n == self.adj().len(),
    {
        self.0.len()
    }
}

/// The matrix row that holds exactly the given edges: start from all zeroes
/// and write each weight at its destination column, in order.
pub open spec fn row_of_edges(edges: Seq<Edge>, n: nat) -> Seq<u32>
    decreases edges.len(),
{
    if edges.len() == 0 {
        Seq::new(n, |j: int| 0u32)
    } else if (edges.last().1 as int) < n {
        row_of_edges(edges.drop_last(), n).update(edges.last().1 as int, edges.last().0)
    } else {
        row_of_edges(edges.drop_last(), n)
    }
}

/// The matrix that holds exactly the given neighbour structure.
pub open spec fn matrix_of_adj(adj: Seq<Seq<Edge>>) -> Seq<Seq<u32>> {
    Seq::new(adj.len(), |v: int| row_of_edges(adj[v], adj.len()))
}

impl From<Vec<Vec<u32>>> for MatrixGraph {
    /// Wrap a matrix.  Squareness is not checked here: a non-square input
    /// yields an ill-formed graph that no engine accepts; `MatrixGraph::new`
    /// is the validating constructor.
    fn from(matrix: Vec<Vec<u32>>) -> (r: Self)
        ensures
            r.matrix() == matrix@.map_values(|row: Vec<u32>| row@),
            matrix_is_square(matrix@.map_values(|row: Vec<u32>| row@)) ==> r.wf(),
    {
        MatrixGraph(Graph { internal_repr: AdjMatrix(matrix) })
    }
}

impl vstd::std_specs::convert::FromSpecImpl<Vec<Vec<u32>>> for MatrixGraph {
    open spec fn obeys_from_spec() -> bool {
        false
    }

    open spec fn from_spec(v: Vec<Vec<u32>>) -> MatrixGraph {
        arbitrary()
    }
}

impl From<Vec<Vec<Edge>>> for ListGraph {
    /// Wrap an adjacency list.  Edge validity is not checked here: an input
    /// with out-of-range or zero-weight edges yields an ill-formed graph
    /// that no engine accepts; `ListGraph::new` is the validating
    /// constructor.
    fn from(list: Vec<Vec<Edge>>) -> (r: Self)
        ensures
            r.adj() == list@.map_values(|row: Vec<Edge>| row@),
            adj_wf(list@.map_values(|row: Vec<Edge>| row@)) ==> r.wf(),
    {
        ListGraph(Graph { internal_repr: AdjList(list) })
    }
}

impl vstd::std_specs::convert::FromSpecImpl<Vec<Vec<Edge>>> for ListGraph {
    open spec fn obeys_from_spec() -> bool {
        false
    }

    open spec fn from_spec(v: Vec<Vec<Edge>>) -> ListGraph {
        arbitrary()
    }
}

impl From<MatrixGraph> for ListGraph {
    /// Convert a well-formed matrix graph into the list holding the same
    /// neighbour structure.  An ill-formed (non-square) input becomes the
    /// empty graph.
    fn from(graph: MatrixGraph) -> (r: Self)
        ensures
            graph.wf() ==> r.wf() && r.adj() == graph.adj(),
            !graph.wf() ==> r.adj() == Seq::<Seq<Edge>>::empty(),
    {
        if !graph.0.is_square() {
            let empty: Vec<Vec<Edge>> = Vec::new();
            let r = ListGraph(Graph { internal_repr: AdjList(empty) });
            proof {
                assert(r.adj() =~= Seq::<Seq<Edge>>::empty());
            }
            return r;
        }
        let sz = graph.0.len();
        let mut list: Vec<Vec<Edge>> = Vec::new();
        for i in 0..sz
            invariant
                graph.wf(),
                sz == graph.adj().len(),
                list@.len() == i,
                forall|k: int| 0 <= k < i ==> (#[trigger] list@[k])@ == graph.adj()[k],
        {
            let row = graph.0.neighbours(i);
            list.push(row);
        }
        let r = ListGraph(Graph { internal_repr: AdjList(list) });
        proof {
            assert(r.adj() =~= graph.adj());
            lemma_matrix_adj_wf(graph.matrix());
        }
        r
    }
}

impl vstd::std_specs::convert::FromSpecImpl<MatrixGraph> for ListGraph {
    open spec fn obeys_from_spec() -> bool {
        false
    }

    open spec fn from_spec(v: MatrixGraph) -> ListGraph {
        arbitrary()
    }
}

impl From<ListGraph> for MatrixGraph {
    /// Convert a list graph into the matrix holding the same neighbour
    /// structure.  An edge pointing beyond the node count is dropped; a
    /// well-formed input has none.
    fn from(graph: ListGraph) -> (r: Self)
        ensures
            r.matrix() == matrix_of_adj(graph.adj()),
            r.wf(),
    {
        let sz = graph.0.len();
        let mut mat: Vec<Vec<u32>> = Vec::new();
        for i in 0..sz
            invariant
                sz == graph.adj().len(),
                mat@.len() == i,
                forall|k: int|
                    0 <= k < i ==> (#[trigger] mat@[k])@ == row_of_edges(
                        graph.adj()[k],
                        sz as nat,
                    ),
        {
            let mut mrow: Vec<u32> = Vec::new();
            for j in 0..sz
                invariant
                    mrow@.len() == j,
                    forall|k: int| 0 <= k < j ==> mrow@[k] == 0u32,
            {
                mrow.push(0);
            }
            proof {
                assert(mrow@ =~= row_of_edges(Seq::<Edge>::empty(), sz as nat));
            }
            let row = graph.0.neighbours(i);
            let m = row.len();
            for j in 0..m
                invariant
                    sz == graph.adj().len(),
                    i < sz,
                    m == row@.len(),
                    row@ == graph.adj()[i as int],
                    mrow@.len() == sz,
                    mrow@ == row_of_edges(row@.take(j as int), sz as nat),
            {
                let e = row[j];
                proof {
                    assert(row@.take(j + 1 as int).drop_last() =~= row@.take(j as int));
                    assert(row@.take(j + 1 as int).last() == row@[j as int]);
                }
                if e.1 < sz {
                    mrow.set(e.1, e.0);
                }
            }
            proof {
                assert(row@.take(m as int) =~= row@);
            }
            mat.push(mrow);
        }
        let r = MatrixGraph(Graph { internal_repr: AdjMatrix(mat) });
        proof {
            assert(r.matrix() =~= matrix_of_adj(graph.adj()));
            assert forall|v: int| 0 <= v < r.matrix().len() implies (#[trigger] r.matrix()[v]).len()
                == r.matrix().len() by {
                lemma_row_of_edges_len(graph.adj()[v], sz as nat);
            }
        }
        r
    }
}

impl vstd::std_specs::convert::FromSpecImpl<ListGraph> for MatrixGraph {
    open spec fn obeys_from_spec() -> bool {
        false
    }

    open spec fn from_spec(v: ListGraph) -> MatrixGraph {
        arbitrary()
    }
}

/// How many of the first `j` entries of a row are edges (nonzero).
pub open spec fn row_edge_count(row: Seq<u32>, j: int) -> int
    decreases j,
{
    if j <= 0 {
        0
    } else {
        row_edge_count(row, j - 1) + if row[j - 1] != 0 {
            1int
        } else {
            0int
        }
    }
}

/// How many edges the first `i` rows of a matrix hold.
pub open spec fn matrix_edge_count(m: Seq<Seq<u32>>, i: int) -> int
    decreases i,
{
    if i <= 0 {
        0
    } else {
        matrix_edge_count(m, i - 1) + row_edge_count(m[i - 1], m[i - 1].len() as int)
    }
}

proof fn lemma_row_edge_count_mono(row: Seq<u32>, j: int, j2: int)
    requires
        j <= j2,
    ensures
        row_edge_count(row, j) <= row_edge_count(row, j2),
    decreases j2 - j,
{
    if j < j2 {
        lemma_row_edge_count_mono(row, j, j2 - 1);
    }
}

proof fn lemma_matrix_edge_count_mono(m: Seq<Seq<u32>>, i: int, i2: int)
    requires
        i <= i2,
    ensures
        matrix_edge_count(m, i) <= matrix_edge_count(m, i2),
    decreases i2 - i,
{
    if i < i2 {
        lemma_matrix_edge_count_mono(m, i, i2 - 1);
        lemma_row_edge_count_mono(m[i2 - 1], 0, m[i2 - 1].len() as int);
    }
}

/// Walk a well-formed matrix graph, counting its edges and asserting the
/// expected total.  A mismatching expectation is excluded up front, so
/// the count is proven to land on `e` and the walk cannot fail.
#[verifier::loop_isolation(false)]
pub fn assert_graph_edge(x: &MatrixGraph, e: usize)
    requires
        x.wf(),
        matrix_edge_count(x.matrix(), x.matrix().len() as int) == e,
{
    let ghost m = x.matrix();
    let n = x.len();
    let mut cnt: usize = 0;
    for i in 0..n
        invariant
            cnt == matrix_edge_count(m, i as int),
    {
        proof {
            lemma_matrix_edge_count_mono(m, i + 1, n as int);
        }
        for j in 0..n
            invariant
                cnt == matrix_edge_count(m, i as int) + row_edge_count(m[i as int], j as int),
        {
            proof {
                lemma_row_edge_count_mono(m[i as int], j + 1, n as int);
            }
            if x.0.internal_repr.0[i][j] != 0 {
                cnt = cnt + 1;
            }
        }
    }
    assert(cnt == e);
}

/// A rebuilt matrix row always has the requested width.
proof fn lemma_row_of_edges_len(edges: Seq<Edge>, n: nat)
    ensures
        row_of_edges(edges, n).len() == n,
    decreases edges.len(),
{
    if edges.len() > 0 {
        lemma_row_of_edges_len(edges.drop_last(), n);
    }
}

/// Rebuilding a row from the edges of its first `k` columns restores those
/// columns and leaves the rest zero.
proof fn lemma_row_round_trip_upto(row: Seq<u32>, n: nat, k: int)
    requires
        row.len() == n,
        n <= usize::MAX,
        0 <= k <= n,
    ensures
        row_of_edges(row_edges_upto(row, k), n).len() == n,
        forall|j: int|
            0 <= j < n ==> row_of_edges(row_edges_upto(row, k), n)[j] == (if j < k {
                row[j]
            } else {
                0u32
            }),
    decreases k,
{
    lemma_row_of_edges_len(row_edges_upto(row, k), n);
    if k > 0 {
        lemma_row_round_trip_upto(row, n, k - 1);
        let prev = row_edges_upto(row, k - 1);
        if row[k - 1] != 0 {
            let e = Edge(row[k - 1], (k - 1) as usize);
            assert(row_edges_upto(row, k) == prev.push(e));
            assert(prev.push(e).drop_last() =~= prev);
            assert(prev.push(e).last() == e);
            lemma_row_of_edges_len(prev, n);
            assert(row_of_edges(prev.push(e), n) == row_of_edges(prev, n).update(
                k - 1,
                row[k - 1],
            ));
        } else {
            assert(row_edges_upto(row, k) == prev);
        }
    } else {
        assert(row_edges_upto(row, 0) == Seq::<Edge>::empty());
    }
}

/// Converting a square matrix to an adjacency list and back restores the
/// matrix exactly: the conversions are lossless.
pub proof fn lemma_matrix_round_trip(m: Seq<Seq<u32>>)
    requires
        matrix_is_square(m),
        m.len() <= usize::MAX,
    ensures
        matrix_of_adj(matrix_adj(m)) == m,
{
    assert forall|v: int| 0 <= v < m.len() implies matrix_of_adj(matrix_adj(m))[v] == m[v] by {
        lemma_row_round_trip_upto(m[v], m.len(), m[v].len() as int);
        assert(matrix_of_adj(matrix_adj(m))[v] =~= m[v]);
    }
    assert(matrix_of_adj(matrix_adj(m)) =~= m);
}

} // verus!
