use sc2001::graph::{AdjList, AdjMatrix, Edge, Graph, GraphError};
use sc2001::convert::{ListGraph, MatrixGraph, assert_graph_edge};

#[test]
fn graph_ui_test() {
    let graph_adj_matrix =
        Graph::<AdjMatrix>::from(vec![vec![1, 0, 0], vec![0, 1, 1], vec![0, 1, 1]]);

    let x = graph_adj_matrix.neighbours(1);
    println!("{:?}", x);
}

#[test]
fn ordering() {
    let (e, e1) = (Edge(2u32, 2), Edge(3, 4));
    assert!(e > e1);
}

#[test]
fn matrix_new_rejects_non_square() {
    let r = MatrixGraph::new(vec![vec![0, 1], vec![2]]);
    assert_eq!(r.err(), Some(GraphError::NotSquare));
    let ok = MatrixGraph::new(vec![vec![0, 1], vec![2, 0]]);
    assert!(ok.is_ok());
}

#[test]
fn list_new_rejects_bad_edges() {
    let r = ListGraph::new(vec![vec![Edge(1, 5)]]);
    assert_eq!(r.err(), Some(GraphError::BadEdge));
    let z = ListGraph::new(vec![vec![Edge(0, 0)], vec![]]);
    assert_eq!(z.err(), Some(GraphError::BadEdge));
    let ok = ListGraph::new(vec![vec![Edge(3, 1)], vec![]]);
    assert!(ok.is_ok());
}

#[test]
fn matrix_neighbours_skip_zeroes() {
    let g = Graph::<AdjMatrix>::from(vec![vec![0, 7, 0], vec![1, 0, 2], vec![0, 0, 0]]);
    assert_eq!(g.neighbours(0), vec![Edge(7, 1)]);
    assert_eq!(g.neighbours(1), vec![Edge(1, 0), Edge(2, 2)]);
    assert_eq!(g.neighbours(2), vec![]);
    assert_eq!(g.len(), 3);
}

#[test]
fn count_matrix_edges() {
    let g = MatrixGraph::from(vec![
        vec![0, 10, 5, 0, 0],
        vec![0, 0, 2, 1, 0],
        vec![0, 3, 0, 9, 2],
        vec![0, 0, 0, 0, 4],
        vec![0, 0, 0, 6, 0],
    ]);
    assert_graph_edge(&g, 9);
}

#[test]
fn neighbours_mut_edits_a_row() {
    let mut g = Graph::<AdjList>::from(vec![vec![Edge(3, 1)], vec![]]);
    g.neighbours_mut(0).push(Edge(2, 1));
    assert_eq!(*g.neighbours(0), vec![Edge(3, 1), Edge(2, 1)]);
}
