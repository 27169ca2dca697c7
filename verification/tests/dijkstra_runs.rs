use sc2001::convert::{ListGraph, MatrixGraph};
use sc2001::dijkstra::{
    FrontierKind, Representation, djikstra_array_pq_list_graph, djikstra_array_pq_matrix,
    djikstra_bheap_list_graph, djikstra_bheap_matrix, shortest_path,
};
use sc2001::graph::GraphError;

fn mat1() -> (Vec<Vec<u32>>, Vec<u32>) {
    (
        vec![
            vec![0, 10, 5, 0, 0],
            vec![0, 0, 2, 1, 0],
            vec![0, 3, 0, 9, 2],
            vec![0, 0, 0, 0, 4],
            vec![0, 0, 0, 6, 0],
        ],
        vec![0, 8, 5, 9, 7],
    )
}

fn mat2() -> (Vec<Vec<u32>>, Vec<u32>) {
    (
        vec![vec![0, 24, 0], vec![1, 0, 0], vec![0, 0, 0]],
        vec![0, 24, u32::MAX],
    )
}

fn mat3() -> (Vec<Vec<u32>>, Vec<u32>) {
    (
        vec![vec![0, 0, 0], vec![0, 0, 0], vec![0, 0, 0]],
        vec![0, u32::MAX, u32::MAX],
    )
}

fn mat4() -> (Vec<Vec<u32>>, Vec<u32>) {
    (vec![], vec![])
}

fn all_graphs() -> Vec<(Vec<Vec<u32>>, Vec<u32>)> {
    vec![mat1(), mat2(), mat3(), mat4()]
}

#[test]
fn clone_graph() {
    let mat = mat1().0;
    let mat_graph = MatrixGraph::from(mat.clone());
    let list_graph = ListGraph::from(mat_graph.clone());
    let mat_g = MatrixGraph::from(list_graph);
    assert_eq!(mat_graph, mat_g);
}

#[test]
fn test_djikstra_bheap_matrix() {
    for (mat, res) in all_graphs() {
        let mat_graph = MatrixGraph::from(mat);
        let dist = djikstra_bheap_matrix(mat_graph, 0);
        assert_eq!(res, dist.distance);
    }
}

#[test]
fn test_djikstra_bheap_list() {
    for (mat, res) in all_graphs() {
        let mat_graph = ListGraph::from(MatrixGraph::from(mat));
        let dist = djikstra_bheap_list_graph(mat_graph, 0);
        assert_eq!(res, dist.distance);
    }
}

#[test]
fn test_djikstra_array_pq_list() {
    for (mat, res) in all_graphs() {
        let mat_graph = ListGraph::from(MatrixGraph::from(mat));
        let dist = djikstra_array_pq_list_graph(mat_graph, 0);
        assert_eq!(res, dist.distance);
    }
}

#[test]
fn test_djikstra_array_pq_matrix() {
    for (mat, res) in all_graphs() {
        let mat_graph = MatrixGraph::from(mat);
        let dist = djikstra_array_pq_matrix(mat_graph, 0);

        assert_eq!(res, dist.distance);
    }
}

#[test]
fn all_four_combinations_agree() {
    let combos = [
        (Representation::Matrix, FrontierKind::BinaryHeap),
        (Representation::Matrix, FrontierKind::ArrayScan),
        (Representation::List, FrontierKind::BinaryHeap),
        (Representation::List, FrontierKind::ArrayScan),
    ];
    for (mat, res) in all_graphs() {
        for (repr, frontier) in combos {
            let g = MatrixGraph::from(mat.clone());
            let info = shortest_path(g, 0, repr, frontier).unwrap();
            assert_eq!(res, info.distance);
        }
    }
}

#[test]
fn source_and_predecessor_invariants() {
    let g = MatrixGraph::from(mat1().0);
    let info = shortest_path(g, 0, Representation::List, FrontierKind::BinaryHeap).unwrap();
    assert_eq!(info.distance[0], 0);
    assert_eq!(info.predecessors[0], None);
    for v in 0..info.distance.len() {
        if info.distance[v] < u32::MAX && v != 0 {
            let mut cur = v;
            let mut walked: u32 = 0;
            while let Some(p) = info.predecessors[cur] {
                walked += info.distance[cur] - info.distance[p];
                cur = p;
            }
            assert_eq!(cur, 0);
            assert_eq!(walked, info.distance[v]);
        }
    }
}

#[test]
fn shortest_path_rejects_bad_source() {
    let g = MatrixGraph::from(mat1().0);
    let r = shortest_path(g, 9, Representation::Matrix, FrontierKind::BinaryHeap);
    assert_eq!(r.err(), Some(GraphError::SourceOutOfRange));
}

#[test]
fn shortest_path_empty_graph() {
    let g = MatrixGraph::from(Vec::new());
    let info = shortest_path(g, 0, Representation::Matrix, FrontierKind::ArrayScan).unwrap();
    assert!(info.distance.is_empty());
    assert!(info.predecessors.is_empty());
    assert!(info.visited.is_empty());
}
