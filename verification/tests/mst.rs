use sc2001::graph::{AdjList, Edge, Graph};
use sc2001::kruskal::kruskal;
use sc2001::prims::{MstInfo, prims};

#[test]
fn test_mst_struct() {
    let mst = MstInfo::new(vec![], vec![], vec![], 21);
    println!("{:?}", mst);
}

#[test]
fn prims_test() {
    let adj_list = vec![
        vec![Edge(10, 1), Edge(1, 2), Edge(4, 3)],
        vec![Edge(10, 0), Edge(3, 2), Edge(1, 3)],
        vec![Edge(1, 0), Edge(2, 3), Edge(8, 5), Edge(3, 1)],
        vec![Edge(4, 0), Edge(2, 2), Edge(2, 5), Edge(7, 6)],
        vec![Edge(1, 1), Edge(1, 5), Edge(8, 7)],
        vec![Edge(8, 2), Edge(2, 3), Edge(6, 6), Edge(9, 7), Edge(1, 4)],
        vec![Edge(7, 3), Edge(6, 5), Edge(12, 7)],
        vec![Edge(12, 6), Edge(9, 5), Edge(8, 4)],
    ];

    let graph = Graph::<AdjList>::from(adj_list);
    println!("{:?}", &graph);
    let mst_info = prims(graph, 0).unwrap();
    println!("{:?}", mst_info);
    assert_eq!(mst_info.min_cost, 21);
}

#[test]
fn prims_test_graph2() {
    let adj_list = vec![
        vec![Edge(1, 1), Edge(7, 2)],
        vec![Edge(1, 0), Edge(5, 2), Edge(4, 3), Edge(3, 4)],
        vec![Edge(7, 0), Edge(5, 1), Edge(6, 4)],
        vec![Edge(4, 1), Edge(2, 4)],
        vec![Edge(2, 3), Edge(6, 2)],
    ];

    let graph = Graph::<AdjList>::from(adj_list);
    println!("{:?}", &graph);
    let mst_info = prims(graph, 0).unwrap();
    println!("{:?}", mst_info);
}

#[test]
fn prims_test_no_mst() {
    let adj_list: Vec<Vec<Edge>> = vec![
        vec![],
        vec![],
        vec![],
        vec![],
        vec![],
        vec![],
        vec![],
        vec![],
    ];

    let graph = Graph::<AdjList>::from(adj_list);
    println!("{:?}", &graph);
    let mst_info = prims(graph, 0);
    match mst_info {
        Some(_) => panic!("Should be None!"),
        None => {}
    };
}

#[test]
fn prims_disconnected() {
    let adj_list: Vec<Vec<Edge>> = vec![vec![Edge(2, 1)], vec![Edge(2, 0)], vec![]];

    let graph = Graph::<AdjList>::from(adj_list);
    println!("{:?}", &graph);
    let mst_info = prims(graph, 0);
    match mst_info {
        Some(_) => panic!("Should be None!"),
        None => {}
    };
}

#[test]
fn test_kruskal() {
    let adj_list = vec![
        vec![Edge(10, 1), Edge(1, 2), Edge(4, 3)],
        vec![Edge(10, 0), Edge(3, 2), Edge(1, 4)],
        vec![Edge(1, 0), Edge(2, 3), Edge(8, 5), Edge(3, 1)],
        vec![Edge(4, 0), Edge(2, 2), Edge(2, 5), Edge(7, 6)],
        vec![Edge(1, 1), Edge(1, 5), Edge(8, 7)],
        vec![Edge(8, 2), Edge(2, 3), Edge(6, 6), Edge(9, 7), Edge(1, 4)],
        vec![Edge(7, 3), Edge(6, 5), Edge(12, 7)],
        vec![Edge(12, 6), Edge(9, 5), Edge(8, 4)],
    ];

    let graph = Graph::<AdjList>::from(adj_list);
    println!("{:?}", &graph);
    let (_uf, cost) = kruskal(graph).unwrap();
    assert_eq!(21, cost);
}

#[test]
fn test_kruskal_graph2() {
    let adj_list = vec![
        vec![Edge(1, 1), Edge(7, 2)],
        vec![Edge(1, 0), Edge(5, 2), Edge(4, 3), Edge(3, 4)],
        vec![Edge(7, 0), Edge(5, 1), Edge(6, 4)],
        vec![Edge(4, 1), Edge(2, 4)],
        vec![Edge(2, 3), Edge(6, 2)],
    ];

    let graph = Graph::<AdjList>::from(adj_list);
    println!("{:?}", &graph);
    let (_uf, cost) = kruskal(graph).unwrap();

    assert_eq!(11, cost);
}

#[test]
fn test_kruskal_graph3() {
    let adj_list: Vec<Vec<Edge>> = vec![
        vec![],
        vec![],
        vec![],
        vec![],
        vec![],
        vec![],
        vec![],
        vec![],
    ];
    let graph = Graph::<AdjList>::from(adj_list);
    println!("{:?}", &graph);
    if let Some(_) = kruskal(graph) {
        panic!("there shouldnt have any MST");
    }
}

fn symmetric_graph() -> Vec<Vec<Edge>> {
    vec![
        vec![Edge(1, 1), Edge(7, 2)],
        vec![Edge(1, 0), Edge(5, 2), Edge(4, 3), Edge(3, 4)],
        vec![Edge(7, 0), Edge(5, 1), Edge(6, 4)],
        vec![Edge(4, 1), Edge(2, 4)],
        vec![Edge(3, 1), Edge(6, 2), Edge(2, 3)],
    ]
}

#[test]
fn prim_and_kruskal_costs_agree() {
    let prim_cost = prims(Graph::<AdjList>::from(symmetric_graph()), 0)
        .unwrap()
        .min_cost;
    let kruskal_cost = kruskal(Graph::<AdjList>::from(symmetric_graph())).unwrap().1;
    assert_eq!(prim_cost, kruskal_cost);
    assert_eq!(prim_cost, 11);
}

#[test]
fn zero_edge_graph_has_no_mst() {
    let empty3: Vec<Vec<Edge>> = vec![vec![], vec![], vec![]];
    assert!(prims(Graph::<AdjList>::from(empty3.clone()), 0).is_none());
    assert!(kruskal(Graph::<AdjList>::from(empty3)).is_none());
}

#[test]
fn disconnected_two_components_have_no_mst() {
    let two: Vec<Vec<Edge>> = vec![
        vec![Edge(2, 1)],
        vec![Edge(2, 0)],
        vec![Edge(5, 3)],
        vec![Edge(5, 2)],
    ];
    assert!(prims(Graph::<AdjList>::from(two.clone()), 0).is_none());
    assert!(kruskal(Graph::<AdjList>::from(two)).is_none());
}
