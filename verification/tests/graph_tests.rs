use dsa::graph::Graph;

#[test]
fn bfs_path_search() {
    let mut graph: Graph = Graph::new();

    graph.add_vertex();
    graph.add_vertex();
    graph.add_vertex();
    graph.add_vertex();
    graph.add_vertex();
    graph.add_vertex();

    graph.add_edge(0, 1, 1).unwrap();
    graph.add_edge(0, 2, 1).unwrap();
    graph.add_edge(2, 4, 1).unwrap();
    graph.add_edge(3, 0, 1).unwrap();
    graph.add_edge(4, 3, 1).unwrap();
    graph.add_edge(4, 5, 1).unwrap();
    graph.add_edge(5, 1, 1).unwrap();
    graph.add_edge(5, 3, 1).unwrap();

    let mut path1: Vec<usize> = vec![];
    let mut path2: Vec<usize> = vec![];
    let mut path3: Vec<usize> = vec![];

    graph.bfs_path(0, 5, &mut path1);
    graph.bfs_path(2, 1, &mut path2);
    graph.bfs_path(1, 5, &mut path3);

    assert_eq!(vec![0, 2, 4, 5], path1);
    assert_eq!(vec![2, 4, 5, 1], path2);
    assert_eq!(Vec::<usize>::new(), path3);
}

#[test]
fn dfs_path_search() {
    let mut graph: Graph = Graph::new();

    graph.add_vertex();
    graph.add_vertex();
    graph.add_vertex();
    graph.add_vertex();
    graph.add_vertex();
    graph.add_vertex();

    graph.add_edge(0, 1, 1).unwrap();
    graph.add_edge(0, 2, 1).unwrap();
    graph.add_edge(2, 4, 1).unwrap();
    graph.add_edge(3, 0, 1).unwrap();
    graph.add_edge(4, 3, 1).unwrap();
    graph.add_edge(4, 5, 1).unwrap();
    graph.add_edge(5, 1, 1).unwrap();
    graph.add_edge(5, 3, 1).unwrap();

    let mut path1: Vec<usize> = vec![];
    let mut path2: Vec<usize> = vec![];
    let mut path3: Vec<usize> = vec![];

    graph.dfs_path(0, 5, &mut path1);
    graph.dfs_path(2, 1, &mut path2);
    graph.dfs_path(1, 5, &mut path3);

    assert_eq!(vec![0, 2, 4, 5], path1);
    assert_eq!(vec![2, 4, 3, 0, 1], path2);
    assert_eq!(Vec::<usize>::new(), path3);
}

#[test]
fn shortest_path() {
    let mut graph: Graph = Graph::new();

    graph.add_vertex();
    graph.add_vertex();
    graph.add_vertex();
    graph.add_vertex();
    graph.add_vertex();
    graph.add_vertex();
    graph.add_vertex();

    graph.add_edge(0, 1, 10).unwrap();
    graph.add_edge(0, 2, 1).unwrap();
    graph.add_edge(2, 4, 1).unwrap();
    graph.add_edge(2, 1, 10).unwrap();
    graph.add_edge(3, 0, 1).unwrap();
    graph.add_edge(3, 1, 1).unwrap();
    graph.add_edge(4, 3, 1).unwrap();
    graph.add_edge(4, 5, 1).unwrap();
    graph.add_edge(1, 5, 10).unwrap();
    graph.add_edge(1, 0, 10).unwrap();
    graph.add_edge(5, 3, 1).unwrap();

    let mut path1: Vec<usize> = vec![];
    let mut path2: Vec<usize> = vec![];
    let mut path3: Vec<usize> = vec![];
    let mut cost1: u64 = u64::MAX;
    let mut cost2: u64 = u64::MAX;
    let mut cost3: u64 = u64::MAX;

    graph.dijkstra_shortest_path(0, 5, &mut path1, &mut cost1);
    graph.dijkstra_shortest_path(2, 1, &mut path2, &mut cost2);
    graph.dijkstra_shortest_path(1, 6, &mut path3, &mut cost3);

    assert_eq!(vec![0, 2, 4, 5], path1);
    assert_eq!(vec![2, 4, 3, 1], path2);
    assert_eq!(Vec::<usize>::new(), path3);
    assert_eq!(3, cost1);
    assert_eq!(3, cost2);
    assert_eq!(u64::MAX, cost3);
}

// The same query on an unchanged graph answers the same way twice.
#[test]
fn queries_are_repeatable() {
    let mut graph: Graph = Graph::new();
    for _ in 0..4 {
        graph.add_vertex();
    }
    graph.add_edge(0, 1, 2).unwrap();
    graph.add_edge(1, 2, 3).unwrap();
    graph.add_edge(0, 2, 9).unwrap();
    graph.add_edge(2, 3, 1).unwrap();

    let mut b1: Vec<usize> = vec![];
    let mut b2: Vec<usize> = vec![];
    graph.bfs_path(0, 3, &mut b1);
    graph.bfs_path(0, 3, &mut b2);
    assert_eq!(b1, b2);

    let mut d1: Vec<usize> = vec![];
    let mut d2: Vec<usize> = vec![];
    graph.dfs_path(0, 3, &mut d1);
    graph.dfs_path(0, 3, &mut d2);
    assert_eq!(d1, d2);

    let mut p1: Vec<usize> = vec![];
    let mut p2: Vec<usize> = vec![];
    let mut c1: u64 = 0;
    let mut c2: u64 = 0;
    graph.dijkstra_shortest_path(0, 3, &mut p1, &mut c1);
    graph.dijkstra_shortest_path(0, 3, &mut p2, &mut c2);
    assert_eq!(p1, p2);
    assert_eq!(c1, c2);
    assert_eq!(6, c1);
}

#[test]
fn trivial_and_invalid_queries() {
    let mut graph: Graph = Graph::new();
    graph.add_vertex();
    graph.add_vertex();
    graph.add_edge(0, 1, 4).unwrap();
    assert!(graph.add_edge(0, 7, 1).is_err());
    assert!(graph.add_edge(7, 0, 1).is_err());

    // a query from a vertex to itself: the cheapest path is empty
    let mut p: Vec<usize> = vec![];
    let mut c: u64 = 77;
    graph.dijkstra_shortest_path(0, 0, &mut p, &mut c);
    assert_eq!(vec![0], p);
    assert_eq!(0, c);

    // breadth-first search from a vertex to itself reports no path
    let mut b: Vec<usize> = vec![];
    graph.bfs_path(0, 0, &mut b);
    assert_eq!(Vec::<usize>::new(), b);

    // out-of-range indices are answered with silence
    let mut q: Vec<usize> = vec![];
    graph.bfs_path(0, 9, &mut q);
    assert_eq!(Vec::<usize>::new(), q);
}

#[test]
fn delete_vertex_renumbers() {
    let mut graph: Graph = Graph::new();
    for _ in 0..4 {
        graph.add_vertex();
    }
    // 0 -> 1 -> 2 -> 3 in a line, plus 0 -> 3 directly
    graph.add_edge(0, 1, 1).unwrap();
    graph.add_edge(1, 2, 1).unwrap();
    graph.add_edge(2, 3, 1).unwrap();
    graph.add_edge(0, 3, 5).unwrap();

    // drop vertex 1: old 2 and 3 become 1 and 2, the edge into old 1 goes
    graph.delete_vertex(1);
    assert_eq!(3, graph.vertex_amount());

    let mut p: Vec<usize> = vec![];
    graph.bfs_path(1, 2, &mut p);
    assert_eq!(vec![1, 2], p);

    let mut q: Vec<usize> = vec![];
    graph.bfs_path(0, 2, &mut q);
    assert_eq!(vec![0, 2], q);
}
