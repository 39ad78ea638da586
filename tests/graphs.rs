use algs4::bfdp::search;
use algs4::digraph::Digraph;
use algs4::sap::path_stats_between;

#[test]
fn should_work_for_simple_case() {
    // Graph:
    // 0 -> 1 -> 2 -> 3
    // \-->-----/
    let mut g = Digraph::new(4);
    g.add_edge(0, 1);
    g.add_edge(1, 2);
    g.add_edge(2, 3);
    g.add_edge(0, 2);

    let result = search(&g, vec![0]);

    assert_eq!(result.path_to(0), Some(vec![0]));
    assert_eq!(result.path_to(1), Some(vec![0, 1]));
    assert_eq!(result.path_to(2), Some(vec![0, 2]));
    assert_eq!(result.path_to(3), Some(vec![0, 2, 3]));

    assert_eq!(result.dist_to(0), Some(0));
    assert_eq!(result.dist_to(1), Some(1));
    assert_eq!(result.dist_to(2), Some(1));
    assert_eq!(result.dist_to(3), Some(2));
}

#[test]
fn should_handle_disconnected_components() {
    // Graph: 0 -> 1     2     3
    let mut g = Digraph::new(4);
    g.add_edge(0, 1);

    let result = search(&g, vec![0, 2]);

    assert_eq!(result.path_to(0), Some(vec![0]));
    assert_eq!(result.path_to(1), Some(vec![0, 1]));
    assert_eq!(result.path_to(2), Some(vec![2]));
    assert_eq!(result.path_to(3), None);

    assert_eq!(result.dist_to(0), Some(0));
    assert_eq!(result.dist_to(1), Some(1));
    assert_eq!(result.dist_to(2), Some(0));
    assert_eq!(result.dist_to(3), None);
}

#[test]
fn adding_edges_should_make_src_vertex_adjacent_to_dest_vertex() {
    let mut g = Digraph::new(2);

    g.add_edge(0, 1);

    assert_eq!(g.adj(0).iter().cloned().collect::<Vec<_>>(), vec![1usize]);
}

#[test]
fn adding_edge_should_not_make_dest_vertex_adjacent_to_src_vertex() {
    let mut g = Digraph::new(2);

    g.add_edge(0, 1);

    assert_eq!(g.adj(1).iter().collect::<Vec<_>>().len(), 0);
}

#[test]
fn counts_vertices_and_edges() {
    let mut g = Digraph::new(3);
    assert_eq!(g.vertices(), 3);
    assert_eq!(g.edges(), 0);
    g.add_edge(2, 0);
    g.add_edge(2, 1);
    assert_eq!(g.edges(), 2);
    assert_eq!(g.adj(2), &[0, 1]);
}

#[test]
fn duplicate_sources_are_harmless() {
    let mut g = Digraph::new(3);
    g.add_edge(0, 1);
    g.add_edge(1, 2);
    let result = search(&g, vec![0, 0, 1]);
    assert_eq!(result.dist_to(2), Some(1));
    assert_eq!(result.path_to(2), Some(vec![1, 2]));
}

#[test]
fn should_find_shortest_path_in_trivial_case() {
    let g = Digraph::new(1);

    assert_eq!(path_stats_between(&g, vec![0], vec![0]), Some(0));
}

#[test]
fn should_find_shortest_path_in_triangle() {
    // Graph: 0 -> 1 -> 2
    //         \-->----/
    let mut g = Digraph::new(3);
    g.add_edge(0, 1);
    g.add_edge(1, 2);
    g.add_edge(0, 2);

    assert_eq!(path_stats_between(&g, vec![0], vec![2]), Some(1));
}

#[test]
fn should_find_path_when_both_need_to_move() {
    // Graph: 0 ->  2
    //        1 ->-/
    let mut g = Digraph::new(3);
    g.add_edge(0, 2);
    g.add_edge(1, 2);

    assert_eq!(path_stats_between(&g, vec![0], vec![1]), Some(2));
}

#[test]
fn should_find_path_when_having_multiple_sources_and_dests() {
    // Graph: 0 -> 1 ->  2 <- 4 <- 5  <- 6
    //             3 ->-/           \-<- 7 <- 8
    let mut g = Digraph::new(9);
    g.add_edge(0, 1);
    g.add_edge(1, 2);
    g.add_edge(3, 2);
    g.add_edge(4, 2);
    g.add_edge(5, 4);
    g.add_edge(6, 5);
    g.add_edge(7, 5);
    g.add_edge(8, 7);

    assert_eq!(path_stats_between(&g, vec![0, 3], vec![6, 8]), Some(4));
}

#[test]
fn no_common_ancestor_gives_none() {
    let mut g = Digraph::new(2);
    g.add_edge(0, 0);
    assert_eq!(path_stats_between(&g, vec![0], vec![1]), None);
}
