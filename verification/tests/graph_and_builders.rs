use tomato::graph::Graph;
use tomato::graph_build::knn_graph;
use tomato::graph_build::rips_graph_brute;
use tomato::graph_build::rips_graph_from_knn;
use tomato::tomato::TomatoError;

#[test]
fn graph_accessors_expose_rows() {
    let g = Graph::new(vec![vec![1], vec![0, 1]]).unwrap();
    assert_eq!(g.n(), 2);
    assert_eq!(g.neighbors(0), &vec![1]);
    assert_eq!(g.neighbors(1), &vec![0, 1]);
}

#[test]
fn symmetrize_sorts_dedups_and_drops_self_loops() {
    let adj = vec![vec![1, 1, 0], vec![], vec![0]];
    let out = Graph::symmetrize_and_dedup(adj);
    assert_eq!(out, vec![vec![1, 2], vec![0], vec![0]]);
}

#[test]
fn symmetrize_is_an_involution() {
    let adj = vec![vec![2, 2], vec![0], vec![1, 1, 2]];
    let once = Graph::symmetrize_and_dedup(adj);
    let twice = Graph::symmetrize_and_dedup(once.clone());
    assert_eq!(twice, once);
}

#[test]
fn symmetrize_fixes_canonical_symmetric_input() {
    let adj = vec![vec![1], vec![0, 2], vec![1]];
    let out = Graph::symmetrize_and_dedup(adj.clone());
    assert_eq!(out, adj);
}

#[test]
fn knn_graph_keeps_offered_indices() {
    let knn: Vec<Vec<(usize, u64)>> = vec![vec![(1, 1)], vec![(0, 1)]];
    let g = knn_graph(&knn, false).unwrap();
    assert_eq!(g.neighbors(0), &vec![1]);
    assert_eq!(g.neighbors(1), &vec![0]);
}

#[test]
fn knn_graph_symmetrize_adds_reverse_edges() {
    let knn: Vec<Vec<(usize, u64)>> = vec![vec![(1, 1)], vec![]];
    let g = knn_graph(&knn, false).unwrap();
    assert_eq!(g.neighbors(1), &Vec::<usize>::new());

    let gs = knn_graph(&knn, true).unwrap();
    assert_eq!(gs.neighbors(0), &vec![1]);
    assert_eq!(gs.neighbors(1), &vec![0]);
}

#[test]
fn rips_radius_filters_by_key() {
    let knn: Vec<Vec<(usize, u64)>> = vec![
        vec![(1, 4), (2, 9)],
        vec![(0, 4), (2, 25)],
        vec![(0, 9), (1, 25)],
    ];
    let g = rips_graph_brute(&knn, 5).unwrap();
    assert_eq!(g.neighbors(0), &vec![1]);
    assert_eq!(g.neighbors(1), &vec![0]);
    assert_eq!(g.neighbors(2), &Vec::<usize>::new());
}

#[test]
fn rips_from_knn_never_looks_past_the_offered_rows() {
    // vertex 2 offers nothing, so even a huge radius adds only mirrored
    // edges of what others offer
    let knn: Vec<Vec<(usize, u64)>> = vec![vec![(1, 1)], vec![(2, 1)], vec![]];
    let g = rips_graph_from_knn(&knn, 1000, true).unwrap();
    assert_eq!(g.neighbors(0), &vec![1]);
    assert_eq!(g.neighbors(1), &vec![0, 2]);
    assert_eq!(g.neighbors(2), &vec![1]);

    let gp = rips_graph_from_knn(&knn, 1000, false).unwrap();
    assert_eq!(gp.neighbors(1), &vec![2]);
    assert_eq!(gp.neighbors(2), &Vec::<usize>::new());
}

#[test]
fn builders_reject_out_of_range_offers() {
    let knn: Vec<Vec<(usize, u64)>> = vec![vec![(5, 1)]];
    let err = knn_graph(&knn, false).unwrap_err();
    assert!(matches!(err, TomatoError::InvalidGraph(_)));

    // an out-of-range offer beyond the radius never enters the graph
    let ok = rips_graph_brute(&knn, 0).unwrap();
    assert_eq!(ok.n(), 1);
    assert_eq!(ok.neighbors(0), &Vec::<usize>::new());
}
