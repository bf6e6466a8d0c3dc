use tomato::graph::Graph;
use tomato::tomato::tomato_cluster;
use tomato::tomato::TomatoError;
use tomato::tomato::TomatoParams;

#[test]
fn huge_tau_collapses_components_to_two_modes() {
    let adj = vec![vec![1], vec![0, 2], vec![1], vec![4], vec![3]];
    let g = Graph::new(adj).unwrap();
    let f: Vec<i64> = vec![5, 4, 3, 2, 1];
    let res = tomato_cluster(&g, &f, TomatoParams { tau: i64::MAX }).unwrap();

    assert_eq!(res.cluster_of[0], res.cluster_of[1]);
    assert_eq!(res.cluster_of[1], res.cluster_of[2]);
    assert_eq!(res.cluster_of[3], res.cluster_of[4]);
    assert_ne!(res.cluster_of[0], res.cluster_of[3]);
    assert_eq!(res.modes, vec![0, 3]);
}

#[test]
fn tie_breaking_prefers_lower_index() {
    let g = Graph::new(vec![vec![1], vec![0]]).unwrap();
    let f: Vec<i64> = vec![7, 7];
    let res = tomato_cluster(&g, &f, TomatoParams { tau: 1 }).unwrap();

    assert_eq!(res.cluster_of[0], res.cluster_of[1]);
    assert_eq!(res.cluster_of[0], 0);
    assert_eq!(res.modes, vec![0]);
}

#[test]
fn zero_tau_protects_every_fresh_root() {
    // a lifetime of exactly zero is not strictly below tau = 0, so no
    // vertex ever joins another cluster
    let g = Graph::new(vec![vec![1], vec![0]]).unwrap();
    let f: Vec<i64> = vec![7, 7];
    let res = tomato_cluster(&g, &f, TomatoParams { tau: 0 }).unwrap();

    assert_eq!(res.cluster_of, vec![0, 1]);
    assert_eq!(res.modes, vec![0, 1]);
}

#[test]
fn isolated_high_density_point_keeps_its_own_cluster() {
    let g = Graph::new(vec![vec![], vec![2], vec![1]]).unwrap();
    let f: Vec<i64> = vec![10, 1, 2];
    let res = tomato_cluster(&g, &f, TomatoParams { tau: 1 }).unwrap();

    assert_eq!(res.cluster_of, vec![0, 2, 2]);
    assert_eq!(res.modes, vec![0, 2]);
}

#[test]
fn lifetime_exactly_tau_is_protected() {
    // At the sweep step of vertex 2, the root of vertex 1 still has mode
    // 1 and its lifetime is f[1] - f[2] = 1. With tau = 1 the merge
    // demands a lifetime strictly below tau, so the root is protected.
    let adj = vec![vec![2], vec![2], vec![0, 1]];
    let g = Graph::new(adj.clone()).unwrap();
    let f: Vec<i64> = vec![3, 2, 1];

    let res = tomato_cluster(&g, &f, TomatoParams { tau: 1 }).unwrap();
    assert_eq!(res.cluster_of, vec![0, 1, 0]);
    assert_eq!(res.modes, vec![0, 1]);

    // One notch higher and the same root is absorbed.
    let g2 = Graph::new(adj).unwrap();
    let res2 = tomato_cluster(&g2, &f, TomatoParams { tau: 2 }).unwrap();
    assert_eq!(res2.cluster_of, vec![0, 0, 0]);
    assert_eq!(res2.modes, vec![0]);
}

#[test]
fn cluster_labels_are_self_assigned_and_at_least_as_dense() {
    let g = Graph::new(vec![vec![1, 2], vec![0], vec![0, 3], vec![2]]).unwrap();
    let f: Vec<i64> = vec![4, 9, 2, 7];
    let res = tomato_cluster(&g, &f, TomatoParams { tau: 3 }).unwrap();

    assert_eq!(res.cluster_of.len(), 4);
    for v in 0..4 {
        let m = res.cluster_of[v];
        assert!(m < 4);
        assert!(f[m] >= f[v]);
        assert_eq!(res.cluster_of[m], m);
        assert!(res.modes.contains(&m));
    }
    for &m in &res.modes {
        assert!(res.cluster_of.contains(&m));
    }
}

#[test]
fn identical_runs_give_identical_results() {
    let adj = vec![vec![1, 3], vec![0, 2], vec![1], vec![0]];
    let f: Vec<i64> = vec![6, 1, 8, 3];
    let g1 = Graph::new(adj.clone()).unwrap();
    let g2 = Graph::new(adj).unwrap();
    let r1 = tomato_cluster(&g1, &f, TomatoParams { tau: 4 }).unwrap();
    let r2 = tomato_cluster(&g2, &f, TomatoParams { tau: 4 }).unwrap();

    assert_eq!(r1.cluster_of, r2.cluster_of);
    assert_eq!(r1.modes, r2.modes);
}

#[test]
fn density_length_mismatch_is_rejected() {
    let g = Graph::new(vec![vec![1], vec![0]]).unwrap();
    let f: Vec<i64> = vec![1];
    let err = tomato_cluster(&g, &f, TomatoParams { tau: 0 }).unwrap_err();
    assert_eq!(err, TomatoError::DensityLengthMismatch);
}

#[test]
fn negative_tau_is_rejected() {
    let g = Graph::new(vec![vec![1], vec![0]]).unwrap();
    let f: Vec<i64> = vec![1, 2];
    let err = tomato_cluster(&g, &f, TomatoParams { tau: -1 }).unwrap_err();
    assert_eq!(err, TomatoError::InvalidTau);
}

#[test]
fn out_of_range_edge_is_rejected() {
    let err = Graph::new(vec![vec![3]]).unwrap_err();
    assert!(matches!(err, TomatoError::InvalidGraph(_)));
}
