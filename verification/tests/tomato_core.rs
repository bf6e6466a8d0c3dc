use tomato::graph::Graph;
use tomato::tomato::tomato_cluster;
use tomato::tomato::TomatoParams;

fn connected_components(adj: &[Vec<usize>]) -> Vec<usize> {
    let n = adj.len();
    let mut comp = vec![usize::MAX; n];
    let mut cid = 0usize;
    let mut stack: Vec<usize> = Vec::new();

    for i in 0..n {
        if comp[i] != usize::MAX {
            continue;
        }
        comp[i] = cid;
        stack.clear();
        stack.push(i);
        while let Some(v) = stack.pop() {
            for &u in &adj[v] {
                if comp[u] == usize::MAX {
                    comp[u] = cid;
                    stack.push(u);
                }
            }
        }
        cid += 1;
    }
    comp
}

#[test]
fn tau_huge_gives_graph_connected_components() {
    let adj = vec![vec![1], vec![0, 2], vec![1], vec![4], vec![3]];
    let g = Graph::new(adj.clone()).unwrap();
    let f: Vec<i64> = vec![5, 4, 3, 2, 1];

    let res = tomato_cluster(&g, &f, TomatoParams { tau: i64::MAX }).unwrap();

    let cc = connected_components(&adj);
    for i in 0..f.len() {
        for j in 0..f.len() {
            let same_cc = cc[i] == cc[j];
            let same_cluster = res.cluster_of[i] == res.cluster_of[j];
            assert_eq!(same_cc, same_cluster);
        }
    }
}

#[test]
fn batched_union_counterexample_regression() {
    let a = 0usize;
    let b = 1usize;
    let c = 2usize;
    let v = 3usize;

    let g = Graph::new(vec![vec![v], vec![v], vec![v], vec![b, a, c]]).unwrap();

    // densities 4, 5, 10, 0 and threshold 4.5, all doubled onto the
    // integer density scale
    let f: Vec<i64> = vec![8, 10, 20, 0];
    let tau = 9;
    let res = tomato_cluster(&g, &f, TomatoParams { tau }).unwrap();

    assert_eq!(res.cluster_of[a], res.cluster_of[c]);
    assert_ne!(res.cluster_of[b], res.cluster_of[c]);
}
