use tomato::knn::knn_from_row;
use tomato::order::higher;
use tomato::order::vertices_desc_by_density;

#[test]
fn sweep_order_sorts_denser_first() {
    let f: Vec<i64> = vec![10, 30, 20];
    assert_eq!(vertices_desc_by_density(&f), vec![1, 2, 0]);
}

#[test]
fn sweep_order_breaks_ties_by_index() {
    let f: Vec<i64> = vec![5, 7, 5, 7];
    assert_eq!(vertices_desc_by_density(&f), vec![1, 3, 0, 2]);

    // densities on a millionth scale: two equal values, then a smaller one
    let f2: Vec<i64> = vec![367879, 367879, 18315];
    assert_eq!(vertices_desc_by_density(&f2), vec![0, 1, 2]);
}

#[test]
fn higher_is_a_strict_total_order() {
    let f: Vec<i64> = vec![3, 3, 1];
    assert!(higher(&f, 0, 1)); // equal density, lower index first
    assert!(!higher(&f, 1, 0));
    assert!(higher(&f, 1, 2)); // denser first
    assert!(!higher(&f, 2, 1));
    assert!(!higher(&f, 0, 0));
}

#[test]
fn knn_row_is_sorted_sized_and_excludes_query() {
    let dist2: Vec<u64> = vec![4, 1, 0, 9];
    let out = knn_from_row(&dist2, 2, 2);
    assert_eq!(out, vec![(1, 1), (0, 4)]);

    let all = knn_from_row(&dist2, 2, 10);
    assert_eq!(all, vec![(1, 1), (0, 4), (3, 9)]);
    assert_eq!(all.len(), dist2.len() - 1);
    for &(j, d) in &all {
        assert_ne!(j, 2);
        assert_eq!(d, dist2[j]);
    }
}

#[test]
fn knn_row_breaks_distance_ties_by_index() {
    let dist2: Vec<u64> = vec![5, 5, 0, 5];
    let out = knn_from_row(&dist2, 2, 3);
    assert_eq!(out, vec![(0, 5), (1, 5), (3, 5)]);
}

#[test]
fn knn_row_of_single_point_is_empty() {
    let dist2: Vec<u64> = vec![0];
    let out = knn_from_row(&dist2, 0, 4);
    assert!(out.is_empty());
}
