use tomato::backend::HnswParams;
use tomato::uf::UfTomato;

#[test]
fn union_find_activate_find_and_mode_carry() {
    let f: Vec<i64> = vec![10, 5];
    let mut uf = UfTomato::new(2);
    assert!(!uf.is_active(0));
    uf.activate(0);
    uf.activate(1);
    assert!(uf.is_active(0) && uf.is_active(1));
    assert_eq!(uf.find(0), 0);
    assert_eq!(uf.find(1), 1);
    assert_eq!(uf.mode_of_root(1), 1);

    let root = uf.union_survivor(&f, 0, 1);
    assert_eq!(uf.find(0), root);
    assert_eq!(uf.find(1), root);
    assert_eq!(uf.mode_of_root(root), 0);
}

#[test]
fn union_by_size_keeps_larger_root_but_carries_survivor_mode() {
    let f: Vec<i64> = vec![5, 4, 10];
    let mut uf = UfTomato::new(3);
    uf.activate(0);
    uf.activate(1);
    uf.activate(2);
    let r01 = uf.union_survivor(&f, 0, 1);
    assert_eq!(r01, 0); // equal sizes: the survivor becomes the parent

    // the singleton 2 survives in mode, but the pair keeps the root role
    let w = uf.find(2);
    let r = uf.find(0);
    let merged = uf.union_survivor(&f, w, r);
    assert_eq!(merged, r01);
    assert_eq!(uf.mode_of_root(merged), 2);
    assert_eq!(uf.find(1), merged);
}

#[test]
fn protected_flag_sticks_to_the_root() {
    let mut uf = UfTomato::new(2);
    uf.activate(0);
    assert!(!uf.is_protected_root(0));
    uf.protect_root(0);
    assert!(uf.is_protected_root(0));
}

#[test]
fn hnsw_params_default_values() {
    let p = HnswParams::default();
    assert_eq!(p.max_nb_connection, 24);
    assert_eq!(p.ef_construction, 200);
    assert_eq!(p.ef_search, 64);
    assert_eq!(p.max_layer, 16);
    assert!(p.use_parallel_insert);
}
