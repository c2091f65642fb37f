use rustweek_anims::order::{inverse, stable_order};

#[test]
fn stable_order_sorts_by_key() {
    assert_eq!(stable_order(&vec![3, 1, 3, 0]), vec![3, 1, 0, 2]);
    assert_eq!(stable_order(&vec![]), Vec::<usize>::new());
    assert_eq!(stable_order(&vec![9]), vec![0]);
}

#[test]
fn stable_order_keeps_equal_keys_in_place() {
    assert_eq!(stable_order(&vec![2, 2, 2, 2]), vec![0, 1, 2, 3]);
    assert_eq!(stable_order(&vec![5, 4, 5, 4, 5]), vec![1, 3, 0, 2, 4]);
}

#[test]
fn stable_order_matches_std_stable_sort() {
    let keys: Vec<u32> = vec![0x20003, 0x10004, 0x20003, 0x10003, 0x30000, 0x10004, 0];
    let mut expect: Vec<usize> = (0..keys.len()).collect();
    expect.sort_by(|a, b| keys[*a].cmp(&keys[*b]));
    assert_eq!(stable_order(&keys), expect);
}

#[test]
fn inverse_undoes_permutation() {
    let perm = vec![3, 1, 0, 2];
    let inv = inverse(&perm);
    assert_eq!(inv, vec![2, 1, 3, 0]);
    for p in 0..perm.len() {
        assert_eq!(inv[perm[p]], p);
        assert_eq!(perm[inv[p]], p);
    }
    assert_eq!(inverse(&vec![]), Vec::<usize>::new());
}
