use mlx_rerank::order::{stable_order, unsort};

#[test]
fn equal_keys_keep_their_places() {
    assert_eq!(stable_order(&vec![3, 1, 3, 0, 1]), vec![3, 1, 4, 0, 2]);
}

#[test]
fn orders_of_short_lists() {
    assert_eq!(stable_order(&vec![]), Vec::<usize>::new());
    assert_eq!(stable_order(&vec![-7]), vec![0]);
    assert_eq!(stable_order(&vec![i128::MAX, i128::MIN]), vec![1, 0]);
}

#[test]
fn sorts_as_the_standard_library_does() {
    let keys: Vec<i128> = (0..257).map(|i: i128| (i * 7919) % 23 - 11).collect();
    let mut expected: Vec<usize> = (0..keys.len()).collect();
    expected.sort_by_key(|&i| keys[i]);
    assert_eq!(stable_order(&keys), expected);
}

#[test]
fn unsorting_restores_the_original_order() {
    let keys: Vec<i128> = vec![30, 10, 20, 10];
    let order = stable_order(&keys);
    let sorted: Vec<i128> = order.iter().map(|&i| keys[i]).collect();
    assert_eq!(sorted, vec![10, 10, 20, 30]);
    assert_eq!(unsort(&order, &sorted, 0), keys);
    assert_eq!(unsort(&order, &vec!['b', 'd', 'c', 'a'], '?'), vec!['a', 'b', 'c', 'd']);
}
