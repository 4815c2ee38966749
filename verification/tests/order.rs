use autoeq::peq::{filter_sort_key, init_order};
use autoeq::FilterType;

#[test]
fn sort_keys_rank_freedom_then_kind() {
    assert_eq!(filter_sort_key(true, true, FilterType::Peaking, 7), (0, 0, 7));
    assert_eq!(filter_sort_key(true, false, FilterType::LowShelf, 0), (1, 1, 0));
    assert_eq!(filter_sort_key(false, true, FilterType::HighShelf, 9), (2, 2, 9));
    assert_eq!(filter_sort_key(false, false, FilterType::Peaking, 1), (3, 0, 1));
}

#[test]
fn init_order_is_reversed_stable_sort() {
    let keys = vec![(0, 0, 5), (3, 1, 0), (0, 0, 5), (1, 2, 9), (0, 0, 9)];
    let order = init_order(&keys);
    // The same as a stable ascending sort by key, reversed.
    let mut expected: Vec<usize> = (0..keys.len()).collect();
    expected.sort_by_key(|&i| keys[i]);
    expected.reverse();
    assert_eq!(order, expected);
    assert_eq!(order, vec![1, 3, 4, 2, 0]);
}

#[test]
fn init_order_edge_cases() {
    assert_eq!(init_order(&vec![]), Vec::<usize>::new());
    assert_eq!(init_order(&vec![(2, 2, 2)]), vec![0]);
    assert_eq!(init_order(&vec![(1, 1, 1); 4]), vec![3, 2, 1, 0]);
}

#[test]
fn init_order_lists_every_index_once() {
    let keys: Vec<(u64, u64, u64)> = (0..40u64).map(|i| ((i * 7) % 4, (i * 3) % 3, (i * 11) % 5)).collect();
    let order = init_order(&keys);
    let mut seen = order.clone();
    seen.sort();
    assert_eq!(seen, (0..40).collect::<Vec<usize>>());
    for w in order.windows(2) {
        assert!((keys[w[0]], w[0]) > (keys[w[1]], w[1]));
    }
}
