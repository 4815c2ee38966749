use autoeq::utils::{is_fast_len, next_fast_len};

#[test]
fn test_next_fast_len() {
    assert_eq!(next_fast_len(1), 1);
    assert_eq!(next_fast_len(2), 2);
    assert_eq!(next_fast_len(3), 3);
    assert!(next_fast_len(100) >= 100);
    assert!(is_fast_len(next_fast_len(100)));
}

#[test]
fn next_fast_len_exact_values() {
    assert_eq!(next_fast_len(0), 1);
    assert_eq!(next_fast_len(11), 12);
    assert_eq!(next_fast_len(13), 14);
    assert_eq!(next_fast_len(17), 18);
    assert_eq!(next_fast_len(100), 100);
    assert_eq!(next_fast_len(101), 105);
    assert_eq!(next_fast_len(121), 125);
    assert_eq!(next_fast_len(1387), 1400);
    assert_eq!(next_fast_len(1398), 1400);
}

#[test]
fn is_fast_len_values() {
    assert!(!is_fast_len(0));
    assert!(is_fast_len(1));
    assert!(is_fast_len(2 * 3 * 5 * 7 * 64));
    assert!(is_fast_len(49));
    assert!(!is_fast_len(11));
    assert!(!is_fast_len(22));
    assert!(!is_fast_len(2 * 3 * 5 * 7 * 13));
}

#[test]
fn next_fast_len_fixed_point_and_idempotent() {
    for n in 0..2000usize {
        let r = next_fast_len(n);
        assert!(r >= n);
        assert!(is_fast_len(r));
        assert_eq!(next_fast_len(r), r);
        for m in n..r {
            assert!(!is_fast_len(m));
        }
    }
}

#[test]
fn next_fast_len_monotone() {
    let mut prev = next_fast_len(0);
    for n in 1..3000usize {
        let r = next_fast_len(n);
        assert!(prev <= r);
        prev = r;
    }
}

#[test]
fn products_of_fast_lengths_are_fast() {
    let fast: Vec<usize> = (1..200).filter(|&n| is_fast_len(n)).collect();
    for &a in &fast {
        for &b in &fast {
            assert!(is_fast_len(a * b));
        }
    }
}
