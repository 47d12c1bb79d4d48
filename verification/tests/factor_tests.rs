use cool_turkey::factor;

#[test]
fn one_has_no_factors() {
    assert_eq!(factor(1), Vec::<usize>::new());
}

#[test]
fn small_composites_split_smallest_first() {
    assert_eq!(factor(2), vec![2]);
    assert_eq!(factor(4), vec![2, 2]);
    assert_eq!(factor(6), vec![2, 3]);
    assert_eq!(factor(12), vec![2, 2, 3]);
    assert_eq!(factor(360), vec![2, 2, 2, 3, 3, 5]);
}

#[test]
fn primes_are_a_single_factor() {
    assert_eq!(factor(3), vec![3]);
    assert_eq!(factor(17), vec![17]);
    assert_eq!(factor(97), vec![97]);
}

#[test]
fn odd_composites() {
    assert_eq!(factor(9), vec![3, 3]);
    assert_eq!(factor(91), vec![7, 13]);
    assert_eq!(factor(225), vec![3, 3, 5, 5]);
}

#[test]
fn products_multiply_back() {
    for n in 1..200usize {
        let fs = factor(n);
        let mut prod = 1usize;
        for f in fs.iter() {
            assert!(*f >= 2);
            prod *= f;
        }
        assert_eq!(prod, n);
    }
}
