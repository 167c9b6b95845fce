use bst::sieve;

#[test]
fn test_sieve_basic() {
    assert_eq!(Vec::<u32>::new(), sieve(0));
    assert_eq!(Vec::<u32>::new(), sieve(1));
    assert_eq!(
        vec![
            2, 3, 5, 7, 11, 13, 17, 19, 23, 29, 31, 37, 41, 43, 47, 53, 59, 61, 67, 71, 73, 79,
            83, 89, 97, 101, 103, 107, 109, 113
        ],
        sieve(121)
    );
}

#[test]
fn sieve_bound_is_exclusive() {
    assert_eq!(Vec::<u32>::new(), sieve(2));
    assert_eq!(vec![2], sieve(3));
    assert_eq!(vec![2, 3, 5, 7], sieve(11));
    assert_eq!(vec![2, 3, 5, 7, 11], sieve(12));
    assert_eq!(25, sieve(100).len());
}
