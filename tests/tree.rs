use bst::{IntoIter, Iter, IterMut, BST};

fn build(values: &[i32]) -> BST<i32> {
    let mut bst = BST::<i32>::new();
    for v in values {
        bst.insert(*v);
    }
    bst
}

fn drain_owned(mut it: IntoIter<i32>) -> Vec<i32> {
    let mut out = Vec::new();
    while let Some(v) = it.next() {
        out.push(v);
    }
    out
}

fn drain_ref(mut it: Iter<'_, i32>) -> Vec<i32> {
    let mut out = Vec::new();
    while let Some(v) = it.next() {
        out.push(*v);
    }
    out
}

fn drain_mut(mut it: IterMut<'_, i32>) -> Vec<i32> {
    let mut out = Vec::new();
    while let Some(v) = it.next() {
        out.push(*v);
    }
    out
}

#[test]
fn basics() {
    let mut bst = BST::<i32>::new();
    assert_eq!(true, bst.insert(10));
    assert_eq!(false, bst.insert(10));
    assert_eq!(true, bst.insert(20));
    assert_eq!(true, bst.insert(30));
    assert_eq!(true, bst.insert(40));
    assert_eq!(true, bst.search(40));
    assert_eq!(false, bst.search(50));
}

#[test]
fn into_iter() {
    let bst = build(&[8, 5, 11, 4, 6, 9, 12]);
    let expected = vec![4, 5, 6, 8, 9, 11, 12];
    let got = drain_owned(bst.into_iter());
    assert_eq!(expected.len(), got.len());
    for (expected, val) in expected.into_iter().zip(got.into_iter()) {
        assert_eq!(expected, val);
    }
}

#[test]
fn into_iter_ref() {
    let bst = build(&[8, 5, 11, 4, 6, 9, 12]);
    // The borrowing traversal is ascending, like the consuming one.
    let expected = vec![4, 5, 6, 8, 9, 11, 12];
    let bst_ref = &bst;
    let mut it = bst_ref.iter();
    let mut n = 0;
    for expected in expected.into_iter() {
        let val = it.next().unwrap();
        assert_eq!(expected, *val);
        n += 1;
    }
    assert!(it.next().is_none());
    assert_eq!(7, n);
    // The tree is still there after a read-only pass.
    assert!(bst.search(11));
}

#[test]
fn into_iter_mut() {
    let mut bst = build(&[8, 5, 11, 4, 6, 9, 12]);
    let expected = vec![4, 6, 5, 9, 12, 11, 8];
    let bst_ref = &mut bst;
    let mut it = bst_ref.iter_mut();
    for expected in expected.iter() {
        let val = it.next().unwrap();
        assert_eq!(*expected, *val);
        // modify the value of the node
        *val += 1;
    }
    assert!(it.next().is_none());

    // iterate again over the tree and confirm the modified values
    let mut it = bst_ref.iter_mut();
    for expected in expected.iter() {
        let val = it.next().unwrap();
        assert_eq!(*expected + 1, *val);
    }
    assert!(it.next().is_none());
}

#[test]
fn repeated_value_is_inserted_once() {
    let mut bst = BST::<i32>::new();
    let results: Vec<bool> = (0..5).map(|_| bst.insert(1)).collect();
    assert_eq!(vec![true, false, false, false, false], results);
    assert_eq!(vec![1], drain_ref(bst.iter()));
    assert_eq!(vec![1], drain_mut(bst.iter_mut()));
    assert_eq!(vec![1], drain_owned(bst.into_iter()));
}

#[test]
fn traversal_orders_of_a_balanced_tree() {
    let mut bst = build(&[8, 5, 11, 4, 6, 9, 12]);
    assert_eq!(vec![4, 5, 6, 8, 9, 11, 12], drain_ref(bst.iter()));
    assert_eq!(vec![4, 6, 5, 9, 12, 11, 8], drain_mut(bst.iter_mut()));
    assert_eq!(vec![4, 5, 6, 8, 9, 11, 12], drain_owned(bst.into_iter()));
}

#[test]
fn empty_tree_yields_nothing() {
    let mut bst = BST::<i32>::new();
    assert!(bst.iter().next().is_none());
    assert!(bst.iter_mut().next().is_none());
    let mut it = bst.iter();
    assert!(it.next().is_none());
    assert!(it.next().is_none());
    for v in [i32::MIN, -1, 0, 1, i32::MAX] {
        assert!(!bst.search(v));
    }
    let mut owned = bst.into_iter();
    assert!(owned.next().is_none());
    assert!(owned.next().is_none());
}

#[test]
fn ascending_after_arbitrary_insertions() {
    let values = [50, -3, 17, 17, 99, 0, -3, 42, 7, 64, 1, 50, -100];
    let mut bst = BST::<i32>::new();
    let mut accepted = 0;
    for v in values {
        if bst.insert(v) {
            accepted += 1;
        }
    }
    let asc = drain_ref(bst.iter());
    for w in asc.windows(2) {
        assert!(w[0] < w[1]);
    }
    assert_eq!(vec![-100, -3, 0, 1, 7, 17, 42, 50, 64, 99], asc);
    assert_eq!(accepted, asc.len());
    assert_eq!(accepted, drain_mut(bst.iter_mut()).len());
    for v in values {
        assert!(bst.search(v));
    }
    for v in [-1, 2, 100, 18, 49] {
        assert!(!bst.search(v));
    }
    assert_eq!(accepted, drain_owned(bst.into_iter()).len());
}

#[test]
fn degenerate_ascending_insertions() {
    let mut bst = build(&[1, 2, 3, 4, 5]);
    assert_eq!(vec![1, 2, 3, 4, 5], drain_ref(bst.iter()));
    assert_eq!(vec![5, 4, 3, 2, 1], drain_mut(bst.iter_mut()));
}

#[test]
fn increments_through_iter_mut_show_in_order() {
    let mut bst = build(&[8, 5, 11, 4, 6, 9, 12]);
    let mut it = bst.iter_mut();
    while let Some(v) = it.next() {
        *v += 1;
    }
    assert_eq!(vec![5, 6, 7, 9, 10, 12, 13], drain_ref(bst.iter()));
    assert!(bst.search(13));
    assert!(!bst.search(4));
}

#[test]
fn writes_that_reorder_follow_positions() {
    let mut bst = build(&[2, 1, 3]);
    let mut it = bst.iter_mut();
    // post-order: 1, 3, 2; overwrite with 30, 10, 20
    for new in [30, 10, 20] {
        *it.next().unwrap() = new;
    }
    assert_eq!(vec![30, 20, 10], drain_ref(bst.iter()));
    assert_eq!(vec![30, 10, 20], drain_mut(bst.iter_mut()));
}
