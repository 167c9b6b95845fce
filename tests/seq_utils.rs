use bst::{dedup, filter, hanoi, sum, Peg};

#[test]
fn test_sum_zero() {
    let array = [1, 2, 3, 4, 5, -5, -4, -3, -2, -1, 100, -100];
    assert_eq!(sum(&array), 0);
}

#[test]
fn sum_values() {
    assert_eq!(sum(&[]), 0);
    assert_eq!(sum(&[7, -2, 10]), 15);
    assert_eq!(sum(&[i32::MAX, i32::MAX, 1]), 2 * (i32::MAX as i128) + 1);
    assert_eq!(sum(&[i32::MIN, i32::MIN]), 2 * (i32::MIN as i128));
}

#[test]
fn test_dedup_once() {
    let vs = vec![1, 1, 1, 1, 1];
    assert_eq!(dedup(&vs), vec![1]);
}

#[test]
fn dedup_keeps_first_occurrences_in_order() {
    assert_eq!(dedup(&vec![]), Vec::<i32>::new());
    assert_eq!(dedup(&vec![3, 1, 3, 2, 1, 4]), vec![3, 1, 2, 4]);
}

fn negative_predicate(x: i32) -> bool {
    x < 0
}

#[test]
fn test_filter_negative() {
    let vs = vec![1, -2, 3, -4, 5];
    assert_eq!(filter(&vs, &negative_predicate), vec![-2, -4]);
}

#[test]
fn filter_with_closure() {
    let vs = vec![4, 7, 10, 13];
    assert_eq!(filter(&vs, &|x: i32| x % 2 == 0), vec![4, 10]);
    assert_eq!(filter(&vs, &|_x: i32| false), Vec::<i32>::new());
}

#[test]
fn test_hanoi_4_disks() {
    let result = hanoi(4, Peg::A, Peg::B, Peg::C);
    assert_eq!(15, result.len());
}

#[test]
fn hanoi_two_disks() {
    assert_eq!(hanoi(0, Peg::A, Peg::B, Peg::C), vec![]);
    assert_eq!(
        hanoi(2, Peg::A, Peg::B, Peg::C),
        vec![(Peg::A, Peg::B), (Peg::A, Peg::C), (Peg::B, Peg::C)]
    );
}
