use std::cell::RefCell;
use std::collections::HashSet;
use symdiff::SymmetricDifference;
use symdiff::Tag;

fn drain<T: Ord>(mut it: symdiff::SymDiffIter<T>) -> Vec<Tag<T>> {
    let mut out = Vec::new();
    while let Some(t) = it.next() {
        out.push(t);
    }
    out
}

#[test]
fn diff_works() {
    let left: Vec<i32> = vec![1, 2, 4, 5, 6, 8, 13, 15, 16];
    let right: Vec<i32> = vec![2, 3, 4, 5, 6, 7, 8];
    let set: HashSet<i32> = drain(left.clone().difference(right.clone()))
        .into_iter()
        .map(Tag::unwrap)
        .collect();
    let expected_diff: HashSet<i32> = {
        let l: HashSet<i32> = left.into_iter().collect();
        let r: HashSet<i32> = right.into_iter().collect();
        l.symmetric_difference(&r).map(|&x| x).collect()
    };

    assert_eq!(set, expected_diff);
}

#[test]
fn iter_difference_works() {
    let left: Vec<i32> = vec![1, 2, 4, 5, 6, 8, 13, 15, 16];
    let right: Vec<i32> = vec![2, 3, 4, 5, 6, 7, 8];
    let expected_diff: HashSet<i32> = {
        let l: HashSet<i32> = left.iter().map(|&x| x).collect();
        let r: HashSet<i32> = right.iter().map(|&x| x).collect();
        l.symmetric_difference(&r).map(|&x| x).collect()
    };

    let mut set = HashSet::new();
    left.iter_difference(right, |x| {
        set.insert(x.unwrap());
    });

    assert_eq!(set, expected_diff);
}

#[test]
fn pull_iterator_emits_in_merged_order() {
    let left: Vec<i32> = vec![1, 2, 4, 5, 6, 8, 13, 15, 16];
    let right: Vec<i32> = vec![2, 3, 4, 5, 6, 7, 8];
    let out = drain(left.difference(right));
    assert_eq!(
        out,
        vec![
            Tag::Left(1),
            Tag::Right(3),
            Tag::Right(7),
            Tag::Left(13),
            Tag::Left(15),
            Tag::Left(16),
        ]
    );
}

#[test]
fn output_values_are_nondecreasing() {
    let left: Vec<i32> = vec![1, 2, 4, 5, 6, 8, 13, 15, 16];
    let right: Vec<i32> = vec![2, 3, 4, 5, 6, 7, 8];
    let out = drain(left.difference(right));
    for pair in out.windows(2) {
        assert!(pair[0].value() <= pair[1].value());
    }
}

#[test]
fn empty_left_yields_right_tagged_right() {
    let left: Vec<i32> = vec![];
    let right: Vec<i32> = vec![1, 2, 3];
    let out = drain(left.difference(right));
    assert_eq!(out, vec![Tag::Right(1), Tag::Right(2), Tag::Right(3)]);
}

#[test]
fn empty_right_yields_left_tagged_left() {
    let left: Vec<i32> = vec![4, 9];
    let right: Vec<i32> = vec![];
    let out = drain(left.difference(right));
    assert_eq!(out, vec![Tag::Left(4), Tag::Left(9)]);
}

#[test]
fn both_empty_yield_nothing() {
    let left: Vec<i32> = vec![];
    let right: Vec<i32> = vec![];
    let mut it = left.difference(right);
    assert_eq!(it.next(), None);
    assert_eq!(it.next(), None);
}

#[test]
fn equal_inputs_cancel_completely() {
    let left: Vec<i32> = vec![-3, 0, 7, 7, 100];
    let right = left.clone();
    let out = drain(left.difference(right));
    assert_eq!(out, vec![]);
}

#[test]
fn duplicates_cancel_pairwise() {
    let left: Vec<i32> = vec![1, 1, 2];
    let right: Vec<i32> = vec![1, 2, 2];
    let out = drain(left.difference(right));
    assert_eq!(out, vec![Tag::Left(1), Tag::Right(2)]);
}

#[test]
fn three_variants_agree() {
    let left: Vec<i32> = vec![1, 2, 4, 5, 6, 8, 13, 15, 16];
    let right: Vec<i32> = vec![2, 3, 4, 5, 6, 7, 8];

    let pulled = drain(left.clone().difference(right.clone()));

    let mut tagged: Vec<Tag<i32>> = Vec::new();
    left.clone().iter_difference(right.clone(), |t| tagged.push(t));

    let split_log: RefCell<Vec<Tag<i32>>> = RefCell::new(Vec::new());
    left.split_difference(
        right,
        |x| split_log.borrow_mut().push(Tag::Left(x)),
        |x| split_log.borrow_mut().push(Tag::Right(x)),
    );

    assert_eq!(pulled, tagged);
    assert_eq!(pulled, split_log.into_inner());
}

#[test]
fn split_difference_dispatches_by_side() {
    let left: Vec<i32> = vec![1, 5, 9];
    let right: Vec<i32> = vec![2, 5, 10];
    let mut lefts = Vec::new();
    let mut rights = Vec::new();
    left.split_difference(right, |x| lefts.push(x), |x| rights.push(x));
    assert_eq!(lefts, vec![1, 9]);
    assert_eq!(rights, vec![2, 10]);
}

#[test]
fn early_termination_leaves_consistent_state() {
    let left: Vec<i32> = vec![1, 2, 3];
    let right: Vec<i32> = vec![2, 3, 4];
    let mut it = left.difference(right);
    assert_eq!(it.next(), Some(Tag::Left(1)));
    // the caller simply stops pulling; dropping the iterator is all it takes
    drop(it);
}
