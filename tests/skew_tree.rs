use skew_vector::skew_tree_vector::{SkewTreeIter, SkewTreeVector};

fn collect(mut it: SkewTreeIter<'_, i32>) -> Vec<i32> {
    let mut out = Vec::new();
    while let Some(x) = it.next() {
        out.push(*x);
    }
    out
}

#[test]
fn skew_tree_empty() {
    let empty = SkewTreeVector::<i32>::empty();
    assert_eq!(empty.len(), 0);
}

#[test]
fn push1() {
    let just_one = SkewTreeVector::empty().push(1);
    assert_eq!(just_one.len(), 1);
    assert_eq!(just_one.head(), Some(&1));
}

#[test]
fn push4() {
    let x = SkewTreeVector::empty().push(4);
    assert_eq!(x.head().cloned(), Some(4));
    let x = x.push(3);
    assert_eq!(x.head().cloned(), Some(3));
    let x = x.push(2);
    assert_eq!(x.head().cloned(), Some(2));
    let x = x.push(1);
    assert_eq!(x.head().cloned(), Some(1));

    assert_eq!(x.len(), 4);
}

#[test]
fn skew_tree_into_iter() {
    let just_three = SkewTreeVector::empty().push(3).push(2).push(1);
    let vec: Vec<i32> = collect(just_three.iter());
    assert_eq!(vec, vec![1, 2, 3])
}

#[test]
fn pop() {
    let three = SkewTreeVector::empty().push(3).push(2).push(1);
    let (x, tail) = three.pop();
    assert_eq!(*x, 1);
    let (x, tail) = tail.pop();
    assert_eq!(*x, 2);
    let (x, tail) = tail.pop();
    assert_eq!(*x, 3);
    assert_eq!(tail.len(), 0);
    assert_eq!(collect(tail.iter()), Vec::<i32>::new());
}

#[test]
fn skew_tree_from_iter() {
    let big_vec = (0..5000).collect::<Vec<i32>>();
    let big_skew: SkewTreeVector<i32> = SkewTreeVector::from_vec(big_vec.clone());
    assert_eq!(collect(big_skew.iter()), big_vec);
}

#[test]
fn indexing() {
    let big_skew: SkewTreeVector<i32> = SkewTreeVector::from_vec((1..5001).map(|x| -x).collect());
    assert_eq!(big_skew.len(), 5000);
    assert_eq!(*big_skew.get(0), -1);
    assert_eq!(*big_skew.get(500), -501);
    assert_eq!(*big_skew.get(4999), -5000);
}
