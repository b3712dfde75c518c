use skew_vector::skew_tree_vector::{BinTree, SkewTreeVector};
use skew_vector::stack::Stack;

fn elements(v: &SkewTreeVector<i32>) -> Vec<i32> {
    let mut out = Vec::new();
    let mut it = v.iter();
    while let Some(x) = it.next() {
        out.push(*x);
    }
    out
}

#[test]
fn round_trip_through_iteration() {
    for n in [0usize, 1, 2, 3, 4, 7, 8, 15, 100] {
        let s: Vec<i32> = (0..n as i32).map(|x| x * 3 - 7).collect();
        let v = SkewTreeVector::from_vec(s.clone());
        assert_eq!(elements(&v), s);
        assert_eq!(v.to_vec(), s);
        assert_eq!(v.len() as usize, n);
    }
}

#[test]
fn pop_then_push_restores_elements() {
    for n in 1..40 {
        let v = SkewTreeVector::from_vec((0..n).collect());
        let (x, tail) = v.pop();
        let back = tail.push(*x);
        assert_eq!(elements(&back), elements(&v));
        assert_eq!(back.len(), v.len());
    }
}

#[test]
fn get_agrees_with_iteration() {
    let v = SkewTreeVector::from_vec((0..77).map(|x| x * x).collect());
    let all = elements(&v);
    for ix in 0..v.len() {
        assert_eq!(*v.get(ix), all[ix as usize]);
    }
}

#[test]
fn empty_vector_reads() {
    let e = SkewTreeVector::<i32>::empty();
    assert_eq!(e.head(), None);
    assert!(e.is_empty());
    assert_eq!(e.len(), 0);
    assert_eq!(elements(&e), Vec::<i32>::new());
}

#[test]
fn boundary_indices() {
    let v = SkewTreeVector::from_vec(vec![10, 20, 30, 40, 50]);
    assert_eq!(*v.get(0), 10);
    assert_eq!(*v.get(4), 50);
}

#[test]
fn old_versions_stay_valid() {
    let a = SkewTreeVector::from_vec(vec![1, 2, 3]);
    let b = a.push(0);
    let (_, c) = a.pop();
    assert_eq!(elements(&a), vec![1, 2, 3]);
    assert_eq!(elements(&b), vec![0, 1, 2, 3]);
    assert_eq!(elements(&c), vec![2, 3]);
}

#[test]
fn push_four_then_iterate() {
    let x = SkewTreeVector::empty().push(4).push(3).push(2).push(1);
    assert_eq!(x.head(), Some(&1));
    assert_eq!(x.len(), 4);
    assert_eq!(elements(&x), vec![1, 2, 3, 4]);
    assert!(!x.is_empty());
}

#[test]
fn indexing_ascending() {
    let v = SkewTreeVector::from_vec((0..5000).collect());
    assert_eq!(*v.get(0), 0);
    assert_eq!(*v.get(500), 500);
    assert_eq!(*v.get(4999), 4999);
    assert_eq!(elements(&v), (0..5000).collect::<Vec<i32>>());
}

#[test]
fn drain_by_pops() {
    let mut v = SkewTreeVector::from_vec((0..300).collect());
    let mut seen = Vec::new();
    while !v.is_empty() {
        let (x, rest) = v.pop();
        seen.push(*x);
        v = rest;
    }
    assert_eq!(seen, (0..300).collect::<Vec<i32>>());
    assert_eq!(v.len(), 0);
}

#[test]
fn stack_pop_head_tail() {
    let s = Stack::from_vec(vec![1, 2, 3]);
    assert_eq!(s.head(), Some(&1));
    let (x, rest) = s.pop();
    assert_eq!(*x, 1);
    assert_eq!(rest.to_vec(), vec![2, 3]);
    assert_eq!(s.tail().to_vec(), vec![2, 3]);
    assert_eq!(s.to_vec(), vec![1, 2, 3]);
    let e = Stack::<i32>::empty();
    assert!(e.is_empty());
    assert_eq!(e.head(), None);
}

#[test]
fn stack_just_and_push_on_empty() {
    assert_eq!(Stack::just(7).to_vec(), vec![7]);
    assert_eq!(Stack::empty().push(1).to_vec(), vec![1]);
    assert_eq!(Stack::from_slice(&[1, 2, 3][..]).to_vec(), vec![1, 2, 3]);
}

#[test]
fn complete_tree_preorder() {
    let l = BinTree::join(2, &BinTree::just(3), &BinTree::just(4));
    let r = BinTree::join(5, &BinTree::just(6), &BinTree::just(7));
    let t = BinTree::join(1, &l, &r);
    assert_eq!(*t.head(), 1);
    let mut got = Vec::new();
    let mut it = t.iter();
    while let Some(x) = it.next() {
        got.push(*x);
    }
    assert_eq!(got, vec![1, 2, 3, 4, 5, 6, 7]);
    for ix in 0..7 {
        assert_eq!(*t.get(ix), got[ix as usize]);
    }
}

#[test]
fn stack_clone_shares_contents() {
    let s = Stack::from_vec(vec![4, 5, 6]);
    let c = s.clone();
    assert_eq!(c.to_vec(), vec![4, 5, 6]);
    assert_eq!(c.len(), 3);
}
