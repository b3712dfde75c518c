use skew_vector::stack::Stack;

#[test]
fn stack_empty() {
    assert_eq!(Stack::<i32>::empty().len(), 0);
}

#[test]
fn add() {
    let mut one = Stack::empty();
    one = one.push(1);
    assert_eq!(one.len(), 1);
}

#[test]
fn stack_into_iter() {
    let stk: Stack<i32> = Stack::empty();
    let stk = stk.push(3).push(2).push(1);
    let mut v: Vec<i32> = Vec::new();
    let mut it = stk.iter();
    while let Some(x) = it.next() {
        v.push(x.clone());
    }
    assert_eq!(v, vec![1i32, 2, 3]);

    let mut v = Vec::new();
    let mut it = stk.iter();
    while let Some(x) = it.next() {
        v.push(*x);
    }
    assert_eq!(v, vec![1i32, 2, 3]);
}

#[test]
fn stack_from_iter() {
    let vec = vec![1, 2, 3];
    let vec2 = vec.clone();
    let stk = Stack::from_vec(vec);
    assert_eq!(stk.to_vec(), vec2);
}

#[test]
fn from_slice() {
    let arr = [1, 2, 3];
    let vec = arr.to_vec();
    let stk = Stack::from_slice(&arr[..]);
    assert_eq!(stk.to_vec(), vec)
}
