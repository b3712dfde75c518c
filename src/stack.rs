use std::sync::Arc;
use vstd::prelude::*;
use vstd::pervasive::unreached;

verus! {

enum Node<T> {
    Empty,
    Cons(T, Arc<Node<T>>),
}

impl<T> Node<T> {
    /// The elements reachable from this node, front to back.
    spec fn items(&self) -> Seq<T>
        decreases self,
    {
        match self {
            Node::Empty => Seq::empty(),
            Node::Cons(v, tail) => seq![*v] + tail.items(),
        }
    }
}

/// A persistent LIFO collection. Every update returns a new stack that shares
/// the unchanged tail with the old one; nodes are never mutated.
pub struct Stack<T> {
    root: Arc<Node<T>>,
    len: i32,
}

impl<T> View for Stack<T> {
    type V = Seq<T>;

    closed spec fn view(&self) -> Seq<T> {
        self.root.items()
    }
}

impl<T> Stack<T> {
    /// The cached length counts the nodes reachable from the root.
    #[verifier::type_invariant]
    spec fn cached_len_matches(&self) -> bool {
        self.len as int == self.root.items().len()
    }

    pub fn empty() -> (r: Self)
        ensures
            r@ == Seq::<T>::empty(),
    {
        Stack { root: Arc::new(Node::Empty), len: 0 }
    }

    pub fn len(&self) -> (r: i32)
        ensures
            r as int == self@.len(),
    {
        proof { use_type_invariant(self); }
        self.len
    }

    pub fn is_empty(&self) -> (r: bool)
        ensures
            r == (self@.len() == 0),
    {
        proof { use_type_invariant(self); }
        self.len == 0
    }

    /// A new stack with `v` in front; the old stack is shared as its tail.
    pub fn push(&self, v: T) -> (r: Self)
        requires
            self@.len() < i32::MAX,
        ensures
            r@ == seq![v] + self@,
    {
        proof { use_type_invariant(self); }
        Stack { root: Arc::new(Node::Cons(v, self.root.clone())), len: self.len + 1 }
    }

    /// The front element and the stack behind it. The stack must not be
    /// empty: callers check `len` or `is_empty` first.
    pub fn pop(&self) -> (r: (&T, Self))
        requires
            self@.len() > 0,
        ensures
            *r.0 == self@[0],
            r.1@ == self@.drop_first(),
    {
        proof { use_type_invariant(self); }
        match &*self.root {
            Node::Empty => unreached(),
            Node::Cons(v, tail) => {
                assert(self@.drop_first() == tail.items());
                (v, Stack { root: tail.clone(), len: self.len - 1 })
            },
        }
    }

    /// The stack without its front element; it must not be empty.
    pub fn tail(&self) -> (r: Self)
        requires
            self@.len() > 0,
        ensures
            r@ == self@.drop_first(),
    {
        let (_, tail) = self.pop();
        tail
    }

    /// The front element, if any; never fails.
    pub fn head(&self) -> (r: Option<&T>)
        ensures
            self@.len() == 0 ==> r.is_none(),
            self@.len() > 0 ==> (r matches Some(v) && *v == self@[0]),
    {
        match &*self.root {
            Node::Empty => None,
            Node::Cons(v, _) => Some(v),
        }
    }

    /// The stack holding `x` alone.
    pub fn just(x: T) -> (r: Self)
        ensures
            r@ == seq![x],
    {
        let e = Stack::empty();
        let r = e.push(x);
        assert(r@ =~= seq![x]);
        r
    }

    /// A cursor over the elements, front to back. Each call starts afresh.
    pub fn iter(&self) -> (r: StackIter<'_, T>)
        ensures
            r@ == self@,
    {
        StackIter { cur: &*self.root }
    }

    /// The stack whose front-to-back order is the order of `v`: the elements
    /// are pushed from the last to the first.
    pub fn from_vec(v: Vec<T>) -> (r: Self)
        requires
            v@.len() <= i32::MAX,
        ensures
            r@ == v@,
    {
        let mut v = v;
        let ghost all = v@;
        let mut acc: Stack<T> = Stack::empty();
        while v.len() > 0
            invariant
                all.len() <= i32::MAX,
                v@ + acc@ == all,
            decreases v.len(),
        {
            let x = v.pop().unwrap();
            let ghost before = acc@;
            acc = acc.push(x);
            assert(v@ + acc@ =~= (v@.push(x)) + before);
        }
        assert(acc@ =~= all);
        acc
    }
}

impl<T: Clone> Stack<T> {
    /// A copy of every element, front to back.
    pub fn to_vec(&self) -> (r: Vec<T>)
        ensures
            r@.len() == self@.len(),
            forall|i: int| 0 <= i < self@.len() ==> cloned::<T>(self@[i], #[trigger] r@[i]),
    {
        let mut out: Vec<T> = Vec::new();
        let mut it = self.iter();
        loop
            invariant
                out@.len() + it@.len() == self@.len(),
                it@ == self@.skip(out@.len() as int),
                forall|i: int| 0 <= i < out@.len() ==> cloned::<T>(self@[i], #[trigger] out@[i]),
            ensures
                it@.len() == 0,
            decreases it@.len(),
        {
            match it.next() {
                None => break,
                Some(x) => {
                    assert(*x == self@[out@.len() as int]);
                    out.push(x.clone());
                    assert(self@.skip(out@.len() as int) =~= self@.skip(out@.len() - 1).drop_first());
                },
            }
        }
        out
    }

    /// The stack whose front-to-back order is the order of `s`, each element
    /// copied.
    pub fn from_slice(s: &[T]) -> (r: Self)
        requires
            s@.len() <= i32::MAX,
        ensures
            r@.len() == s@.len(),
            forall|i: int| 0 <= i < s@.len() ==> cloned::<T>(s@[i], #[trigger] r@[i]),
    {
        let mut acc: Stack<T> = Stack::empty();
        let mut i: usize = s.len();
        while i > 0
            invariant
                s@.len() <= i32::MAX,
                i <= s@.len(),
                acc@.len() == s@.len() - i,
                forall|j: int| i <= j < s@.len() ==> cloned::<T>(s@[j], #[trigger] acc@[j - i]),
            decreases i,
        {
            i = i - 1;
            let x = s[i].clone();
            let ghost before = acc@;
            acc = acc.push(x);
            assert forall|j: int| i <= j < s@.len() implies cloned::<T>(s@[j], #[trigger] acc@[j - i]) by {
                if j > i {
                    assert(acc@[j - i] == before[j - (i + 1)]);
                }
            }
        }
        assert forall|j: int| 0 <= j < s@.len() implies cloned::<T>(s@[j], #[trigger] acc@[j]) by {
            assert(acc@[j - i] == acc@[j]);
        }
        acc
    }
}

impl<T> Clone for Stack<T> {
    /// Another handle on the same nodes; nothing is copied.
    fn clone(&self) -> (r: Self)
        ensures
            r@ == self@,
    {
        proof { use_type_invariant(self); }
        Stack { root: self.root.clone(), len: self.len }
    }
}

/// A front-to-back cursor over a [`Stack`]; it borrows the stack's nodes.
pub struct StackIter<'a, T> {
    cur: &'a Node<T>,
}

impl<'a, T> View for StackIter<'a, T> {
    type V = Seq<T>;

    /// The elements not yet handed out.
    closed spec fn view(&self) -> Seq<T> {
        self.cur.items()
    }
}

impl<'a, T> StackIter<'a, T> {
    /// The next element, or `None` once all have been handed out.
    pub fn next(&mut self) -> (r: Option<&'a T>)
        ensures
            old(self)@.len() == 0 ==> r.is_none() && final(self)@ == old(self)@,
            old(self)@.len() > 0 ==> (r matches Some(v) && *v == old(self)@[0]
                && final(self)@ == old(self)@.drop_first()),
    {
        match self.cur {
            Node::Empty => None,
            Node::Cons(v, tail) => {
                self.cur = &**tail;
                Some(v)
            },
        }
    }
}

} // verus!
