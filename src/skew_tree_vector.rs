use std::sync::Arc;
use vstd::prelude::*;
use vstd::pervasive::unreached;
use crate::stack::{Stack, StackIter};

verus! {

/// Whether `n` is the size of a complete binary tree, that is `2^k - 1`
/// for some `k >= 1`.
pub open spec fn complete_size(n: int) -> bool
    decreases n,
{
    if n <= 1 {
        n == 1
    } else {
        n % 2 == 1 && complete_size((n - 1) / 2)
    }
}

/// Of two complete sizes, a larger one is at least twice the smaller plus one.
proof fn lemma_complete_gap(c: int, d: int)
    requires
        complete_size(c),
        complete_size(d),
        c < d,
    ensures
        2 * c + 1 <= d,
    decreases c,
{
    if c > 1 {
        lemma_complete_gap((c - 1) / 2, (d - 1) / 2);
    }
}

enum BinTreeNode<T> {
    Leaf(T),
    Parent(T, Arc<BinTreeNode<T>>, Arc<BinTreeNode<T>>),
}

impl<T> BinTreeNode<T> {
    /// The values in pre-order: the root, then the left subtree, then the
    /// right subtree.
    spec fn preorder(&self) -> Seq<T>
        decreases self,
    {
        match self {
            BinTreeNode::Leaf(v) => seq![*v],
            BinTreeNode::Parent(v, l, r) => seq![*v] + l.preorder() + r.preorder(),
        }
    }

    /// The node is the root of a complete tree of `size` nodes.
    spec fn complete(&self, size: int) -> bool
        decreases self,
    {
        match self {
            BinTreeNode::Leaf(_) => size == 1,
            BinTreeNode::Parent(_, l, r) => size > 1 && size % 2 == 1 && l.complete((size - 1) / 2)
                && r.complete((size - 1) / 2),
        }
    }

    proof fn lemma_complete_len(&self, size: int)
        requires
            self.complete(size),
        ensures
            self.preorder().len() == size,
            complete_size(size),
        decreases self,
    {
        match self {
            BinTreeNode::Leaf(_) => {},
            BinTreeNode::Parent(_, l, r) => {
                l.lemma_complete_len((size - 1) / 2);
                r.lemma_complete_len((size - 1) / 2);
            },
        }
    }
}

/// An immutable complete binary tree; subtrees are shared, never copied.
pub struct BinTree<T> {
    size: i32,
    root: Arc<BinTreeNode<T>>,
}

impl<T> View for BinTree<T> {
    type V = Seq<T>;

    /// The values in pre-order.
    closed spec fn view(&self) -> Seq<T> {
        self.root.preorder()
    }
}

impl<T> BinTree<T> {
    /// The tree is complete and its cached size is its number of nodes.
    pub closed spec fn wf(&self) -> bool {
        self.root.complete(self.size as int)
    }

    proof fn lemma_wf(&self)
        requires
            self.wf(),
        ensures
            self@.len() == self.size,
            complete_size(self.size as int),
    {
        self.root.lemma_complete_len(self.size as int);
    }

    /// The tree of one leaf.
    pub fn just(x: T) -> (r: Self)
        ensures
            r.wf(),
            r@ == seq![x],
    {
        BinTree { size: 1, root: Arc::new(BinTreeNode::Leaf(x)) }
    }

    /// The tree with root value `v` over two complete trees of equal size.
    pub fn join(v: T, left: &Self, right: &Self) -> (r: Self)
        requires
            left.wf(),
            right.wf(),
            left@.len() == right@.len(),
            1 + 2 * left@.len() <= i32::MAX,
        ensures
            r.wf(),
            r@ == seq![v] + left@ + right@,
    {
        proof {
            left.lemma_wf();
            right.lemma_wf();
        }
        BinTree {
            size: 1 + left.size + right.size,
            root: Arc::new(BinTreeNode::Parent(v, left.root.clone(), right.root.clone())),
        }
    }

    /// The value at the root.
    pub fn head(&self) -> (r: &T)
        requires
            self.wf(),
        ensures
            *r == self@[0],
    {
        match &*self.root {
            BinTreeNode::Leaf(v) => v,
            BinTreeNode::Parent(v, _, _) => v,
        }
    }

    /// The value at position `ix` of the pre-order, found by descending
    /// from the root.
    pub fn get(&self, ix: i32) -> (r: &T)
        requires
            self.wf(),
            0 <= ix < self@.len(),
        ensures
            *r == self@[ix as int],
    {
        proof { self.lemma_wf(); }
        let ghost target = self@[ix as int];
        let mut node: &BinTreeNode<T> = &*self.root;
        let mut size: i32 = self.size;
        let mut i: i32 = ix;
        loop
            invariant
                0 <= ix < self@.len(),
                target == self@[ix as int],
                node.complete(size as int),
                0 <= i < size,
                node.preorder().len() == size,
                node.preorder()[i as int] == target,
            decreases size,
        {
            match node {
                BinTreeNode::Leaf(v) => {
                    return v;
                },
                BinTreeNode::Parent(v, l, r) => {
                    if i == 0 {
                        return v;
                    }
                    proof {
                        l.lemma_complete_len((size - 1) / 2);
                        r.lemma_complete_len((size - 1) / 2);
                    }
                    i = i - 1;
                    size = (size - 1) / 2;
                    if i < size {
                        node = &**l;
                    } else {
                        i = i - size;
                        node = &**r;
                    }
                },
            }
        }
    }

    /// A pre-order cursor over the values. Each call starts afresh.
    pub fn iter(&self) -> (r: BinTreeIter<'_, T>)
        ensures
            r@ == self@,
    {
        let mut nodes: Vec<&BinTreeNode<T>> = Vec::new();
        nodes.push(&*self.root);
        proof {
            assert(nodes@.drop_last() =~= Seq::<&BinTreeNode<T>>::empty());
            assert(pending(Seq::<&BinTreeNode<T>>::empty()) == Seq::<T>::empty());
            assert(pending(nodes@) =~= self@);
        }
        BinTreeIter { nodes }
    }
}

impl<T> Clone for BinTree<T> {
    fn clone(&self) -> (r: Self)
        ensures
            r == *self,
    {
        BinTree { size: self.size, root: self.root.clone() }
    }
}

/// The values still to come from a frontier of pending subtrees; the last
/// subtree of the frontier comes first.
spec fn pending<T>(nodes: Seq<&BinTreeNode<T>>) -> Seq<T>
    decreases nodes.len(),
{
    if nodes.len() == 0 {
        Seq::empty()
    } else {
        nodes.last().preorder() + pending(nodes.drop_last())
    }
}

/// A pre-order cursor over a [`BinTree`], driven by an explicit frontier of
/// pending subtrees rather than by recursion.
pub struct BinTreeIter<'a, T> {
    nodes: Vec<&'a BinTreeNode<T>>,
}

impl<'a, T> View for BinTreeIter<'a, T> {
    type V = Seq<T>;

    /// The values not yet handed out.
    closed spec fn view(&self) -> Seq<T> {
        pending(self.nodes@)
    }
}

impl<'a, T> BinTreeIter<'a, T> {
    /// The next value in pre-order, or `None` once all have been handed out.
    pub fn next(&mut self) -> (r: Option<&'a T>)
        ensures
            old(self)@.len() == 0 ==> r.is_none() && final(self)@ == old(self)@,
            old(self)@.len() > 0 ==> (r matches Some(v) && *v == old(self)@[0]
                && final(self)@ == old(self)@.drop_first()),
    {
        match self.nodes.pop() {
            None => None,
            Some(node) => {
                let ghost rest = self.nodes@;
                assert(old(self).nodes@.drop_last() == rest);
                assert(old(self)@ == node.preorder() + pending(rest));
                match node {
                    BinTreeNode::Leaf(v) => {
                        assert(self@ =~= old(self)@.drop_first());
                        Some(v)
                    },
                    BinTreeNode::Parent(v, l, r) => {
                        self.nodes.push(&**r);
                        self.nodes.push(&**l);
                        proof {
                            let mid = rest.push(&**r);
                            assert(self.nodes@.drop_last() =~= mid);
                            assert(mid.drop_last() =~= rest);
                            assert(pending(mid) == r.preorder() + pending(rest));
                            assert(self@ == l.preorder() + pending(mid));
                            assert(self@ =~= old(self)@.drop_first());
                        }
                        Some(v)
                    },
                }
            },
        }
    }
}

/// Skew binary form of a list of tree sizes, read front to back: every size
/// is complete, the first two may be equal (then they are the smallest), and
/// from the second on the sizes strictly increase.
#[verifier::opaque]
pub open spec fn skew_form(s: Seq<int>) -> bool {
    &&& forall|i: int| 0 <= i < s.len() ==> complete_size(#[trigger] s[i])
    &&& s.len() >= 2 ==> s[0] <= s[1]
    &&& forall|i: int| 1 <= i < s.len() - 1 ==> #[trigger] s[i] < s[i + 1]
}

/// The tree sizes after a push: the two front trees merge under the new value
/// when they have equal size (the carry); otherwise a leaf goes in front.
pub open spec fn push_shape(s: Seq<int>) -> Seq<int> {
    if s.len() >= 2 && s[0] == s[1] {
        seq![2 * s[0] + 1] + s.skip(2)
    } else {
        seq![1] + s
    }
}

/// The tree sizes after a pop: a front leaf goes away; a larger front tree
/// gives way to its two subtrees (the borrow).
pub open spec fn pop_shape(s: Seq<int>) -> Seq<int> {
    if s[0] == 1 {
        s.skip(1)
    } else {
        seq![(s[0] - 1) / 2, (s[0] - 1) / 2] + s.skip(1)
    }
}

proof fn lemma_push_keeps_skew(s: Seq<int>)
    requires
        skew_form(s),
    ensures
        skew_form(push_shape(s)),
{
    reveal(skew_form);
    let p = push_shape(s);
    if s.len() >= 2 && s[0] == s[1] {
        assert(complete_size(2 * s[0] + 1));
        if s.len() >= 3 {
            assert(s[1] < s[2]);
            lemma_complete_gap(s[1], s[2]);
        }
        assert forall|i: int| 1 <= i < p.len() - 1 implies #[trigger] p[i] < p[i + 1] by {
            assert(p[i] == s[i + 1] && p[i + 1] == s[i + 2]);
        }
    } else {
        if s.len() >= 1 {
            assert(complete_size(s[0]));
        }
        assert forall|i: int| 1 <= i < p.len() - 1 implies #[trigger] p[i] < p[i + 1] by {
            if i >= 2 {
                assert(s[i - 1] < s[i]);
            }
        }
    }
}

proof fn lemma_pop_keeps_skew(s: Seq<int>)
    requires
        skew_form(s),
        s.len() > 0,
    ensures
        skew_form(pop_shape(s)),
{
    reveal(skew_form);
    let p = pop_shape(s);
    assert(complete_size(s[0]));
    if s[0] == 1 {
        assert forall|i: int| 1 <= i < p.len() - 1 implies #[trigger] p[i] < p[i + 1] by {
            assert(s[i + 1] < s[i + 2]);
        }
        if p.len() >= 2 {
            assert(s[1] < s[2]);
        }
    } else {
        if s.len() >= 2 {
            assert(s[0] <= s[1]);
        }
        assert forall|i: int| 1 <= i < p.len() - 1 implies #[trigger] p[i] < p[i + 1] by {
            if i >= 2 {
                assert(s[i - 1] < s[i]);
            }
        }
    }
}

/// Popping and then pushing the popped value restores the tree sizes: the
/// skew binary form of a length is unique, so no other arrangement of trees
/// can result.
pub proof fn lemma_pop_then_push_shape(s: Seq<int>)
    requires
        skew_form(s),
        s.len() > 0,
    ensures
        push_shape(pop_shape(s)) == s,
{
    reveal(skew_form);
    assert(complete_size(s[0]));
    if s[0] == 1 {
        if s.len() >= 3 {
            assert(s[1] < s[2]);
        }
        assert(seq![1] + s.skip(1) =~= s);
    } else {
        let p = pop_shape(s);
        assert(p.skip(2) =~= s.skip(1));
        assert(seq![s[0]] + s.skip(1) =~= s);
    }
}

/// The sum of a list of sizes.
pub open spec fn total(s: Seq<int>) -> int
    decreases s.len(),
{
    if s.len() == 0 {
        0
    } else {
        s[0] + total(s.drop_first())
    }
}

/// The elements of a list of trees: each tree's pre-order, front tree first.
spec fn forest<T>(ts: Seq<BinTree<T>>) -> Seq<T>
    decreases ts.len(),
{
    if ts.len() == 0 {
        Seq::empty()
    } else {
        ts[0]@ + forest(ts.drop_first())
    }
}

proof fn lemma_forest_len<T>(ts: Seq<BinTree<T>>)
    requires
        forall|i: int| 0 <= i < ts.len() ==> (#[trigger] ts[i]).wf(),
    ensures
        forest(ts).len() >= ts.len(),
        forest(ts).len() == total(sizes(ts)),
    decreases ts.len(),
{
    if ts.len() > 0 {
        assert(sizes(ts).drop_first() =~= sizes(ts.drop_first()));
        ts[0].lemma_wf();
        assert forall|i: int| 0 <= i < ts.drop_first().len() implies (#[trigger] ts.drop_first()[i]).wf() by {
            assert(ts.drop_first()[i] == ts[i + 1]);
        }
        lemma_forest_len(ts.drop_first());
    }
}

/// The sizes of a list of trees, front to back.
spec fn sizes<T>(ts: Seq<BinTree<T>>) -> Seq<int> {
    ts.map_values(|t: BinTree<T>| t.size as int)
}

proof fn lemma_tail_wf<T>(ts: Seq<BinTree<T>>)
    requires
        ts.len() > 0,
        forall|i: int| 0 <= i < ts.len() ==> (#[trigger] ts[i]).wf(),
    ensures
        forall|i: int| 0 <= i < ts.drop_first().len() ==> (#[trigger] ts.drop_first()[i]).wf(),
{
    assert forall|i: int| 0 <= i < ts.drop_first().len() implies (#[trigger] ts.drop_first()[i]).wf() by {
        assert(ts.drop_first()[i] == ts[i + 1]);
    }
}

/// The list of trees `tail` with the two subtrees of `head` in front, the
/// left one first.
fn spill<T>(head: &BinTree<T>, tail: Stack<BinTree<T>>) -> (l: Stack<BinTree<T>>)
    requires
        head.wf(),
        head.size > 1,
        tail@.len() + 2 < i32::MAX,
    ensures
        l@.len() == tail@.len() + 2,
        l@.skip(2) == tail@,
        l@[0].wf(),
        l@[1].wf(),
        l@[0].size == l@[1].size == (head.size - 1) / 2,
        forest(l@) == head@.drop_first() + forest(tail@),
{
    proof { head.lemma_wf(); }
    match &*head.root {
        BinTreeNode::Leaf(_) => tail,
        BinTreeNode::Parent(_, l, r) => {
            let child_size = (head.size - 1) / 2;
            let right = BinTree { size: child_size, root: r.clone() };
            let left = BinTree { size: child_size, root: l.clone() };
            proof {
                left.lemma_wf();
                right.lemma_wf();
            }
            let l1 = tail.push(right);
            let l2 = l1.push(left);
            proof {
                assert(l2@.drop_first() == l1@);
                assert(l1@.drop_first() == tail@);
                assert(l2@.skip(2) =~= tail@);
                assert(forest(l1@) == right@ + forest(tail@));
                assert(forest(l2@) == left@ + forest(l1@));
                assert(forest(l2@) =~= head@.drop_first() + forest(tail@));
            }
            l2
        },
    }
}

/// A persistent random-access sequence: a stack of complete binary trees
/// whose sizes are in skew binary form. Prepending and removing the front
/// take constant time and touch only the front trees; indexing takes
/// logarithmic time.
pub struct SkewTreeVector<T> {
    list: Stack<BinTree<T>>,
    size: i32,
}

impl<T> View for SkewTreeVector<T> {
    type V = Seq<T>;

    /// The elements, front to back.
    closed spec fn view(&self) -> Seq<T> {
        forest(self.list@)
    }
}

impl<T> SkewTreeVector<T> {
    /// The sizes of the trees, front to back.
    pub closed spec fn shape(&self) -> Seq<int> {
        sizes(self.list@)
    }

    /// Every tree is complete, the sizes are in skew binary form, and the
    /// cached size is the number of elements.
    pub closed spec fn wf(&self) -> bool {
        &&& forall|i: int| 0 <= i < self.list@.len() ==> (#[trigger] self.list@[i]).wf()
        &&& skew_form(self.shape())
        &&& self.size as int == self@.len()
    }

    pub fn empty() -> (r: Self)
        ensures
            r.wf(),
            r@ == Seq::<T>::empty(),
            r.shape() == Seq::<int>::empty(),
    {
        let r = SkewTreeVector { list: Stack::empty(), size: 0 };
        assert(r.shape() =~= Seq::<int>::empty());
        proof { reveal(skew_form); }
        r
    }

    /// The number of elements, which is also the sum of the tree sizes.
    pub fn len(&self) -> (r: i32)
        requires
            self.wf(),
        ensures
            r as int == self@.len(),
            r as int == total(self.shape()),
    {
        proof { lemma_forest_len(self.list@); }
        self.size
    }

    pub fn is_empty(&self) -> (r: bool)
        requires
            self.wf(),
        ensures
            r == (self@.len() == 0),
    {
        self.len() == 0
    }

    /// The front element, if any; never fails.
    pub fn head(&self) -> (r: Option<&T>)
        requires
            self.wf(),
        ensures
            self@.len() == 0 ==> r.is_none(),
            self@.len() > 0 ==> (r matches Some(v) && *v == self@[0]),
    {
        match self.list.head() {
            None => None,
            Some(t) => {
                proof { t.lemma_wf(); }
                Some(t.head())
            },
        }
    }

    /// A new vector with `x` in front. When the two front trees have equal
    /// size they become the subtrees of a new tree rooted at `x`; otherwise
    /// `x` goes in front as a leaf. At most one merge happens.
    pub fn push(&self, x: T) -> (r: Self)
        requires
            self.wf(),
            self@.len() < i32::MAX,
        ensures
            r.wf(),
            r@ == seq![x] + self@,
            r.shape() == push_shape(self.shape()),
    {
        let ghost ts = self.list@;
        proof {
            lemma_forest_len(ts);
            lemma_push_keeps_skew(self.shape());
        }
        let new_list = if self.list.len() >= 2 {
            let (a, tail) = self.list.pop();
            let (b, rest) = tail.pop();
            proof {
                assert(ts[1] == *b);
                a.lemma_wf();
                b.lemma_wf();
                assert(forest(tail@) == b@ + forest(rest@));
                assert(forest(ts) == a@ + forest(tail@));
            }
            if a.size == b.size {
                let t = BinTree::join(x, a, b);
                proof {
                    t.lemma_wf();
                    lemma_forest_len(rest@);
                    assert(rest@ =~= ts.skip(2));
                }
                let l = rest.push(t);
                proof {
                    assert(l@.drop_first() == rest@);
                    assert(forest(l@) =~= seq![x] + forest(ts));
                    assert(sizes(l@) =~= push_shape(sizes(ts)));
                    assert forall|i: int| 0 <= i < l@.len() implies (#[trigger] l@[i]).wf() by {
                        if i > 0 {
                            assert(l@[i] == ts[i + 1]);
                        }
                    }
                }
                l
            } else {
                self.push_leaf(x)
            }
        } else {
            self.push_leaf(x)
        };
        SkewTreeVector { list: new_list, size: self.size + 1 }
    }

    /// The front element and the vector behind it. A front leaf is dropped;
    /// a larger front tree is replaced by its two subtrees, left in front.
    /// The vector must not be empty: callers check `len` or `is_empty` first.
    pub fn pop(&self) -> (r: (&T, Self))
        requires
            self.wf(),
            self@.len() > 0,
        ensures
            *r.0 == self@[0],
            r.1.wf(),
            r.1@ == self@.drop_first(),
            r.1.shape() == pop_shape(self.shape()),
    {
        let ghost ts = self.list@;
        proof { lemma_forest_len(ts); }
        let (head, tail) = self.list.pop();
        proof {
            head.lemma_wf();
            lemma_pop_keeps_skew(self.shape());
            assert(forest(ts) == head@ + forest(tail@));
        }
        let v = head.head();
        proof {
            lemma_tail_wf(ts);
            assert(tail@ == ts.drop_first());
            lemma_forest_len(tail@);
        }
        let new_list = if head.size == 1 {
            proof {
                assert(sizes(ts).skip(1) =~= sizes(tail@));
            }
            tail
        } else {
            let l = spill(head, tail);
            proof {
                assert(sizes(l@) =~= pop_shape(sizes(ts))) by {
                    assert(sizes(ts)[0] == head.size);
                    assert(sizes(ts).skip(1) =~= sizes(tail@));
                    assert(sizes(l@).skip(2) =~= sizes(tail@));
                    assert(sizes(l@)[0] == (head.size - 1) / 2);
                    assert(sizes(l@)[1] == (head.size - 1) / 2);
                }
                assert forall|i: int| 0 <= i < l@.len() implies (#[trigger] l@[i]).wf() by {
                    if i >= 2 {
                        assert(l@[i] == l@.skip(2)[i - 2]);
                    }
                }
            }
            l
        };
        proof {
            assert(forest(new_list@) =~= self@.drop_first());
        }
        (v, SkewTreeVector { list: new_list, size: self.size - 1 })
    }

    /// The element at position `ix`: the trees are scanned front to back
    /// until the one holding the position, which is then searched. The
    /// index must lie in `[0, len)`.
    pub fn get(&self, ix: i32) -> (r: &T)
        requires
            self.wf(),
            0 <= ix < self@.len(),
        ensures
            *r == self@[ix as int],
    {
        let ghost target = self@[ix as int];
        let mut trees = self.list.iter();
        let mut i: i32 = ix;
        loop
            invariant
                0 <= ix < self@.len(),
                target == self@[ix as int],
                forall|k: int| 0 <= k < trees@.len() ==> (#[trigger] trees@[k]).wf(),
                0 <= i < forest(trees@).len(),
                forest(trees@)[i as int] == target,
            decreases trees@.len(),
        {
            let ghost before = trees@;
            match trees.next() {
                None => {
                    return unreached();
                },
                Some(t) => {
                    proof {
                        t.lemma_wf();
                        assert(forest(before) == t@ + forest(trees@));
                        assert forall|k: int| 0 <= k < trees@.len() implies (#[trigger] trees@[k]).wf() by {
                            assert(trees@[k] == before[k + 1]);
                        }
                    }
                    if i < t.size {
                        return t.get(i);
                    }
                    i = i - t.size;
                },
            }
        }
    }

    /// A front-to-back cursor over the elements. Each call starts afresh.
    pub fn iter(&self) -> (r: SkewTreeIter<'_, T>)
        ensures
            r@ == self@,
    {
        let r = SkewTreeIter { stack_iter: self.list.iter(), tree_iter: BinTreeIter { nodes: Vec::new() } };
        assert(pending(Seq::<&BinTreeNode<T>>::empty()) == Seq::<T>::empty());
        assert(r@ =~= self@);
        r
    }

    /// The vector whose front-to-back order is the order of `v`: the
    /// elements are pushed from the last to the first.
    pub fn from_vec(v: Vec<T>) -> (r: Self)
        requires
            v@.len() <= i32::MAX,
        ensures
            r.wf(),
            r@ == v@,
    {
        let mut v = v;
        let ghost all = v@;
        let mut acc: SkewTreeVector<T> = SkewTreeVector::empty();
        while v.len() > 0
            invariant
                all.len() <= i32::MAX,
                acc.wf(),
                v@ + acc@ == all,
            decreases v.len(),
        {
            let x = v.pop().unwrap();
            let ghost before = acc@;
            acc = acc.push(x);
            assert(v@ + acc@ =~= (v@.push(x)) + before);
        }
        assert(acc@ =~= all);
        acc
    }

    /// The list of trees with a leaf holding `x` in front.
    fn push_leaf(&self, x: T) -> (l: Stack<BinTree<T>>)
        requires
            self.wf(),
            self@.len() < i32::MAX,
            !(self.shape().len() >= 2 && self.shape()[0] == self.shape()[1]),
        ensures
            forall|i: int| 0 <= i < l@.len() ==> (#[trigger] l@[i]).wf(),
            forest(l@) == seq![x] + self@,
            sizes(l@) == push_shape(self.shape()),
    {
        let ghost ts = self.list@;
        proof { lemma_forest_len(ts); }
        let t = BinTree::just(x);
        proof { t.lemma_wf(); }
        let l = self.list.push(t);
        proof {
            assert(l@.drop_first() == ts);
            assert(forest(l@) =~= seq![x] + forest(ts));
            assert(sizes(l@) =~= push_shape(sizes(ts)));
            assert forall|i: int| 0 <= i < l@.len() implies (#[trigger] l@[i]).wf() by {
                if i > 0 {
                    assert(l@[i] == ts[i - 1]);
                }
            }
        }
        l
    }
}

impl<T: Clone> SkewTreeVector<T> {
    /// A copy of every element, front to back, gathered through [`Self::iter`].
    pub fn to_vec(&self) -> (r: Vec<T>)
        ensures
            r@.len() == self@.len(),
            forall|i: int| 0 <= i < self@.len() ==> cloned::<T>(self@[i], #[trigger] r@[i]),
    {
        let mut out: Vec<T> = Vec::new();
        let mut it = self.iter();
        loop
            invariant
                out@.len() + it@.len() == self@.len(),
                it@ == self@.skip(out@.len() as int),
                forall|i: int| 0 <= i < out@.len() ==> cloned::<T>(self@[i], #[trigger] out@[i]),
            ensures
                it@.len() == 0,
            decreases it@.len(),
        {
            match it.next() {
                None => break,
                Some(x) => {
                    assert(*x == self@[out@.len() as int]);
                    out.push(x.clone());
                    assert(self@.skip(out@.len() as int) =~= self@.skip(out@.len() - 1).drop_first());
                },
            }
        }
        out
    }
}

/// Popping the front element of a non-empty vector and pushing it back onto
/// the rest gives the vector back: the same elements in the same trees.
pub proof fn lemma_pop_push_inverse<T>(v: &SkewTreeVector<T>)
    requires
        v.wf(),
        v@.len() > 0,
    ensures
        seq![v@[0]] + v@.drop_first() == v@,
        push_shape(pop_shape(v.shape())) == v.shape(),
{
    lemma_forest_len(v.list@);
    lemma_pop_then_push_shape(v.shape());
    assert(seq![v@[0]] + v@.drop_first() =~= v@);
}

/// A front-to-back cursor over a [`SkewTreeVector`]: an outer cursor over the
/// trees and an inner pre-order cursor over the current tree.
pub struct SkewTreeIter<'a, T> {
    stack_iter: StackIter<'a, BinTree<T>>,
    tree_iter: BinTreeIter<'a, T>,
}

impl<'a, T> View for SkewTreeIter<'a, T> {
    type V = Seq<T>;

    /// The elements not yet handed out.
    closed spec fn view(&self) -> Seq<T> {
        self.tree_iter@ + forest(self.stack_iter@)
    }
}

impl<'a, T> SkewTreeIter<'a, T> {
    /// The next element, or `None` once all have been handed out.
    pub fn next(&mut self) -> (r: Option<&'a T>)
        ensures
            old(self)@.len() == 0 ==> r.is_none() && final(self)@ == old(self)@,
            old(self)@.len() > 0 ==> (r matches Some(v) && *v == old(self)@[0]
                && final(self)@ == old(self)@.drop_first()),
    {
        loop
            invariant
                self@ == old(self)@,
            decreases self.stack_iter@.len(), self.tree_iter@.len(),
        {
            match self.tree_iter.next() {
                Some(x) => {
                    assert(self@ =~= old(self)@.drop_first());
                    return Some(x);
                },
                None => {},
            }
            let ghost trees = self.stack_iter@;
            match self.stack_iter.next() {
                Some(tree) => {
                    self.tree_iter = tree.iter();
                    assert(forest(trees) == tree@ + forest(self.stack_iter@));
                },
                None => {
                    return None;
                },
            }
        }
    }
}

} // verus!
