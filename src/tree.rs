//! The tree itself: nodes, links, insertion and search.
use vstd::prelude::*;
use std::collections::VecDeque;
use crate::order::{lt, is_strict_total_order, strictly_increasing};

verus! {

/// An empty slot, or the root of a subtree that it owns.
pub struct Link<T: PartialOrd + Copy>(pub(crate) Option<Box<Node<T>>>);

/// One element and the two subtrees beneath it.
pub struct Node<T: PartialOrd + Copy> {
    pub(crate) elem: T,
    pub(crate) left: Link<T>,
    pub(crate) right: Link<T>,
}

impl<T: PartialOrd + Copy> Node<T> {
    /// The element that this node holds.
    pub closed spec fn value(self) -> T {
        self.elem
    }

    /// Whether both subtrees beneath this node are empty.
    pub closed spec fn is_leaf(self) -> bool {
        self.left.0.is_none() && self.right.0.is_none()
    }

    /// A subtree of one node, holding `elem`.
    pub fn boxed(elem: T) -> (r: Box<Self>)
        ensures
            r.value() == elem,
            r.is_leaf(),
    {
        Box::new(Node { elem, left: Link(None), right: Link(None) })
    }
}

impl<T: PartialOrd + Copy> Link<T> {
    /// The elements in in-order position (left, node, right).
    pub closed spec fn in_seq(self) -> Seq<T>
        decreases self,
    {
        match self.0 {
            None => Seq::empty(),
            Some(n) => n.left.in_seq().push(n.elem) + n.right.in_seq(),
        }
    }

    /// Whether the descent that `search` makes from here finds `e`.
    pub closed spec fn finds(self, e: T) -> bool
        decreases self,
    {
        match self.0 {
            None => false,
            Some(n) => if e == n.elem {
                true
            } else if lt(e, n.elem) {
                n.left.finds(e)
            } else {
                n.right.finds(e)
            },
        }
    }

    /// The link after the descent that `insert` makes from here places `e`.
    pub closed spec fn inserted(self, e: T) -> Link<T>
        decreases self,
    {
        match self.0 {
            None => Link(Some(Box::new(Node { elem: e, left: Link(None), right: Link(None) }))),
            Some(n) => if e == n.elem {
                self
            } else if lt(e, n.elem) {
                Link(Some(Box::new(Node { elem: n.elem, left: n.left.inserted(e), right: n.right })))
            } else {
                Link(Some(Box::new(Node { elem: n.elem, left: n.left, right: n.right.inserted(e) })))
            },
        }
    }

    /// Every node's left subtree holds only smaller elements, and its right
    /// subtree only greater ones.
    pub closed spec fn is_bst(self) -> bool
        decreases self,
    {
        match self.0 {
            None => true,
            Some(n) => {
                &&& n.left.is_bst()
                &&& n.right.is_bst()
                &&& forall|x: T| #[trigger] n.left.in_seq().contains(x) ==> lt(x, n.elem)
                &&& forall|x: T| #[trigger] n.right.in_seq().contains(x) ==> lt(n.elem, x)
            },
        }
    }

    /// The elements in post-order (left, right, node).
    pub closed spec fn post_seq(self) -> Seq<T>
        decreases self,
    {
        match self.0 {
            None => Seq::empty(),
            Some(n) => (n.left.post_seq() + n.right.post_seq()).push(n.elem),
        }
    }

    proof fn lemma_finds_iff_contains(self, e: T)
        requires
            is_strict_total_order::<T>(),
            self.is_bst(),
        ensures
            self.finds(e) <==> self.in_seq().contains(e),
        decreases self,
    {
        if let Some(n) = self.0 {
            n.left.lemma_finds_iff_contains(e);
            n.right.lemma_finds_iff_contains(e);
            lemma_contains_split(n.left.in_seq(), n.elem, n.right.in_seq(), e);
            if n.right.in_seq().contains(e) {
                assert(lt(n.elem, e));
            }
            if n.left.in_seq().contains(e) {
                assert(lt(e, n.elem));
            }
        }
    }

    proof fn lemma_inserted(self, e: T)
        requires
            is_strict_total_order::<T>(),
            self.is_bst(),
        ensures
            self.inserted(e).is_bst(),
            forall|x: T| #[trigger] self.inserted(e).in_seq().contains(x)
                <==> (self.in_seq().contains(x) || x == e),
        decreases self,
    {
        match self.0 {
            None => {
                let t = self.inserted(e);
                assert(t.in_seq() =~= seq![e]);
                assert forall|x: T| #[trigger] t.in_seq().contains(x) <==> x == e by {
                    if x == e {
                        assert(t.in_seq()[0] == x);
                    }
                }
            },
            Some(n) => {
                n.left.lemma_inserted(e);
                n.right.lemma_inserted(e);
                let t = self.inserted(e);
                let tn = t.0.unwrap();
                assert forall|x: T| #[trigger] t.in_seq().contains(x)
                    <==> (self.in_seq().contains(x) || x == e) by {
                    lemma_contains_split(n.left.in_seq(), n.elem, n.right.in_seq(), x);
                    lemma_contains_split(tn.left.in_seq(), tn.elem, tn.right.in_seq(), x);
                    lemma_contains_split(n.left.in_seq(), n.elem, n.right.in_seq(), e);
                }
                if lt(e, n.elem) {
                    assert(e != n.elem);
                }
            },
        }
    }

    proof fn lemma_sorted(self)
        requires
            is_strict_total_order::<T>(),
            self.is_bst(),
        ensures
            strictly_increasing(self.in_seq()),
        decreases self,
    {
        if let Some(n) = self.0 {
            n.left.lemma_sorted();
            n.right.lemma_sorted();
            let l = n.left.in_seq();
            let r = n.right.in_seq();
            let s = self.in_seq();
            assert(s =~= l.push(n.elem) + r);
            assert forall|i: int, j: int| 0 <= i < j < s.len() implies #[trigger] lt(s[i], s[j]) by {
                let ll = l.len() as int;
                if j < ll {
                    assert(s[i] == l[i] && s[j] == l[j]);
                } else if i < ll {
                    assert(l.contains(s[i]));
                    if j > ll {
                        assert(r.contains(s[j]));
                        assert(lt(s[i], n.elem));
                        assert(lt(n.elem, s[j]));
                    }
                } else if i == ll {
                    assert(r.contains(s[j]));
                } else {
                    assert(s[i] == r[i - ll - 1] && s[j] == r[j - ll - 1]);
                }
            }
        }
    }

    /// Descends to the slot where `elem` belongs and attaches it there,
    /// unless the descent meets `elem` on the way.
    fn insert(&mut self, elem: T) -> (r: bool)
        requires
            is_strict_total_order::<T>(),
        ensures
            r == !old(self).finds(elem),
            *final(self) == old(self).inserted(elem),
        decreases *old(self),
    {
        match &mut self.0 {
            None => {
                self.0 = Some(Node::boxed(elem));
                true
            },
            Some(node) => {
                if elem == node.elem {
                    false
                } else if elem < node.elem {
                    node.left.insert(elem)
                } else {
                    node.right.insert(elem)
                }
            },
        }
    }

    /// Copies of the elements, in in-order position.
    fn inorder(&self) -> (r: VecDeque<T>)
        ensures
            r@ == self.in_seq(),
        decreases self,
    {
        match &self.0 {
            None => VecDeque::new(),
            Some(node) => {
                let mut left = node.left.inorder();
                left.push_back(node.elem);
                let mut right = node.right.inorder();
                left.append(&mut right);
                left
            },
        }
    }

    /// Both links have the same nodes in the same places, whatever they hold.
    pub closed spec fn same_shape(self, other: Link<T>) -> bool
        decreases self,
    {
        match (self.0, other.0) {
            (None, None) => true,
            (Some(a), Some(b)) => a.left.same_shape(b.left) && a.right.same_shape(b.right),
            _ => false,
        }
    }

    proof fn lemma_inserted_len(self, e: T)
        ensures
            self.inserted(e).in_seq().len() == self.in_seq().len() + if self.finds(e) {
                0int
            } else {
                1int
            },
            self.finds(e) ==> self.inserted(e) == self,
        decreases self,
    {
        if let Some(n) = self.0 {
            n.left.lemma_inserted_len(e);
            n.right.lemma_inserted_len(e);
        }
    }

    proof fn lemma_shape_refl(self)
        ensures
            self.same_shape(self),
        decreases self,
    {
        if let Some(n) = self.0 {
            n.left.lemma_shape_refl();
            n.right.lemma_shape_refl();
        }
    }

    proof fn lemma_shape_len(self, other: Link<T>)
        requires
            self.same_shape(other),
        ensures
            self.post_seq().len() == other.post_seq().len(),
            self.in_seq().len() == other.in_seq().len(),
            self.post_seq().len() == self.in_seq().len(),
        decreases self,
    {
        if let (Some(a), Some(b)) = (self.0, other.0) {
            a.left.lemma_shape_len(b.left);
            a.right.lemma_shape_len(b.right);
        }
    }

    proof fn lemma_relabel(self, other: Link<T>, f: spec_fn(T) -> T)
        requires
            other.same_shape(self),
            other.post_seq() == self.post_seq().map_values(f),
        ensures
            other.in_seq() == self.in_seq().map_values(f),
        decreases self,
    {
        if let (Some(a), Some(b)) = (self.0, other.0) {
            b.left.lemma_shape_len(a.left);
            b.right.lemma_shape_len(a.right);
            let pa = self.post_seq();
            let pb = other.post_seq();
            let nl = a.left.post_seq().len() as int;
            let nr = a.right.post_seq().len() as int;
            assert(b.left.post_seq() =~= pb.subrange(0, nl));
            assert(a.left.post_seq() =~= pa.subrange(0, nl));
            assert(b.right.post_seq() =~= pb.subrange(nl, nl + nr));
            assert(a.right.post_seq() =~= pa.subrange(nl, nl + nr));
            assert(b.left.post_seq() =~= a.left.post_seq().map_values(f));
            assert(b.right.post_seq() =~= a.right.post_seq().map_values(f));
            assert(pb[nl + nr] == b.elem);
            assert(pa[nl + nr] == a.elem);
            a.left.lemma_relabel(b.left, f);
            a.right.lemma_relabel(b.right, f);
            assert(other.in_seq() =~= self.in_seq().map_values(f));
        }
    }

    /// Exclusive references to the elements, in post-order position. The
    /// subtrees are walked before their node, so no two references overlap.
    fn postorder<'a>(&'a mut self) -> (r: VecDeque<&'a mut T>)
        ensures
            r@.len() == old(self).post_seq().len(),
            forall|i: int| 0 <= i < r@.len() ==> *r@[i] == old(self).post_seq()[i],
            final(self).same_shape(*old(self)),
            final(self).post_seq().len() == r@.len(),
            forall|i: int| 0 <= i < r@.len() ==> *final(r@[i]) == final(self).post_seq()[i],
        decreases *old(self),
    {
        match &mut self.0 {
            None => VecDeque::new(),
            Some(node) => {
                let mut left = node.left.postorder();
                let mut right = node.right.postorder();
                right.push_back(&mut node.elem);
                left.append(&mut right);
                left
            },
        }
    }

    /// The descent of `insert`, read-only.
    fn search(&self, elem: T) -> (r: bool)
        requires
            is_strict_total_order::<T>(),
        ensures
            r == self.finds(elem),
        decreases self,
    {
        match &self.0 {
            None => false,
            Some(node) => {
                if elem == node.elem {
                    true
                } else if elem < node.elem {
                    node.left.search(elem)
                } else {
                    node.right.search(elem)
                }
            },
        }
    }
}

/// A binary search tree, unbalanced, holding each element at most once.
pub struct BST<T: PartialOrd + Copy> {
    pub(crate) root: Link<T>,
}

impl<T: PartialOrd + Copy> View for BST<T> {
    type V = Set<T>;

    /// The set of elements the tree holds.
    closed spec fn view(&self) -> Set<T> {
        self.root.in_seq().to_set()
    }
}

impl<T: PartialOrd + Copy> BST<T> {
    /// The elements in in-order position (left, node, right): ascending
    /// while the tree is ordered.
    pub closed spec fn inorder(self) -> Seq<T> {
        self.root.in_seq()
    }

    /// The elements in post-order position (left, right, node).
    pub closed spec fn postorder(self) -> Seq<T> {
        self.root.post_seq()
    }

    /// Every node's left subtree holds only smaller elements, and its right
    /// subtree only greater ones. Insertion keeps this; writes made through
    /// `iter_mut` may break it.
    pub closed spec fn is_ordered(self) -> bool {
        self.root.is_bst()
    }

    /// Both trees have the same nodes in the same places, whatever they hold.
    pub closed spec fn same_shape(self, other: BST<T>) -> bool {
        self.root.same_shape(other.root)
    }

    /// Whether the descent from the root, left on smaller and right on
    /// greater, reaches a node holding `e`.
    pub closed spec fn finds(self, e: T) -> bool {
        self.root.finds(e)
    }

    /// The tree after that descent attaches `e` at the empty slot where it
    /// ends, or the tree unchanged where the descent finds `e`.
    pub closed spec fn inserted(self, e: T) -> BST<T> {
        BST { root: self.root.inserted(e) }
    }

    /// The tree that inserting `values` one after another into an empty tree
    /// builds.
    pub closed spec fn from_insertions(values: Seq<T>) -> BST<T>
        decreases values.len(),
    {
        if values.len() == 0 {
            BST { root: Link(None) }
        } else {
            Self::from_insertions(values.drop_last()).inserted(values.last())
        }
    }

    /// How many of those insertions return `true`.
    pub closed spec fn accepted(values: Seq<T>) -> nat
        decreases values.len(),
    {
        if values.len() == 0 {
            0
        } else {
            Self::accepted(values.drop_last()) + if Self::from_insertions(values.drop_last()).finds(
                values.last(),
            ) {
                0nat
            } else {
                1nat
            }
        }
    }

    /// Whatever is inserted, in whatever order, the tree stays ordered, its
    /// in-order sequence increases strictly, and it holds exactly the values
    /// inserted, so that `search` finds each of them and nothing else.
    pub proof fn lemma_insertions(values: Seq<T>)
        requires
            is_strict_total_order::<T>(),
        ensures
            Self::from_insertions(values).is_ordered(),
            strictly_increasing(Self::from_insertions(values).inorder()),
            Self::from_insertions(values)@ == values.to_set(),
            forall|x: T| #[trigger] Self::from_insertions(values).finds(x) <==> values.contains(x),
        decreases values.len(),
    {
        let t = Self::from_insertions(values);
        if values.len() == 0 {
            assert(t@ =~= values.to_set());
        } else {
            let prev = values.drop_last();
            Self::lemma_insertions(prev);
            Self::from_insertions(prev).lemma_inserted(values.last());
            assert(values =~= prev.push(values.last()));
            assert forall|x: T| values.contains(x) <==> prev.contains(x) || x == values.last() by {
                if values.contains(x) {
                    let i = choose|i: int| 0 <= i < values.len() && values[i] == x;
                    if i < prev.len() {
                        assert(prev[i] == x);
                    }
                }
                if prev.contains(x) {
                    let i = choose|i: int| 0 <= i < prev.len() && prev[i] == x;
                    assert(values[i] == x);
                }
                if x == values.last() {
                    assert(values[values.len() - 1] == x);
                }
            }
            assert(t@ =~= values.to_set());
        }
        t.root.lemma_sorted();
        assert forall|x: T| #[trigger] t.finds(x) <==> values.contains(x) by {
            t.lemma_finds_iff_contains(x);
        }
    }

    /// Each of the three full traversals has as many items as insertions
    /// returned `true`.
    pub proof fn lemma_cardinality(values: Seq<T>)
        ensures
            Self::from_insertions(values).inorder().len() == Self::accepted(values),
            Self::from_insertions(values).postorder().len() == Self::accepted(values),
        decreases values.len(),
    {
        let t = Self::from_insertions(values);
        if values.len() > 0 {
            let prev = values.drop_last();
            Self::lemma_cardinality(prev);
            Self::from_insertions(prev).root.lemma_inserted_len(values.last());
        }
        t.root.lemma_shape_refl();
        t.root.lemma_shape_len(t.root);
    }

    /// Inserting a value into an ordered tree twice: the second insertion
    /// finds it and changes nothing, and the in-order sequence holds it at
    /// exactly one position.
    pub proof fn lemma_insert_twice(self, e: T)
        requires
            is_strict_total_order::<T>(),
            self.is_ordered(),
        ensures
            !self@.contains(e) ==> !self.finds(e),
            self.inserted(e).finds(e),
            self.inserted(e).inserted(e) == self.inserted(e),
            self.inserted(e).inorder().contains(e),
            forall|i: int, j: int|
                0 <= i < self.inserted(e).inorder().len() && 0 <= j < self.inserted(
                    e,
                ).inorder().len() && self.inserted(e).inorder()[i] == e && self.inserted(
                    e,
                ).inorder()[j] == e ==> i == j,
    {
        let t = self.inserted(e);
        self.lemma_finds_iff_contains(e);
        self.lemma_inserted(e);
        t.lemma_finds_iff_contains(e);
        t.root.lemma_inserted_len(e);
        t.root.lemma_sorted();
        assert(t@.contains(e));
        let s = t.inorder();
        assert forall|i: int, j: int|
            0 <= i < s.len() && 0 <= j < s.len() && s[i] == e && s[j] == e implies i == j by {
            if i < j {
                assert(lt(s[i], s[j]));
            } else if j < i {
                assert(lt(s[j], s[i]));
            }
        }
    }

    /// Rewriting the elements of a tree in place, position by position, acts
    /// on its in-order sequence as on its post-order one: where `after` has
    /// the shape of `before` and each post-order element `x` became `f(x)`,
    /// each in-order element became `f(x)` too.
    pub proof fn lemma_rewrite_in_place(before: BST<T>, after: BST<T>, f: spec_fn(T) -> T)
        requires
            after.same_shape(before),
            after.postorder() == before.postorder().map_values(f),
        ensures
            after.inorder() == before.inorder().map_values(f),
    {
        before.root.lemma_relabel(after.root, f);
    }

    /// An ordered tree holds `e` exactly when the descent finds it.
    pub proof fn lemma_finds_iff_contains(self, e: T)
        requires
            is_strict_total_order::<T>(),
            self.is_ordered(),
        ensures
            self.finds(e) <==> self@.contains(e),
    {
        self.root.lemma_finds_iff_contains(e);
    }

    /// Inserting into an ordered tree keeps it ordered and adds `e` to its set.
    pub proof fn lemma_inserted(self, e: T)
        requires
            is_strict_total_order::<T>(),
            self.is_ordered(),
        ensures
            self.inserted(e).is_ordered(),
            self.inserted(e)@ == self@.insert(e),
    {
        self.root.lemma_inserted(e);
        assert(self.inserted(e)@ =~= self@.insert(e));
    }

    /// The in-order sequence of an ordered tree increases strictly.
    pub proof fn lemma_ascending(self)
        requires
            is_strict_total_order::<T>(),
            self.is_ordered(),
        ensures
            strictly_increasing(self.inorder()),
    {
        self.root.lemma_sorted();
    }

    /// An empty tree.
    pub fn new() -> (r: Self)
        ensures
            r.is_ordered(),
            r@ == Set::<T>::empty(),
            r.inorder() == Seq::<T>::empty(),
            r.postorder() == Seq::<T>::empty(),
    {
        let r = BST { root: Link(None) };
        assert(r@ =~= Set::<T>::empty());
        r
    }

    /// Inserts `elem` unless the tree already holds it; returns whether it
    /// was inserted.
    pub fn insert(&mut self, elem: T) -> (r: bool)
        requires
            is_strict_total_order::<T>(),
        ensures
            r == !old(self).finds(elem),
            *final(self) == old(self).inserted(elem),
            old(self).is_ordered() ==> {
                &&& final(self).is_ordered()
                &&& r == !old(self)@.contains(elem)
                &&& final(self)@ == old(self)@.insert(elem)
            },
    {
        proof {
            if old(self).is_ordered() {
                old(self).lemma_finds_iff_contains(elem);
                old(self).lemma_inserted(elem);
            }
        }
        self.root.insert(elem)
    }

    /// Whether the tree holds `elem`, found by descending from the root.
    pub fn search(&self, elem: T) -> (r: bool)
        requires
            is_strict_total_order::<T>(),
        ensures
            r == self.finds(elem),
            self.is_ordered() ==> r == self@.contains(elem),
    {
        proof {
            if self.is_ordered() {
                self.lemma_finds_iff_contains(elem);
            }
        }
        self.root.search(elem)
    }
}

/// Consuming traversal: the elements in ascending position, by value.
pub struct IntoIter<T: PartialOrd + Copy> {
    next: VecDeque<T>,
}

impl<T: PartialOrd + Copy> View for IntoIter<T> {
    type V = Seq<T>;

    /// The elements still to come, in the order they will come.
    closed spec fn view(&self) -> Seq<T> {
        self.next@
    }
}

impl<T: PartialOrd + Copy> IntoIter<T> {
    /// The next element, or `None` once all have come.
    pub fn next(&mut self) -> (r: Option<T>)
        ensures
            old(self)@.len() == 0 ==> r.is_none() && final(self)@ == old(self)@,
            old(self)@.len() > 0 ==> r == Some(old(self)@[0]) && final(self)@
                == old(self)@.drop_first(),
    {
        self.next.pop_front()
    }
}

impl<T: PartialOrd + Copy> BST<T> {
    /// Consumes the tree; the iterator yields its elements in in-order
    /// position, which is ascending while the tree is ordered.
    pub fn into_iter(self) -> (r: IntoIter<T>)
        requires
            is_strict_total_order::<T>(),
        ensures
            r@ == self.inorder(),
            self.is_ordered() ==> strictly_increasing(r@) && r@.to_set() == self@,
    {
        proof {
            if self.is_ordered() {
                self.lemma_ascending();
            }
        }
        IntoIter { next: self.root.inorder() }
    }
}

/// The elements that a stack of visited nodes still owes, top first: each
/// node's own element, then its right subtree.
spec fn pending<T: PartialOrd + Copy>(stack: Seq<&Node<T>>) -> Seq<T>
    decreases stack.len(),
{
    if stack.len() == 0 {
        Seq::empty()
    } else {
        let n = stack.last();
        seq![n.elem] + n.right.in_seq() + pending(stack.drop_last())
    }
}

/// Pushes `link` and the chain of left children beneath it.
fn push_left<'a, T: PartialOrd + Copy>(stack: &mut Vec<&'a Node<T>>, link: &'a Link<T>)
    ensures
        pending(final(stack)@) == link.in_seq() + pending(old(stack)@),
    decreases link,
{
    match &link.0 {
        None => {
            assert(link.in_seq() + pending(stack@) =~= pending(stack@));
        },
        Some(node) => {
            let ghost before = stack@;
            stack.push(node);
            assert(stack@.drop_last() == before);
            push_left(stack, &node.left);
            assert(link.in_seq() + pending(before) =~= node.left.in_seq() + (seq![node.elem]
                + node.right.in_seq() + pending(before)));
        },
    }
}

/// Borrowing traversal: references to the elements in ascending position,
/// produced one step at a time.
pub struct Iter<'a, T: PartialOrd + Copy> {
    stack: Vec<&'a Node<T>>,
}

impl<'a, T: PartialOrd + Copy> View for Iter<'a, T> {
    type V = Seq<T>;

    /// The elements still to come, in the order they will come.
    closed spec fn view(&self) -> Seq<T> {
        pending(self.stack@)
    }
}

impl<'a, T: PartialOrd + Copy> Iter<'a, T> {
    /// A reference to the next element, or `None` once all have come.
    pub fn next(&mut self) -> (r: Option<&'a T>)
        ensures
            old(self)@.len() == 0 ==> r.is_none() && final(self)@ == old(self)@,
            old(self)@.len() > 0 ==> r == Some(&old(self)@[0]) && final(self)@
                == old(self)@.drop_first(),
    {
        let ghost before = self.stack@;
        match self.stack.pop() {
            None => None,
            Some(node) => {
                assert(self.stack@ == before.drop_last());
                push_left(&mut self.stack, &node.right);
                assert(pending(before).drop_first() =~= node.right.in_seq() + pending(
                    before.drop_last(),
                ));
                Some(&node.elem)
            },
        }
    }
}

impl<T: PartialOrd + Copy> BST<T> {
    /// A borrowing iterator over the elements in in-order position, which is
    /// ascending while the tree is ordered. The tree stays as it is.
    pub fn iter(&self) -> (r: Iter<'_, T>)
        requires
            is_strict_total_order::<T>(),
        ensures
            r@ == self.inorder(),
            self.is_ordered() ==> strictly_increasing(r@) && r@.to_set() == self@,
    {
        proof {
            if self.is_ordered() {
                self.lemma_ascending();
            }
        }
        let mut stack: Vec<&Node<T>> = Vec::new();
        push_left(&mut stack, &self.root);
        assert(self.root.in_seq() + pending(Seq::<&Node<T>>::empty()) =~= self.root.in_seq());
        Iter { stack }
    }
}

/// Mutable traversal: exclusive references to the elements in post-order
/// position (left, right, node), all taken from the tree when it starts.
pub struct IterMut<'a, T: PartialOrd + Copy> {
    next: VecDeque<&'a mut T>,
}

impl<'a, T: PartialOrd + Copy> IterMut<'a, T> {
    /// The references still to come, in the order they will come.
    pub closed spec fn refs(self) -> Seq<&'a mut T> {
        self.next@
    }

    /// An exclusive reference to the next element, or `None` once all have come.
    pub fn next(&mut self) -> (r: Option<&'a mut T>)
        ensures
            old(self).refs().len() == 0 ==> r.is_none() && final(self).refs() == old(
                self,
            ).refs(),
            old(self).refs().len() > 0 ==> r == Some(old(self).refs()[0]) && final(self).refs()
                == old(self).refs().drop_first(),
    {
        self.next.pop_front()
    }
}

impl<T: PartialOrd + Copy> BST<T> {
    /// An iterator of exclusive references to the elements in post-order
    /// position. The shape of the tree stays; what is written through the
    /// references is what the tree holds afterwards.
    pub fn iter_mut(&mut self) -> (r: IterMut<'_, T>)
        ensures
            r.refs().len() == old(self).postorder().len(),
            forall|i: int| 0 <= i < r.refs().len() ==> *r.refs()[i] == old(self).postorder()[i],
            final(self).same_shape(*old(self)),
            final(self).postorder().len() == r.refs().len(),
            forall|i: int|
                0 <= i < r.refs().len() ==> *final(r.refs()[i]) == final(self).postorder()[i],
    {
        let next = self.root.postorder();
        IterMut { next }
    }
}

proof fn lemma_contains_split<T>(a: Seq<T>, x: T, b: Seq<T>, e: T)
    ensures
        (a.push(x) + b).contains(e) <==> (a.contains(e) || x == e || b.contains(e)),
{
    let s = a.push(x) + b;
    if s.contains(e) {
        let i = choose|i: int| 0 <= i < s.len() && s[i] == e;
        if i < a.len() {
            assert(a[i] == e);
        } else if i > a.len() {
            assert(b[i - a.len() - 1] == e);
        }
    }
    if a.contains(e) {
        let i = choose|i: int| 0 <= i < a.len() && a[i] == e;
        assert(s[i] == e);
    }
    if x == e {
        assert(s[a.len() as int] == e);
    }
    if b.contains(e) {
        let i = choose|i: int| 0 <= i < b.len() && b[i] == e;
        assert(s[a.len() + 1 + i] == e);
    }
}

} // verus!
