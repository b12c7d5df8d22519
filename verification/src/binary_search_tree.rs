//! An unbalanced binary search tree that keeps the values it is given, equal
//! ones too, in the order of their type.

use std::cmp::Ordering;
use vstd::laws_cmp::*;
use vstd::laws_eq::*;
use vstd::prelude::*;
use vstd::std_specs::cmp::{OrdSpec, PartialEqSpec, PartialOrdSpec};

verus! {

/// Whether the comparisons of `T` form a total order, and `<` and `cmp` agree.
/// What the tree promises about order, it promises for such types.
pub open spec fn lawful<T: Ord>() -> bool {
    obeys_cmp::<T>()
}

/// `a` comes strictly before `b`.
pub open spec fn less<T: Ord>(a: T, b: T) -> bool {
    a.cmp_spec(&b) == Ordering::Less
}

/// `a` and `b` have the same rank: neither comes before the other.
pub open spec fn equivalent<T: Ord>(a: T, b: T) -> bool {
    a.cmp_spec(&b) == Ordering::Equal
}

/// `a` comes strictly after `b`.
pub open spec fn greater<T: Ord>(a: T, b: T) -> bool {
    a.cmp_spec(&b) == Ordering::Greater
}

/// What a lawful order gives for three values: `cmp` and `<` compute what
/// `less`, `equivalent` and `greater` say, and ranks are transitive.
pub proof fn lemma_order<T: Ord>(a: T, b: T, c: T)
    requires
        lawful::<T>(),
    ensures
        T::obeys_cmp_spec(),
        T::obeys_partial_cmp_spec(),
        a.partial_cmp_spec(&b) == Some(a.cmp_spec(&b)),
        less(a, b) <==> greater(b, a),
        equivalent(a, b) <==> !less(a, b) && !less(b, a),
        less(a, b) && !less(c, b) ==> less(a, c),
        !less(b, a) && less(b, c) ==> less(a, c),
        !less(b, a) && !less(c, b) ==> !less(c, a),
{
    reveal(obeys_eq_spec_properties);
    reveal(obeys_partial_cmp_spec_properties);
    reveal(obeys_cmp_partial_ord);
    reveal(obeys_cmp_ord);
}

/// Whether `k` is where `insert` puts `v` among the values `s`: behind every
/// value that does not come after `v`, in front of every value that does.
pub open spec fn insertion_point<T: Ord>(s: Seq<T>, v: T, k: int) -> bool {
    &&& 0 <= k <= s.len()
    &&& forall|i: int| 0 <= i < k ==> !less(v, #[trigger] s[i])
    &&& forall|i: int| k <= i < s.len() ==> less(v, #[trigger] s[i])
}

/// Whether some value of `s` is equivalent to `v`.
pub open spec fn has_equivalent<T: Ord>(s: Seq<T>, v: T) -> bool {
    exists|i: int| 0 <= i < s.len() && equivalent(#[trigger] s[i], v)
}

/// Whether position `i` of `s` is where `floor` finds its answer for `v`: the
/// first value that is equivalent to `v`, or, where none is, the last value
/// that comes before `v`.
pub open spec fn floor_at<T: Ord>(s: Seq<T>, v: T, i: int) -> bool {
    &&& 0 <= i < s.len()
    &&& {
        ||| equivalent(s[i], v) && forall|j: int| 0 <= j < i ==> less(#[trigger] s[j], v)
        ||| less(s[i], v) && forall|j: int| i < j < s.len() ==> less(v, #[trigger] s[j])
    }
}

/// Whether position `i` of `s` is where `ceil` finds its answer for `v`: the
/// first value that does not come before `v`.
pub open spec fn ceil_at<T: Ord>(s: Seq<T>, v: T, i: int) -> bool {
    &&& 0 <= i < s.len()
    &&& !less(s[i], v)
    &&& forall|j: int| 0 <= j < i ==> less(#[trigger] s[j], v)
}

/// Whether every value of `s` comes after `v`.
pub open spec fn all_after<T: Ord>(s: Seq<T>, v: T) -> bool {
    forall|j: int| 0 <= j < s.len() ==> less(v, #[trigger] s[j])
}

/// Whether every value of `s` comes before `v`.
pub open spec fn all_before<T: Ord>(s: Seq<T>, v: T) -> bool {
    forall|j: int| 0 <= j < s.len() ==> less(#[trigger] s[j], v)
}

/// A binary search tree of `T`. The root holds no value while the tree is
/// empty; every other node holds one.
pub struct BinarySearchTree<T> where T: Ord {
    value: Option<T>,
    left: Option<Box<BinarySearchTree<T>>>,
    right: Option<Box<BinarySearchTree<T>>>,
}

impl<T: Ord> View for BinarySearchTree<T> {
    type V = Seq<T>;

    /// The values of the tree in order: those of the left subtree, the value
    /// of the root, those of the right subtree.
    closed spec fn view(&self) -> Seq<T> {
        self.inorder()
    }
}

impl<T: Ord> BinarySearchTree<T> {
    /// The value of the root as a sequence of one, or of none.
    spec fn own(self) -> Seq<T> {
        match self.value {
            Some(key) => seq![key],
            None => Seq::empty(),
        }
    }

    spec fn inorder(self) -> Seq<T>
        decreases self,
    {
        Self::inorder_of(self.left) + self.own() + Self::inorder_of(self.right)
    }

    spec fn inorder_of(subtree: Option<Box<Self>>) -> Seq<T>
        decreases subtree,
    {
        match subtree {
            Some(tree) => tree.inorder(),
            None => Seq::empty(),
        }
    }

    /// The position of the root's value among the values in order.
    spec fn root_at(self) -> int {
        Self::inorder_of(self.left).len() as int
    }

    /// A subtree, where there is one, holds a value at its root and is shaped.
    spec fn shaped_subtree(subtree: Option<Box<Self>>) -> bool
        decreases subtree,
    {
        match subtree {
            Some(tree) => tree.value is Some && tree.shaped(),
            None => true,
        }
    }

    /// Only a root without children is without a value.
    spec fn shaped(self) -> bool
        decreases self,
    {
        &&& self.value is None ==> self.left is None && self.right is None
        &&& Self::shaped_subtree(self.left)
        &&& Self::shaped_subtree(self.right)
    }

    spec fn ordered_subtree(subtree: Option<Box<Self>>) -> bool
        decreases subtree,
    {
        match subtree {
            Some(tree) => tree.ordered(),
            None => true,
        }
    }

    /// At every node the values of the left subtree come before the value of
    /// the node, and those of the right subtree do not.
    spec fn ordered(self) -> bool
        decreases self,
    {
        match self.value {
            Some(key) => {
                &&& forall|i: int|
                    0 <= i < Self::inorder_of(self.left).len() ==> less(
                        #[trigger] Self::inorder_of(self.left)[i],
                        key,
                    )
                &&& forall|i: int|
                    0 <= i < Self::inorder_of(self.right).len() ==> !less(
                        #[trigger] Self::inorder_of(self.right)[i],
                        key,
                    )
                &&& Self::ordered_subtree(self.left)
                &&& Self::ordered_subtree(self.right)
            },
            None => true,
        }
    }

    /// The invariant of the tree: its shape, and for a lawful order the
    /// search-tree order of its values.
    pub closed spec fn wf(self) -> bool {
        self.shaped() && (lawful::<T>() ==> self.ordered())
    }

    /// An empty tree.
    pub fn new() -> (tree: Self)
        ensures
            tree.wf(),
            tree@ == Seq::<T>::empty(),
    {
        let tree = BinarySearchTree { value: None, left: None, right: None };
        assert(tree.inorder() =~= Seq::<T>::empty());
        tree
    }

    /// A tree of the one value `value`.
    fn leaf(value: T) -> (tree: Self)
        ensures
            tree.wf(),
            tree.value is Some,
            tree.inorder() == seq![value],
    {
        let mut tree = BinarySearchTree::new();
        tree.value = Some(value);
        assert(tree.inorder() =~= seq![value]);
        tree
    }

    /// Putting a value into the left subtree of a well-formed tree, at the
    /// place where it belongs there, puts it where it belongs in the tree.
    proof fn lemma_insert_left(pre: Self, post: Self, value: T, k: int)
        requires
            pre.wf(),
            pre.value is Some,
            post.value == pre.value,
            post.right == pre.right,
            0 <= k <= Self::inorder_of(pre.left).len(),
            Self::inorder_of(post.left) == Self::inorder_of(pre.left).insert(k, value),
            Self::shaped_subtree(post.left),
            lawful::<T>() ==> {
                &&& Self::ordered_subtree(post.left)
                &&& less(value, pre.value->0)
                &&& insertion_point(Self::inorder_of(pre.left), value, k)
            },
        ensures
            post.wf(),
            post.inorder() == pre.inorder().insert(k, value),
            lawful::<T>() ==> insertion_point(pre.inorder(), value, k),
    {
        let key = pre.value->0;
        let lefts = Self::inorder_of(pre.left);
        let rights = Self::inorder_of(pre.right);
        let now = Self::inorder_of(post.left);
        let all = pre.inorder();
        assert(post.inorder() =~= all.insert(k, value));
        if lawful::<T>() {
            assert forall|i: int| k <= i < all.len() implies less(value, #[trigger] all[i]) by {
                if i < lefts.len() {
                    assert(all[i] == lefts[i]);
                } else if i > lefts.len() {
                    let r = rights[i - lefts.len() - 1];
                    assert(all[i] == r);
                    lemma_order(value, key, r);
                }
            }
            assert forall|i: int| 0 <= i < k implies !less(value, #[trigger] all[i]) by {
                assert(all[i] == lefts[i]);
            }
            assert forall|i: int| 0 <= i < now.len() implies less(#[trigger] now[i], key) by {
                if i < k {
                    assert(now[i] == lefts[i]);
                } else if i > k {
                    assert(now[i] == lefts[i - 1]);
                }
            }
        }
    }

    /// Putting a value into the right subtree of a well-formed tree, at the
    /// place where it belongs there, puts it where it belongs in the tree.
    proof fn lemma_insert_right(pre: Self, post: Self, value: T, k: int)
        requires
            pre.wf(),
            pre.value is Some,
            post.value == pre.value,
            post.left == pre.left,
            0 <= k <= Self::inorder_of(pre.right).len(),
            Self::inorder_of(post.right) == Self::inorder_of(pre.right).insert(k, value),
            Self::shaped_subtree(post.right),
            lawful::<T>() ==> {
                &&& Self::ordered_subtree(post.right)
                &&& !less(value, pre.value->0)
                &&& insertion_point(Self::inorder_of(pre.right), value, k)
            },
        ensures
            post.wf(),
            post.inorder() == pre.inorder().insert(Self::inorder_of(pre.left).len() + 1 + k, value),
            lawful::<T>() ==> insertion_point(
                pre.inorder(),
                value,
                Self::inorder_of(pre.left).len() + 1 + k,
            ),
    {
        let key = pre.value->0;
        let lefts = Self::inorder_of(pre.left);
        let rights = Self::inorder_of(pre.right);
        let now = Self::inorder_of(post.right);
        let all = pre.inorder();
        let at = lefts.len() + 1 + k;
        assert(post.inorder() =~= all.insert(at, value));
        if lawful::<T>() {
            assert forall|i: int| 0 <= i < at implies !less(value, #[trigger] all[i]) by {
                if i < lefts.len() {
                    let l = lefts[i];
                    assert(all[i] == l);
                    lemma_order(l, key, value);
                } else if i > lefts.len() {
                    assert(all[i] == rights[i - lefts.len() - 1]);
                }
            }
            assert forall|i: int| at <= i < all.len() implies less(value, #[trigger] all[i]) by {
                assert(all[i] == rights[i - lefts.len() - 1]);
            }
            assert forall|i: int| 0 <= i < now.len() implies !less(#[trigger] now[i], key) by {
                if i < k {
                    assert(now[i] == rights[i]);
                } else if i > k {
                    assert(now[i] == rights[i - 1]);
                }
            }
        }
    }

    /// Adds `value` below this node and says where it has come to stand.
    fn insert_node(&mut self, value: T) -> (at: Ghost<int>)
        requires
            old(self).wf(),
        ensures
            final(self).wf(),
            final(self).value is Some,
            0 <= at@ <= old(self).inorder().len(),
            final(self).inorder() == old(self).inorder().insert(at@, value),
            lawful::<T>() ==> insertion_point(old(self).inorder(), value, at@),
        decreases *old(self),
    {
        if self.value.is_none() {
            self.value = Some(value);
            proof {
                assert(self.inorder() =~= old(self).inorder().insert(0, value));
            }
            return Ghost(0);
        }
        let goes_left = value < *self.value.as_ref().unwrap();
        proof {
            if lawful::<T>() {
                lemma_order(value, self.value->0, value);
            }
        }
        if goes_left {
            let ghost mut k: int = 0;
            match &mut self.left {
                Some(node) => {
                    let below = node.insert_node(value);
                    proof {
                        k = below@;
                    }
                },
                None => {
                    self.left = Some(Box::new(Self::leaf(value)));
                    proof {
                        assert(seq![value] =~= Seq::<T>::empty().insert(0, value));
                    }
                },
            }
            proof {
                Self::lemma_insert_left(*old(self), *self, value, k);
            }
            Ghost(k)
        } else {
            let ghost mut k: int = 0;
            match &mut self.right {
                Some(node) => {
                    let below = node.insert_node(value);
                    proof {
                        k = below@;
                    }
                },
                None => {
                    self.right = Some(Box::new(Self::leaf(value)));
                    proof {
                        assert(seq![value] =~= Seq::<T>::empty().insert(0, value));
                    }
                },
            }
            proof {
                Self::lemma_insert_right(*old(self), *self, value, k);
            }
            Ghost(Self::inorder_of(old(self).left).len() + 1 + k)
        }
    }

    /// Adds `value` to the tree. A value that is equivalent to one in the tree
    /// is added as well, behind it.
    pub fn insert(&mut self, value: T)
        requires
            old(self).wf(),
        ensures
            final(self).wf(),
            exists|k: int|
                {
                    &&& 0 <= k <= old(self)@.len()
                    &&& final(self)@ == old(self)@.insert(k, value)
                    &&& lawful::<T>() ==> insertion_point(old(self)@, value, k)
                },
    {
        let at = self.insert_node(value);
        assert(self@ == old(self)@.insert(at@, value));
    }

    /// Where `v` comes before the value of the root, the right subtree holds
    /// nothing for it: what is found in the left subtree is found in the tree.
    proof fn lemma_answer_is_left(self, v: T)
        requires
            self.wf(),
            lawful::<T>(),
            self.value is Some,
            less(v, self.value->0),
        ensures
            has_equivalent(self.inorder(), v) <==> has_equivalent(Self::inorder_of(self.left), v),
            forall|i: int| #[trigger]
                floor_at(Self::inorder_of(self.left), v, i) ==> floor_at(self.inorder(), v, i)
                    && self.inorder()[i] == Self::inorder_of(self.left)[i],
            all_after(Self::inorder_of(self.left), v) ==> all_after(self.inorder(), v),
            forall|i: int| #[trigger]
                ceil_at(Self::inorder_of(self.left), v, i) ==> ceil_at(self.inorder(), v, i)
                    && self.inorder()[i] == Self::inorder_of(self.left)[i],
            all_before(Self::inorder_of(self.left), v) ==> ceil_at(
                self.inorder(),
                v,
                self.root_at(),
            ),
            self.inorder()[self.root_at()] == self.value->0,
    {
        let key = self.value->0;
        let lefts = Self::inorder_of(self.left);
        let rights = Self::inorder_of(self.right);
        let all = self.inorder();
        lemma_order(v, key, v);
        assert forall|j: int| lefts.len() <= j < all.len() implies less(v, #[trigger] all[j])
            && !equivalent(all[j], v) by {
            if j > lefts.len() {
                let r = rights[j - lefts.len() - 1];
                assert(all[j] == r);
                lemma_order(v, key, r);
                lemma_order(v, r, r);
            } else {
                assert(all[j] == key);
            }
        }
        assert forall|j: int| 0 <= j < lefts.len() implies #[trigger] all[j] == lefts[j] by {}
        if has_equivalent(all, v) {
            let i = choose|i: int| 0 <= i < all.len() && equivalent(#[trigger] all[i], v);
            assert(equivalent(lefts[i], v));
        }
        if has_equivalent(lefts, v) {
            let i = choose|i: int| 0 <= i < lefts.len() && equivalent(#[trigger] lefts[i], v);
            assert(equivalent(all[i], v));
        }
        assert(all[lefts.len() as int] == key);
        assert forall|i: int| #[trigger] floor_at(lefts, v, i) implies floor_at(all, v, i) && all[i]
            == lefts[i] by {
            assert(all[i] == lefts[i]);
            if equivalent(lefts[i], v) && forall|j: int|
                0 <= j < i ==> less(#[trigger] lefts[j], v) {
                assert forall|j: int| 0 <= j < i implies less(#[trigger] all[j], v) by {
                    assert(all[j] == lefts[j]);
                }
            } else {
                assert forall|j: int| i < j < all.len() implies less(v, #[trigger] all[j]) by {
                    if j < lefts.len() {
                        assert(all[j] == lefts[j]);
                    }
                }
            }
        }
        if all_after(lefts, v) {
            assert forall|j: int| 0 <= j < all.len() implies less(v, #[trigger] all[j]) by {
                if j < lefts.len() {
                    assert(all[j] == lefts[j]);
                }
            }
        }
        assert forall|i: int| #[trigger] ceil_at(lefts, v, i) implies ceil_at(all, v, i) && all[i]
            == lefts[i] by {
            assert(all[i] == lefts[i]);
            assert forall|j: int| 0 <= j < i implies less(#[trigger] all[j], v) by {
                assert(all[j] == lefts[j]);
            }
        }
        if all_before(lefts, v) {
            assert(all[lefts.len() as int] == key);
            assert forall|j: int| 0 <= j < lefts.len() implies less(#[trigger] all[j], v) by {
                assert(all[j] == lefts[j]);
            }
        }
    }

    /// Where the value of the root comes before `v`, the left subtree holds
    /// nothing for it: what is found in the right subtree is found in the
    /// tree, behind the left subtree and the root.
    proof fn lemma_answer_is_right(self, v: T)
        requires
            self.wf(),
            lawful::<T>(),
            self.value is Some,
            less(self.value->0, v),
        ensures
            has_equivalent(self.inorder(), v) <==> has_equivalent(Self::inorder_of(self.right), v),
            forall|i: int| #[trigger]
                floor_at(Self::inorder_of(self.right), v, i) ==> floor_at(
                    self.inorder(),
                    v,
                    self.root_at() + 1 + i,
                ) && self.inorder()[self.root_at() + 1 + i] == Self::inorder_of(
                    self.right,
                )[i],
            all_after(Self::inorder_of(self.right), v) ==> floor_at(
                self.inorder(),
                v,
                self.root_at(),
            ),
            forall|i: int| #[trigger]
                ceil_at(Self::inorder_of(self.right), v, i) ==> ceil_at(
                    self.inorder(),
                    v,
                    self.root_at() + 1 + i,
                ) && self.inorder()[self.root_at() + 1 + i] == Self::inorder_of(
                    self.right,
                )[i],
            all_before(Self::inorder_of(self.right), v) ==> all_before(self.inorder(), v),
            self.inorder()[self.root_at()] == self.value->0,
    {
        let key = self.value->0;
        let lefts = Self::inorder_of(self.left);
        let rights = Self::inorder_of(self.right);
        let all = self.inorder();
        let base = lefts.len() + 1;
        assert forall|j: int| 0 <= j <= lefts.len() implies less(#[trigger] all[j], v)
            && !equivalent(all[j], v) by {
            if j < lefts.len() {
                let l = lefts[j];
                assert(all[j] == l);
                lemma_order(l, key, v);
            } else {
                assert(all[j] == key);
            }
        }
        assert forall|j: int| 0 <= j < rights.len() implies #[trigger] all[base + j]
            == rights[j] by {}
        if has_equivalent(all, v) {
            let i = choose|i: int| 0 <= i < all.len() && equivalent(#[trigger] all[i], v);
            assert(all[base + (i - base)] == rights[i - base]);
            assert(equivalent(rights[i - base], v));
        }
        if has_equivalent(rights, v) {
            let i = choose|i: int| 0 <= i < rights.len() && equivalent(#[trigger] rights[i], v);
            assert(equivalent(all[base + i], v));
        }
        assert(all[lefts.len() as int] == key);
        assert forall|i: int| #[trigger] floor_at(rights, v, i) implies floor_at(all, v, base + i)
            && all[base + i] == rights[i] by {
            assert(all[base + i] == rights[i]);
            if equivalent(rights[i], v) && forall|j: int|
                0 <= j < i ==> less(#[trigger] rights[j], v) {
                assert forall|j: int| 0 <= j < base + i implies less(#[trigger] all[j], v) by {
                    if j >= base {
                        assert(all[base + (j - base)] == rights[j - base]);
                    }
                }
            } else {
                assert forall|j: int| base + i < j < all.len() implies less(
                    v,
                    #[trigger] all[j],
                ) by {
                    assert(all[base + (j - base)] == rights[j - base]);
                }
            }
        }
        if all_after(rights, v) {
            assert(all[lefts.len() as int] == key);
            assert forall|j: int| lefts.len() < j < all.len() implies less(
                v,
                #[trigger] all[j],
            ) by {
                assert(all[base + (j - base)] == rights[j - base]);
            }
        }
        assert forall|i: int| #[trigger] ceil_at(rights, v, i) implies ceil_at(all, v, base + i)
            && all[base + i] == rights[i] by {
            assert(all[base + i] == rights[i]);
            assert forall|j: int| 0 <= j < base + i implies less(#[trigger] all[j], v) by {
                if j >= base {
                    assert(all[base + (j - base)] == rights[j - base]);
                }
            }
        }
        if all_before(rights, v) {
            assert forall|j: int| 0 <= j < all.len() implies less(#[trigger] all[j], v) by {
                if j >= base {
                    assert(all[base + (j - base)] == rights[j - base]);
                }
            }
        }
    }

    /// Where the value of the root is equivalent to `v`, it is the first such
    /// value of the tree.
    proof fn lemma_answer_is_root(self, v: T)
        requires
            self.wf(),
            lawful::<T>(),
            self.value is Some,
            equivalent(self.value->0, v),
        ensures
            has_equivalent(self.inorder(), v),
            floor_at(self.inorder(), v, self.root_at()),
            ceil_at(self.inorder(), v, self.root_at()),
            self.inorder()[self.root_at()] == self.value->0,
    {
        let key = self.value->0;
        let lefts = Self::inorder_of(self.left);
        let all = self.inorder();
        lemma_order(key, v, v);
        assert(all[lefts.len() as int] == key);
        assert forall|j: int| 0 <= j < lefts.len() implies less(#[trigger] all[j], v) by {
            let l = lefts[j];
            assert(all[j] == l);
            lemma_order(l, key, v);
        }
    }

    /// Whether the tree holds a value that is equivalent to `value`.
    pub fn search(&self, value: &T) -> (found: bool)
        requires
            self.wf(),
        ensures
            lawful::<T>() ==> (found <==> has_equivalent(self@, *value)),
        decreases self,
    {
        match &self.value {
            Some(key) => {
                let order = key.cmp(value);
                proof {
                    if lawful::<T>() {
                        lemma_order(*key, *value, *key);
                        match order {
                            Ordering::Equal => self.lemma_answer_is_root(*value),
                            Ordering::Greater => self.lemma_answer_is_left(*value),
                            Ordering::Less => self.lemma_answer_is_right(*value),
                        }
                    }
                }
                match order {
                    Ordering::Equal => true,
                    Ordering::Greater => match &self.left {
                        Some(node) => node.search(value),
                        None => false,
                    },
                    Ordering::Less => match &self.right {
                        Some(node) => node.search(value),
                        None => false,
                    },
                }
            },
            None => false,
        }
    }

    /// The first value of the tree in order, which is a least one; `None`
    /// where the tree is empty.
    pub fn minimum(&self) -> (least: Option<&T>)
        requires
            self.wf(),
        ensures
            self@.len() == 0 ==> least is None,
            self@.len() > 0 ==> least == Some(&self@.first()),
        decreases self,
    {
        match &self.left {
            Some(node) => node.minimum(),
            None => self.value.as_ref(),
        }
    }

    /// The last value of the tree in order, which is a greatest one; `None`
    /// where the tree is empty.
    pub fn maximum(&self) -> (greatest: Option<&T>)
        requires
            self.wf(),
        ensures
            self@.len() == 0 ==> greatest is None,
            self@.len() > 0 ==> greatest == Some(&self@.last()),
        decreases self,
    {
        match &self.right {
            Some(node) => node.maximum(),
            None => self.value.as_ref(),
        }
    }

    /// The greatest value of the tree that does not come after `value`; `None`
    /// where every value comes after it.
    pub fn floor(&self, value: &T) -> (found: Option<&T>)
        requires
            self.wf(),
        ensures
            lawful::<T>() ==> match found {
                Some(e) => exists|i: int| floor_at(self@, *value, i) && self@[i] == *e,
                None => all_after(self@, *value),
            },
        decreases self,
    {
        match &self.value {
            Some(key) => {
                let order = key.cmp(value);
                proof {
                    if lawful::<T>() {
                        lemma_order(*key, *value, *key);
                        match order {
                            Ordering::Equal => self.lemma_answer_is_root(*value),
                            Ordering::Greater => self.lemma_answer_is_left(*value),
                            Ordering::Less => self.lemma_answer_is_right(*value),
                        }
                    }
                }
                let ghost root = self.root_at();
                match order {
                    Ordering::Greater => match &self.left {
                        Some(node) => {
                            let val = node.floor(value);
                            proof {
                                if lawful::<T>() {
                                    Self::lemma_floor_found(node.inorder(), self@, *value, val, 0);
                                }
                            }
                            val
                        },
                        None => None,
                    },
                    Ordering::Less => match &self.right {
                        Some(node) => {
                            let val = node.floor(value);
                            proof {
                                if lawful::<T>() {
                                    Self::lemma_floor_found(
                                        node.inorder(),
                                        self@,
                                        *value,
                                        val,
                                        root + 1,
                                    );
                                }
                            }
                            match val {
                                Some(_) => val,
                                None => {
                                    assert(lawful::<T>() ==> floor_at(self@, *value, root));
                                    Some(key)
                                },
                            }
                        },
                        None => {
                            assert(lawful::<T>() ==> floor_at(self@, *value, root));
                            Some(key)
                        },
                    },
                    Ordering::Equal => {
                        assert(lawful::<T>() ==> floor_at(self@, *value, root));
                        Some(key)
                    },
                }
            },
            None => {
                assert(self.inorder() =~= Seq::<T>::empty());
                None
            },
        }
    }

    /// What `floor` has found in a subtree, it has found in the tree, `shift`
    /// positions further on.
    proof fn lemma_floor_found(part: Seq<T>, all: Seq<T>, v: T, found: Option<&T>, shift: int)
        requires
            forall|i: int| #[trigger]
                floor_at(part, v, i) ==> floor_at(all, v, shift + i) && all[shift + i] == part[i],
            found matches Some(e) ==> exists|i: int| floor_at(part, v, i) && part[i] == *e,
        ensures
            found matches Some(e) ==> exists|i: int| floor_at(all, v, i) && all[i] == *e,
    {
        if let Some(e) = found {
            let i = choose|i: int| floor_at(part, v, i) && part[i] == *e;
            assert(floor_at(all, v, shift + i));
        }
    }

    /// What `ceil` has found in a subtree, it has found in the tree, `shift`
    /// positions further on.
    proof fn lemma_ceil_found(part: Seq<T>, all: Seq<T>, v: T, found: Option<&T>, shift: int)
        requires
            forall|i: int| #[trigger]
                ceil_at(part, v, i) ==> ceil_at(all, v, shift + i) && all[shift + i] == part[i],
            found matches Some(e) ==> exists|i: int| ceil_at(part, v, i) && part[i] == *e,
        ensures
            found matches Some(e) ==> exists|i: int| ceil_at(all, v, i) && all[i] == *e,
    {
        if let Some(e) = found {
            let i = choose|i: int| ceil_at(part, v, i) && part[i] == *e;
            assert(ceil_at(all, v, shift + i));
        }
    }

    /// The least value of the tree that does not come before `value`; `None`
    /// where every value comes before it.
    pub fn ceil(&self, value: &T) -> (found: Option<&T>)
        requires
            self.wf(),
        ensures
            lawful::<T>() ==> match found {
                Some(e) => exists|i: int| ceil_at(self@, *value, i) && self@[i] == *e,
                None => all_before(self@, *value),
            },
        decreases self,
    {
        match &self.value {
            Some(key) => {
                let order = key.cmp(value);
                proof {
                    if lawful::<T>() {
                        lemma_order(*key, *value, *key);
                        match order {
                            Ordering::Equal => self.lemma_answer_is_root(*value),
                            Ordering::Greater => self.lemma_answer_is_left(*value),
                            Ordering::Less => self.lemma_answer_is_right(*value),
                        }
                    }
                }
                let ghost root = self.root_at();
                match order {
                    Ordering::Less => match &self.right {
                        Some(node) => {
                            let val = node.ceil(value);
                            proof {
                                if lawful::<T>() {
                                    Self::lemma_ceil_found(
                                        node.inorder(),
                                        self@,
                                        *value,
                                        val,
                                        root + 1,
                                    );
                                }
                            }
                            val
                        },
                        None => None,
                    },
                    Ordering::Greater => match &self.left {
                        Some(node) => {
                            let val = node.ceil(value);
                            proof {
                                if lawful::<T>() {
                                    Self::lemma_ceil_found(node.inorder(), self@, *value, val, 0);
                                }
                            }
                            match val {
                                Some(_) => val,
                                None => {
                                    assert(lawful::<T>() ==> ceil_at(self@, *value, root));
                                    Some(key)
                                },
                            }
                        },
                        None => {
                            assert(lawful::<T>() ==> ceil_at(self@, *value, root));
                            Some(key)
                        },
                    },
                    Ordering::Equal => {
                        assert(lawful::<T>() ==> ceil_at(self@, *value, root));
                        Some(key)
                    },
                }
            },
            None => {
                assert(self.inorder() =~= Seq::<T>::empty());
                None
            },
        }
    }

    /// The values of a well-formed tree stand in order: none comes before one
    /// that stands in front of it.
    pub proof fn lemma_sorted(self)
        requires
            self.wf(),
            lawful::<T>(),
        ensures
            forall|i: int, j: int|
                0 <= i <= j < self@.len() ==> !less(#[trigger] self@[j], #[trigger] self@[i]),
        decreases self,
    {
        let lefts = Self::inorder_of(self.left);
        let rights = Self::inorder_of(self.right);
        let all = self.inorder();
        if let Some(tree) = self.left {
            tree.lemma_sorted();
            assert(tree@ == lefts);
        }
        if let Some(tree) = self.right {
            tree.lemma_sorted();
            assert(tree@ == rights);
        }
        assert forall|i: int, j: int| 0 <= i <= j < all.len() implies !less(
            #[trigger] all[j],
            #[trigger] all[i],
        ) by {
            let key = self.value->0;
            let base = lefts.len() + 1;
            if self.value is None {
                assert(all =~= Seq::<T>::empty());
            }
            if j < lefts.len() {
                assert(all[i] == lefts[i] && all[j] == lefts[j]);
            } else if i >= base {
                assert(all[i] == rights[i - base] && all[j] == rights[j - base]);
            } else {
                assert(i < lefts.len() ==> all[i] == lefts[i]);
                assert(j >= base ==> all[j] == rights[j - base]);
                assert(all[base - 1] == key);
                lemma_order(all[i], key, all[j]);
            }
        }
    }

    /// An iterator over the values of the tree in order.
    pub fn iter(&self) -> (iter: BinarySearchTreeIter<'_, T>)
        requires
            self.wf(),
        ensures
            iter.wf(),
            iter.remaining() == self@,
    {
        BinarySearchTreeIter::new(self)
    }
}

/// An iterator over the values of a tree in order. It keeps the nodes whose
/// value and right subtree are still to come on a stack, the next one on top.
pub struct BinarySearchTreeIter<'a, T> where T: Ord {
    stack: Vec<&'a BinarySearchTree<T>>,
}

impl<'a, T: Ord> BinarySearchTreeIter<'a, T> {
    /// What a stack of nodes still has to give: for each node from the top
    /// down, its value and then the values of its right subtree.
    spec fn pending(stack: Seq<&'a BinarySearchTree<T>>) -> Seq<T>
        decreases stack.len(),
    {
        if stack.len() == 0 {
            Seq::empty()
        } else {
            stack.last().own() + BinarySearchTree::inorder_of(stack.last().right) + Self::pending(
                stack.drop_last(),
            )
        }
    }

    /// Every node on the stack is shaped, and only a stack of one node can
    /// hold a node without a value: the root of an empty tree.
    spec fn shaped(stack: Seq<&'a BinarySearchTree<T>>) -> bool {
        forall|i: int|
            0 <= i < stack.len() ==> (#[trigger] stack[i]).shaped() && (stack[i].value is None
                ==> stack.len() == 1)
    }

    /// The values that the iterator has still to give, the next one first.
    pub closed spec fn remaining(self) -> Seq<T> {
        Self::pending(self.stack@)
    }

    /// The invariant of the iterator.
    pub closed spec fn wf(self) -> bool {
        Self::shaped(self.stack@)
    }

    /// An iterator that stands in front of the first value of `tree`.
    pub fn new(tree: &'a BinarySearchTree<T>) -> (iter: Self)
        requires
            tree.wf(),
        ensures
            iter.wf(),
            iter.remaining() == tree@,
    {
        let mut stack: Vec<&'a BinarySearchTree<T>> = Vec::new();
        stack.push(tree);
        let mut iter = BinarySearchTreeIter { stack };
        proof {
            assert(iter.stack@.drop_last() =~= Seq::empty());
            assert(Self::pending(Seq::empty()) =~= Seq::<T>::empty());
            assert(Self::pending(iter.stack@) =~= tree.own() + BinarySearchTree::inorder_of(
                tree.right,
            ));
        }
        iter.stack_push_left();
        iter
    }

    /// Pushes the left child of the node on top, then the left child of that
    /// one, and so on down to the node that has none.
    fn stack_push_left(&mut self)
        requires
            old(self).stack@.len() > 0,
            Self::shaped(old(self).stack@),
        ensures
            final(self).wf(),
            final(self).remaining() == BinarySearchTree::inorder_of(old(self).stack@.last().left)
                + Self::pending(old(self).stack@),
    {
        loop
            invariant
                self.stack@.len() > 0,
                Self::shaped(self.stack@),
                BinarySearchTree::inorder_of(self.stack@.last().left) + Self::pending(self.stack@)
                    == BinarySearchTree::inorder_of(old(self).stack@.last().left) + Self::pending(
                    old(self).stack@,
                ),
            ensures
                Self::shaped(self.stack@),
                Self::pending(self.stack@) == BinarySearchTree::inorder_of(
                    old(self).stack@.last().left,
                ) + Self::pending(old(self).stack@),
            decreases self.stack@.last(),
        {
            let top: &'a BinarySearchTree<T> = self.stack[self.stack.len() - 1];
            match &top.left {
                Some(child) => {
                    let ghost before = self.stack@;
                    self.stack.push(&**child);
                    proof {
                        assert(self.stack@.drop_last() =~= before);
                        assert(before[before.len() - 1].shaped());
                        assert(BinarySearchTree::inorder_of(child.left) + Self::pending(
                            self.stack@,
                        ) =~= BinarySearchTree::inorder_of(top.left) + Self::pending(before));
                    }
                },
                None => {
                    proof {
                        assert(BinarySearchTree::inorder_of(top.left) + Self::pending(self.stack@)
                            =~= Self::pending(self.stack@));
                    }
                    break ;
                },
            }
        }
    }

    /// Gives the next value in order and steps over it; `None` once every
    /// value has been given, and from then on.
    pub fn next(&mut self) -> (value: Option<&'a T>)
        requires
            old(self).wf(),
        ensures
            final(self).wf(),
            old(self).remaining().len() == 0 ==> value is None && final(self).remaining().len()
                == 0,
            old(self).remaining().len() > 0 ==> value == Some(&old(self).remaining()[0])
                && final(self).remaining() == old(self).remaining().drop_first(),
    {
        if self.stack.len() == 0 {
            None
        } else {
            let ghost before = self.stack@;
            let node: &'a BinarySearchTree<T> = self.stack.pop().unwrap();
            let ghost rest = self.stack@;
            proof {
                assert(rest =~= before.drop_last());
                assert(before[before.len() - 1].shaped());
                assert forall|i: int| 0 <= i < rest.len() implies (#[trigger] rest[i]).shaped()
                    && rest[i].value is Some by {
                    assert(rest[i] == before[i]);
                }
            }
            match &node.right {
                Some(child) => {
                    self.stack.push(&**child);
                    proof {
                        assert(self.stack@.drop_last() =~= rest);
                    }
                    self.stack_push_left();
                },
                None => {
                    proof {
                        assert(BinarySearchTree::inorder_of(node.right) + Self::pending(rest)
                            =~= Self::pending(rest));
                    }
                },
            }
            proof {
                let after = self.remaining();
                assert(after =~= BinarySearchTree::inorder_of(node.right) + Self::pending(rest));
                assert(old(self).remaining() =~= node.own() + after);
                if node.value is Some {
                    assert(after =~= old(self).remaining().drop_first());
                }
            }
            node.value.as_ref()
        }
    }
}

impl<T> Default for BinarySearchTree<T> where T: Ord {
    /// An empty tree.
    fn default() -> (tree: Self)
        ensures
            tree.wf(),
            tree@ == Seq::<T>::empty(),
    {
        Self::new()
    }
}

} // verus!
