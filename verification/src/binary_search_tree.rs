//! An unbalanced binary search tree that holds a set of items.

use crate::order::greater;
use crate::order::less;
use crate::order::strict_total_order;
use vstd::prelude::*;

verus! {

struct Node<T: PartialOrd> {
    item: T,
    left: BinarySearchTree<T>,
    right: BinarySearchTree<T>,
}

impl<T: PartialOrd> Node<T> {
    fn new(item: T) -> (node: Self)
        ensures
            node.item == item,
            node.left@ == Set::<T>::empty(),
            node.right@ == Set::<T>::empty(),
            node.left == (BinarySearchTree::<T> { node: None }),
            node.right == (BinarySearchTree::<T> { node: None }),
            node.left.well_formed(),
            node.right.well_formed(),
    {
        Node { item, left: BinarySearchTree::new(), right: BinarySearchTree::new() }
    }
}

/// A set of items, kept in a binary search tree.
///
/// Its view is the set of the items it holds. What the operations promise
/// is promised for item types whose comparisons are a
/// [`strict_total_order`]; for others the tree is still safe to use, but
/// nothing is said of what it holds.
pub struct BinarySearchTree<T: PartialOrd> {
    node: Option<Box<Node<T>>>,
}

impl<T: PartialOrd> View for BinarySearchTree<T> {
    type V = Set<T>;

    closed spec fn view(&self) -> Set<T> {
        self.items()
    }
}

impl<T: PartialOrd> Default for BinarySearchTree<T> {
    fn default() -> (tree: Self)
        ensures
            tree@ == Set::<T>::empty(),
            tree.well_formed(),
    {
        Self::new()
    }
}

impl<T: PartialOrd> BinarySearchTree<T> {
    /// The tree has no node.
    pub closed spec fn is_empty(&self) -> bool {
        self.node is None
    }

    /// The items in the tree.
    pub closed spec fn items(&self) -> Set<T>
        decreases self,
    {
        match self.node {
            None => Set::empty(),
            Some(node) => node.left.items().union(node.right.items()).insert(node.item),
        }
    }

    /// At every node, what is in the left subtree is below the node's item
    /// and what is in the right subtree is above it.
    pub closed spec fn ordered(&self) -> bool
        decreases self,
    {
        match self.node {
            None => true,
            Some(node) => {
                &&& node.left.ordered()
                &&& node.right.ordered()
                &&& forall|x: T| #[trigger] node.left.items().contains(x) ==> less(x, node.item)
                &&& forall|x: T| #[trigger] node.right.items().contains(x) ==> less(node.item, x)
            },
        }
    }

    /// The item of the leftmost node of a tree that is not empty.
    spec fn leftmost(&self) -> T
        decreases self,
    {
        match self.node {
            None => arbitrary(),
            Some(node) => if node.left.node is Some {
                node.left.leftmost()
            } else {
                node.item
            },
        }
    }

    /// The tree without its leftmost node: the right subtree of that node
    /// takes its place.
    spec fn without_leftmost(&self) -> Self
        decreases self,
    {
        match self.node {
            None => *self,
            Some(node) => if node.left.node is Some {
                BinarySearchTree {
                    node: Some(
                        Box::new(
                            Node {
                                item: node.item,
                                left: node.left.without_leftmost(),
                                right: node.right,
                            },
                        ),
                    ),
                }
            } else {
                node.right
            },
        }
    }

    /// The tree without the item at its root. Where the root has two
    /// children, the leftmost item of the right subtree moves to the root;
    /// where it has one, that child takes its place.
    spec fn without_root(&self) -> Self {
        match self.node {
            None => *self,
            Some(node) => if node.left.node is Some && node.right.node is Some {
                BinarySearchTree {
                    node: Some(
                        Box::new(
                            Node {
                                item: node.right.leftmost(),
                                left: node.left,
                                right: node.right.without_leftmost(),
                            },
                        ),
                    ),
                }
            } else if node.left.node is Some {
                node.left
            } else if node.right.node is Some {
                node.right
            } else {
                BinarySearchTree { node: None }
            },
        }
    }

    /// The tree with `item` put where a search for it ends: nowhere, if the
    /// search finds it, and else as a new leaf.
    pub closed spec fn with_item(&self, item: T) -> Self
        decreases self,
    {
        match self.node {
            None => BinarySearchTree {
                node: Some(
                    Box::new(
                        Node {
                            item,
                            left: BinarySearchTree { node: None },
                            right: BinarySearchTree { node: None },
                        },
                    ),
                ),
            },
            Some(node) => if less(node.item, item) {
                BinarySearchTree {
                    node: Some(
                        Box::new(
                            Node {
                                item: node.item,
                                left: node.left,
                                right: node.right.with_item(item),
                            },
                        ),
                    ),
                }
            } else if less(item, node.item) {
                BinarySearchTree {
                    node: Some(
                        Box::new(
                            Node {
                                item: node.item,
                                left: node.left.with_item(item),
                                right: node.right,
                            },
                        ),
                    ),
                }
            } else {
                *self
            },
        }
    }

    /// The tree without the node at which a search for `item` ends, if it
    /// ends at one.
    pub closed spec fn without_item(&self, item: T) -> Self
        decreases self,
    {
        match self.node {
            None => *self,
            Some(node) => if less(node.item, item) {
                BinarySearchTree {
                    node: Some(
                        Box::new(
                            Node {
                                item: node.item,
                                left: node.left,
                                right: node.right.without_item(item),
                            },
                        ),
                    ),
                }
            } else if less(item, node.item) {
                BinarySearchTree {
                    node: Some(
                        Box::new(
                            Node {
                                item: node.item,
                                left: node.left.without_item(item),
                                right: node.right,
                            },
                        ),
                    ),
                }
            } else {
                self.without_root()
            },
        }
    }

    /// The tree is a search tree, as far as the order of `T` allows to say.
    pub open spec fn well_formed(&self) -> bool {
        strict_total_order::<T>() ==> self.ordered()
    }

    /// The empty tree.
    pub fn new() -> (tree: Self)
        ensures
            tree@ == Set::<T>::empty(),
            tree.well_formed(),
            tree.is_empty(),
    {
        Self { node: None }
    }

    /// Adds `item` to the set. An item that is already there stays as it is.
    pub fn insert(&mut self, item: T)
        requires
            old(self).well_formed(),
        ensures
            final(self).well_formed(),
            strict_total_order::<T>() ==> final(self)@ == old(self)@.insert(item),
            strict_total_order::<T>() && old(self)@.contains(item) ==> *final(self) == *old(self),
            strict_total_order::<T>() ==> *final(self) == old(self).with_item(item),
            old(self)@.subset_of(final(self)@),
            final(self)@.subset_of(old(self)@.insert(item)),
        decreases *old(self),
    {
        if let Some(node) = &mut self.node {
            let ghost left = node.left@;
            let ghost right = node.right@;
            if item > node.item {
                assert(strict_total_order::<T>() ==> greater(item, node.item));
                node.right.insert(item);
                assert(strict_total_order::<T>() ==> left.union(node.right@).insert(node.item)
                    =~= left.union(right).insert(node.item).insert(item));
            } else if item < node.item {
                assert(strict_total_order::<T>() ==> less(item, node.item));
                node.left.insert(item);
                assert(strict_total_order::<T>() ==> node.left@.union(right).insert(node.item)
                    =~= left.union(right).insert(node.item).insert(item));
            } else {
                proof {
                    if strict_total_order::<T>() {
                        assert(less(item, node.item) || less(node.item, item) || item == node.item);
                        assert(greater(item, node.item) <==> less(node.item, item));
                        assert(left.union(right).insert(node.item) =~= left.union(right).insert(
                            node.item,
                        ).insert(item));
                    }
                }
            }
        } else {
            self.node = Some(Box::new(Node::new(item)));
            assert(strict_total_order::<T>() ==> self@ =~= old(self)@.insert(item));
        }
    }

    /// Removes the least item of a tree that is not empty, and returns it.
    fn find_and_delete_min(&mut self) -> (least: T)
        requires
            old(self).well_formed(),
            old(self).node is Some,
        ensures
            final(self).well_formed(),
            strict_total_order::<T>() ==> {
                &&& final(self)@ == old(self)@.remove(least)
                &&& forall|x: T| #[trigger] final(self)@.contains(x) ==> less(least, x)
            },
            old(self)@.contains(least),
            final(self)@.subset_of(old(self)@),
            least == old(self).leftmost(),
            *final(self) == old(self).without_leftmost(),
        decreases *old(self),
    {
        let ghost root = self.node.unwrap().item;
        let ghost left = self.node.unwrap().left@;
        let ghost right = self.node.unwrap().right@;
        if self.node.as_ref().unwrap().left.node.is_some() {
            let least = self.node.as_mut().unwrap().left.find_and_delete_min();
            proof {
                if strict_total_order::<T>() {
                    let rest = self.node.unwrap().left@;
                    assert(less(least, root));
                    assert(rest.union(right).insert(root) =~= left.union(right).insert(root).remove(
                        least,
                    ));
                    assert forall|x: T| #[trigger] self@.contains(x) implies less(least, x) by {
                        if right.contains(x) {
                            assert(less(root, x));
                        }
                    }
                }
            }
            least
        } else {
            let mut node = self.node.take().unwrap();
            self.node = node.right.node.take();
            proof {
                if strict_total_order::<T>() {
                    assert(left =~= Set::<T>::empty());
                    assert(self@ =~= right);
                    assert(right =~= left.union(right).insert(root).remove(root));
                }
            }
            node.item
        }
    }

    /// Removes the item at the root of a tree that is not empty.
    fn delete_node(&mut self)
        requires
            old(self).well_formed(),
            old(self).node is Some,
        ensures
            final(self).well_formed(),
            strict_total_order::<T>() ==> final(self)@ == old(self)@.remove(
                old(self).node.unwrap().item,
            ),
            final(self)@.subset_of(old(self)@),
            *final(self) == old(self).without_root(),
    {
        let ghost root = self.node.unwrap().item;
        let ghost left = self.node.unwrap().left@;
        let ghost right = self.node.unwrap().right@;
        let ghost whole = left.union(right).insert(root);
        let node = self.node.as_mut().unwrap();
        if node.left.node.is_some() && node.right.node.is_some() {
            node.item = node.right.find_and_delete_min();
            proof {
                if strict_total_order::<T>() {
                    let least = node.item;
                    assert(less(root, least));
                    assert(left.union(node.right@).insert(least) =~= whole.remove(root));
                    assert forall|x: T| #[trigger] left.contains(x) implies less(x, least) by {
                        assert(less(x, root));
                    }
                }
            }
        } else if node.left.node.is_some() {
            self.node = node.left.node.take();
            proof {
                if strict_total_order::<T>() {
                    assert(right =~= Set::<T>::empty());
                    assert(self@ =~= left);
                    assert(left =~= whole.remove(root));
                }
            }
        } else if node.right.node.is_some() {
            self.node = node.right.node.take();
            proof {
                if strict_total_order::<T>() {
                    assert(left =~= Set::<T>::empty());
                    assert(self@ =~= right);
                    assert(right =~= whole.remove(root));
                }
            }
        } else {
            self.node = None;
            proof {
                if strict_total_order::<T>() {
                    assert(left =~= Set::<T>::empty());
                    assert(right =~= Set::<T>::empty());
                    assert(self@ =~= whole.remove(root));
                }
            }
        }
    }

    /// Removes `item` from the set, if it is there.
    pub fn delete(&mut self, item: T)
        requires
            old(self).well_formed(),
        ensures
            final(self).well_formed(),
            strict_total_order::<T>() ==> final(self)@ == old(self)@.remove(item),
            strict_total_order::<T>() && !old(self)@.contains(item) ==> *final(self) == *old(self),
            strict_total_order::<T>() ==> *final(self) == old(self).without_item(item),
            final(self)@.subset_of(old(self)@),
        decreases *old(self),
    {
        if let Some(node) = &mut self.node {
            let ghost root = node.item;
            let ghost left = node.left@;
            let ghost right = node.right@;
            let ghost whole = left.union(right).insert(root);
            if item > node.item {
                assert(strict_total_order::<T>() ==> greater(item, node.item));
                node.right.delete(item);
                proof {
                    if strict_total_order::<T>() {
                        assert(!left.contains(item)) by {
                            if left.contains(item) {
                                assert(less(item, root));
                                assert(less(item, item));
                            }
                        }
                        assert(left.union(node.right@).insert(root) =~= whole.remove(item));
                    }
                }
            } else if item < node.item {
                assert(strict_total_order::<T>() ==> less(item, node.item));
                node.left.delete(item);
                proof {
                    if strict_total_order::<T>() {
                        assert(!right.contains(item)) by {
                            if right.contains(item) {
                                assert(less(root, item));
                                assert(less(item, item));
                            }
                        }
                        assert(node.left@.union(right).insert(root) =~= whole.remove(item));
                    }
                }
            } else {
                proof {
                    if strict_total_order::<T>() {
                        assert(less(item, root) || less(root, item) || item == root);
                        assert(greater(item, root) <==> less(root, item));
                    }
                }
                self.delete_node();
            }
        } else {
            assert(strict_total_order::<T>() ==> self@ =~= old(self)@.remove(item));
        }
    }

    /// Whether `item` is in the set.
    pub fn contains(&self, item: T) -> (found: bool)
        requires
            self.well_formed(),
        ensures
            strict_total_order::<T>() ==> found == self@.contains(item),
        decreases self,
    {
        if let Some(node) = &self.node {
            if item > node.item {
                proof {
                    if strict_total_order::<T>() {
                        assert(greater(item, node.item));
                        if node.left@.contains(item) {
                            assert(less(item, node.item));
                            assert(less(item, item));
                        }
                    }
                }
                node.right.contains(item)
            } else if item < node.item {
                proof {
                    if strict_total_order::<T>() {
                        assert(less(item, node.item));
                        if node.right@.contains(item) {
                            assert(less(node.item, item));
                            assert(less(item, item));
                        }
                    }
                }
                node.left.contains(item)
            } else {
                proof {
                    if strict_total_order::<T>() {
                        assert(less(item, node.item) || less(node.item, item) || item == node.item);
                        assert(greater(item, node.item) <==> less(node.item, item));
                    }
                }
                true
            }
        } else {
            false
        }
    }
}

} // verus!
