//! Views of a run of whole trees inside a forest.

use crate::internal::{get_tree, get_tree_mut};
use crate::layout::{first_of, is_forest, same_shape, splice, subtree, values};
use crate::model::{every_tree, lemma_stored_in_post_order, post_order, read_forest, Rose};
use crate::node::Node;
use crate::traversal::{all_subtrees, targets, visit_order, TraversalOrder, TreesMut};
use crate::tree::{tree_roses, tree_views, Tree, TreeMut};
use vstd::prelude::*;

verus! {

/// A shared view of zero or more whole trees that lie next to each other.
#[derive(Debug)]
pub struct Grove<'a, T> {
    pub(crate) nodes: &'a [Node<T>],
}

impl<'a, T> Clone for Grove<'a, T> {
    /// Another view of the same records.
    fn clone(&self) -> (copy: Grove<'a, T>)
        ensures
            copy == *self,
    {
        Grove { nodes: self.nodes }
    }
}

impl<'a, T> Copy for Grove<'a, T> {

}

impl<'a, T> View for Grove<'a, T> {
    type V = Seq<Node<T>>;

    open(crate) spec fn view(&self) -> Seq<Node<T>> {
        self.nodes@
    }
}

impl<'a, T> Grove<'a, T> {
    /// The view holds whole trees only.
    pub open spec fn wf(&self) -> bool {
        is_forest(self@)
    }

    /// The forest that the view shows, its trees from left to right.
    pub open spec fn forest(&self) -> Seq<Rose<T>> {
        read_forest(self@)
    }

    /// Whether the view holds no tree.
    pub fn is_empty(&self) -> (empty: bool)
        ensures
            empty == (self@.len() == 0),
    {
        self.nodes.len() == 0
    }

    /// The number of records in the view.
    pub fn len(&self) -> (len: usize)
        ensures
            len == self@.len(),
    {
        self.nodes.len()
    }

    /// The values of all records, in the given order: of a forest, the
    /// values of each tree with the children before their parent and from
    /// left to right, or all of that backwards.
    pub fn nodes<Order: TraversalOrder>(&self, order: Order) -> (out: Vec<&'a T>)
        ensures
            targets(out@) == visit_order(order.reversed(), values(self@)),
            self.wf() ==> targets(out@) == visit_order(order.reversed(), post_order(self.forest())),
    {
        proof {
            if self.wf() {
                lemma_stored_in_post_order(self@);
            }
        }
        order.node_iter(self.nodes)
    }

    /// The subtree of every record, in the given order: not the top-level
    /// trees alone, but every tree of the forest, each after the trees inside
    /// it, or all of that backwards.
    pub fn trees<Order: TraversalOrder>(&self, order: Order) -> (out: Vec<Tree<'a, T>>)
        requires
            self.wf(),
        ensures
            tree_views(out@) == visit_order(order.reversed(), all_subtrees(self@)),
            tree_roses(out@) == visit_order(order.reversed(), every_tree(self.forest())),
            forall|k: int| 0 <= k < out@.len() ==> (#[trigger] out@[k]).wf(),
    {
        order.tree_iter(self.nodes)
    }

    /// The subtree whose root is stored at `index`: the tree at that
    /// position among all the trees of the forest, each taken after the trees
    /// inside it.
    pub fn index(&self, index: usize) -> (tree: Tree<'a, T>)
        requires
            self.wf(),
            index < self@.len(),
        ensures
            tree.wf(),
            tree@ == subtree(self@, index as int),
            tree.rose() == every_tree(self.forest())[index as int],
    {
        get_tree(self.nodes, index)
    }
}

/// An exclusive view of zero or more whole trees that lie next to each
/// other. Values can be changed through it; widths and the number of records
/// cannot.
pub struct GroveMut<'a, T> {
    pub(crate) nodes: &'a mut [Node<T>],
}

impl<'a, T> GroveMut<'a, T> {
    /// The records of the view as they are now.
    pub open(crate) spec fn view(&self) -> Seq<Node<T>> {
        self.nodes@
    }

    /// The borrowed run of records itself. Of a view `v`, `final(v.slot())@`
    /// is what the records will be when the borrow ends.
    pub open(crate) spec fn slot(&self) -> &'a mut [Node<T>] {
        self.nodes
    }

    /// A view that is given up leaves the records as it holds them.
    pub proof fn lemma_given_up(self)
        requires
            has_resolved(self),
        ensures
            final(self.slot())@ == self@,
    {
    }

    /// The view holds whole trees only.
    pub open spec fn wf(&self) -> bool {
        is_forest(self@)
    }

    /// The forest that the view shows, as it is now.
    pub open spec fn forest(&self) -> Seq<Rose<T>> {
        read_forest(self@)
    }

    /// The same trees, for reading.
    pub fn as_ref(&self) -> (grove: Grove<'_, T>)
        ensures
            grove@ == self@,
    {
        Grove { nodes: &*self.nodes }
    }

    /// Whether the view holds no tree.
    pub fn is_empty(&self) -> (empty: bool)
        ensures
            empty == (self@.len() == 0),
    {
        self.nodes.len() == 0
    }

    /// The number of records in the view.
    pub fn len(&self) -> (len: usize)
        ensures
            len == self@.len(),
    {
        self.nodes.len()
    }

    /// The values of all records, in the given order, for writing. When the
    /// references are given up, each record holds what was left in its
    /// reference, and its width is what it was.
    pub fn nodes_mut<Order: TraversalOrder>(&mut self, order: Order) -> (out: Vec<&mut T>)
        ensures
            Seq::new(out@.len(), |k: int| *out@[k]) == visit_order(
                order.reversed(),
                values(old(self)@),
            ),
            same_shape(old(self)@, final(self)@),
            Seq::new(out@.len(), |k: int| *final(out@[k])) == visit_order(
                order.reversed(),
                values(final(self)@),
            ),
            final(final(self).slot())@ == final(old(self).slot())@,
    {
        order.node_iter_mut(&mut *self.nodes)
    }

    /// The subtree of every record, in the given order, for writing, one at
    /// a time.
    pub fn trees_mut<Order: TraversalOrder>(&mut self, order: Order) -> (walk: TreesMut<'_, T>)
        requires
            old(self).wf(),
        ensures
            walk.wf(),
            walk@ == old(self)@,
            walk.step() == 0,
            walk.reversed() == order.reversed(),
            final(self)@ == final(walk.slot())@,
            final(final(self).slot())@ == final(old(self).slot())@,
    {
        order.tree_iter_mut(&mut *self.nodes)
    }

    /// The subtree whose root is stored at `index`, for writing.
    pub fn index_mut(&mut self, index: usize) -> (tree: TreeMut<'_, T>)
        requires
            old(self).wf(),
            index < old(self)@.len(),
        ensures
            tree.wf(),
            tree@ == subtree(old(self)@, index as int),
            tree.rose() == every_tree(old(self).forest())[index as int],
            final(self)@ == splice(
                old(self)@,
                first_of(old(self)@, index as int),
                index + 1,
                final(tree.slot())@,
            ),
            final(final(self).slot())@ == final(old(self).slot())@,
    {
        get_tree_mut(&mut *self.nodes, index)
    }
}

} // verus!
