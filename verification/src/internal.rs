//! Range derivation, from the position of a record to the view of its
//! subtree, and the depth markers of a building session.

use crate::layout::{first_of, is_forest, lemma_subtree_is_tree, splice, subtree};
use crate::model::{every_tree, lemma_subtrees_in_post_order, read_forest};
use crate::node::Node;
use crate::tree::{Tree, TreeMut};
use vstd::prelude::*;

verus! {

/// The nesting depth of a building session, as a type: `Zero`, or `Succ` of
/// a depth.
pub trait Internal {
    /// The store lengths recorded when the levels that are still open were
    /// opened, the outermost level first.
    spec fn marks(&self) -> Seq<int>;
}

/// No level is open.
pub struct Zero;

/// One more level is open than `N` says.
pub struct Succ<N: Internal> {
    pub(crate) stashed: N,
    pub(crate) position: usize,
}

impl Internal for Zero {
    open spec fn marks(&self) -> Seq<int> {
        Seq::empty()
    }
}

impl<N: Internal> Internal for Succ<N> {
    open(crate) spec fn marks(&self) -> Seq<int> {
        self.stashed.marks().push(self.position as int)
    }
}

/// The view of the subtree whose root is stored at `index`: the `width`
/// records that end there.
pub(crate) fn get_tree<'a, T>(nodes: &'a [Node<T>], index: usize) -> (tree: Tree<'a, T>)
    requires
        is_forest(nodes@),
        index < nodes@.len(),
    ensures
        tree.wf(),
        tree@ == subtree(nodes@, index as int),
        tree.rose() == every_tree(read_forest(nodes@))[index as int],
{
    let width = nodes[index].width;
    proof {
        lemma_subtree_is_tree(nodes@, index as int);
        lemma_subtrees_in_post_order(nodes@);
    }
    let range = &nodes[index + 1 - width..index + 1];
    Tree { nodes: range }
}

/// The view, for writing, of the subtree whose root is stored at `index`.
pub(crate) fn get_tree_mut<'a, T>(nodes: &'a mut [Node<T>], index: usize) -> (tree: TreeMut<'a, T>)
    requires
        is_forest(old(nodes)@),
        index < old(nodes)@.len(),
    ensures
        tree.wf(),
        tree@ == subtree(old(nodes)@, index as int),
        tree.rose() == every_tree(read_forest(old(nodes)@))[index as int],
        final(nodes)@ == splice(
            old(nodes)@,
            first_of(old(nodes)@, index as int),
            index + 1,
            final(tree.slot())@,
        ),
{
    let width = nodes[index].width;
    proof {
        lemma_subtree_is_tree(nodes@, index as int);
        lemma_subtrees_in_post_order(nodes@);
    }
    let ghost whole = nodes@;
    let (upto, _after) = nodes.split_at_mut(index + 1);
    let (_before, range) = upto.split_at_mut(index + 1 - width);
    assert(range@ == subtree(whole, index as int));
    TreeMut { nodes: range }
}

} // verus!
