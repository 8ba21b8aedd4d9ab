//! Views of a single tree: a run of records whose last record is the root of
//! all the others.

use crate::internal::{get_tree, get_tree_mut};
use crate::layout::{children_rev, first_of, is_forest, is_tree, join_rev, splice};
use crate::layout::{subtree, top_level_rev, total_len};
use crate::laws::lemma_children_cover;
use crate::model::{every_tree_of, lemma_read_children, lemma_tree_subtrees_in_post_order};
use crate::model::{read_tree, Rose};
use crate::layout::{lemma_join_rev_push, lemma_prefix_is_forest, lemma_subtree_is_tree};
use crate::node::Node;
use vstd::prelude::*;

verus! {

/// A shared view of one tree inside a forest.
#[derive(Debug)]
pub struct Tree<'a, T> {
    pub(crate) nodes: &'a [Node<T>],
}

impl<'a, T> Clone for Tree<'a, T> {
    /// Another view of the same records.
    fn clone(&self) -> (copy: Tree<'a, T>)
        ensures
            copy == *self,
    {
        Tree { nodes: self.nodes }
    }
}

impl<'a, T> Copy for Tree<'a, T> {

}

impl<'a, T> View for Tree<'a, T> {
    type V = Seq<Node<T>>;

    open(crate) spec fn view(&self) -> Seq<Node<T>> {
        self.nodes@
    }
}

/// What each of the trees holds.
pub open spec fn tree_views<'a, T>(trees: Seq<Tree<'a, T>>) -> Seq<Seq<Node<T>>> {
    Seq::new(trees.len(), |k: int| trees[k]@)
}

/// The tree that each of the views shows.
pub open spec fn tree_roses<'a, T>(trees: Seq<Tree<'a, T>>) -> Seq<Rose<T>> {
    Seq::new(trees.len(), |k: int| trees[k].rose())
}

/// What each of the trees holds now.
pub open spec fn tree_mut_views<'a, T>(trees: Seq<TreeMut<'a, T>>) -> Seq<Seq<Node<T>>> {
    Seq::new(trees.len(), |k: int| trees[k]@)
}

/// The trees of a forest that are still to be handed out, the last one next.
pub(crate) struct ChildIter<'a, T>(pub(crate) &'a [Node<T>]);

impl<'a, T> ChildIter<'a, T> {
    pub(crate) open spec fn view(&self) -> Seq<Node<T>> {
        self.0@
    }

    /// Peels the last tree off the records that are left.
    pub(crate) fn next(&mut self) -> (next: Option<Tree<'a, T>>)
        requires
            is_forest(old(self)@),
        ensures
            is_forest(final(self)@),
            old(self)@.len() == 0 ==> {
                &&& next is None
                &&& final(self)@ == old(self)@
            },
            old(self)@.len() > 0 ==> {
                &&& next is Some
                &&& next.unwrap().wf()
                &&& next.unwrap()@ == subtree(old(self)@, old(self)@.len() - 1)
                &&& final(self)@ == old(self)@.subrange(
                    0,
                    first_of(old(self)@, old(self)@.len() - 1),
                )
            },
    {
        let len = self.0.len();
        if len == 0 {
            return None;
        }
        let width = self.0[len - 1].width;
        proof {
            lemma_subtree_is_tree(self.0@, len - 1);
            lemma_prefix_is_forest(self.0@, len - width);
        }
        let (rest, tree_nodes) = self.0.split_at(len - width);
        self.0 = rest;
        Some(Tree { nodes: tree_nodes })
    }
}

impl<'a, T> Tree<'a, T> {
    /// The view holds exactly one tree.
    pub open spec fn wf(&self) -> bool {
        is_tree(self@)
    }

    /// The tree that the view shows.
    pub open spec fn rose(&self) -> Rose<T> {
        read_tree(self@)
    }

    /// The value held at the root of the tree.
    pub fn root(&self) -> (value: &'a T)
        requires
            self.wf(),
        ensures
            *value == self@.last().value,
            *value == self.rose().value,
    {
        &self.nodes[self.nodes.len() - 1].value
    }

    /// The number of records in the tree, the root included.
    pub fn len(&self) -> (len: usize)
        ensures
            len == self@.len(),
    {
        self.nodes.len()
    }

    /// The subtree whose root is stored at `index` of this tree: the tree at
    /// that position among all the trees inside this one, each taken after
    /// the trees inside it, and this one last.
    pub fn index(&self, index: usize) -> (tree: Tree<'a, T>)
        requires
            self.wf(),
            index < self@.len(),
        ensures
            tree.wf(),
            tree@ == subtree(self@, index as int),
            tree.rose() == every_tree_of(self.rose())[index as int],
    {
        proof {
            lemma_tree_subtrees_in_post_order(self@);
        }
        get_tree(self.nodes, index)
    }

    /// The child subtrees of the root, the rightmost one first.
    pub fn children_rev(&self) -> (children: Vec<Tree<'a, T>>)
        requires
            self.wf(),
        ensures
            tree_views(children@) == children_rev(self@),
            forall|k: int| 0 <= k < children@.len() ==> (#[trigger] children@[k]).wf(),
            total_len(tree_views(children@)) == self@.last().width - 1,
            children@.len() == self.rose().children.len(),
            forall|k: int|
                0 <= k < children@.len() ==> (#[trigger] children@[k]).rose()
                    == self.rose().children[children@.len() - 1 - k],
    {
        proof {
            lemma_children_cover(self@);
            lemma_read_children(self@);
        }
        let mut children: Vec<Tree<'a, T>> = Vec::new();
        let (below, _) = self.nodes.split_at(self.nodes.len() - 1);
        let mut iter = ChildIter(below);
        proof {
            lemma_prefix_is_forest(self@, self@.len() - 1);
            assert(self@.subrange(0, self@.len() - 1) == self@.drop_last());
        }
        loop
            invariant
                is_forest(iter@),
                forall|k: int| 0 <= k < children@.len() ==> (#[trigger] children@[k]).wf(),
                tree_views(children@) + top_level_rev(iter@) == children_rev(self@),
            ensures
                tree_views(children@) == children_rev(self@),
            decreases iter@.len(),
        {
            let ghost before = iter@;
            let ghost seen = tree_views(children@);
            match iter.next() {
                Some(child) => {
                    children.push(child);
                    assert(tree_views(children@) == seen.push(child@));
                    assert(seen.push(child@) + top_level_rev(iter@) == seen + top_level_rev(
                        before,
                    ));
                },
                None => {
                    assert(top_level_rev(before) == Seq::<Seq<Node<T>>>::empty());
                    assert(seen + Seq::<Seq<Node<T>>>::empty() == seen);
                    break ;
                },
            }
        }
        proof {
            assert forall|k: int| 0 <= k < children@.len() implies (#[trigger] children@[k]).rose()
                == self.rose().children[children@.len() - 1 - k] by {
                assert(tree_views(children@)[k] == children_rev(self@)[k]);
            }
        }
        children
    }
}

/// An exclusive view of one tree inside a forest. Values can be changed
/// through it; widths and the number of records cannot.
pub struct TreeMut<'a, T> {
    pub(crate) nodes: &'a mut [Node<T>],
}

/// The trees of a forest that are still to be handed out for writing, the
/// last one next.
pub(crate) struct ChildIterMut<'a, T>(pub(crate) &'a mut [Node<T>]);

impl<'a, T> ChildIterMut<'a, T> {
    pub(crate) open spec fn view(&self) -> Seq<Node<T>> {
        self.0@
    }

    /// Peels the last tree off the records that are left.
    pub(crate) fn next(&mut self) -> (next: Option<TreeMut<'a, T>>)
        requires
            is_forest(old(self)@),
        ensures
            is_forest(final(self)@),
            old(self)@.len() == 0 ==> {
                &&& next is None
                &&& final(self)@ == old(self)@
                &&& final(final(self).0)@ == final(old(self).0)@
            },
            old(self)@.len() > 0 ==> {
                &&& next is Some
                &&& next.unwrap().wf()
                &&& next.unwrap()@ == subtree(old(self)@, old(self)@.len() - 1)
                &&& final(self)@ == old(self)@.subrange(
                    0,
                    first_of(old(self)@, old(self)@.len() - 1),
                )
                &&& final(old(self).0)@ == final(final(self).0)@ + final(next.unwrap().slot())@
            },
    {
        let len = self.0.len();
        if len == 0 {
            return None;
        }
        let width = self.0[len - 1].width;
        proof {
            lemma_subtree_is_tree(self.0@, len - 1);
            lemma_prefix_is_forest(self.0@, len - width);
        }
        let mut whole: &'a mut [Node<T>] = &mut [];
        core::mem::swap(&mut self.0, &mut whole);
        let (rest, tree_nodes) = whole.split_at_mut(len - width);
        self.0 = rest;
        Some(TreeMut { nodes: tree_nodes })
    }
}

impl<'a, T> TreeMut<'a, T> {
    /// The records of the tree as they are now.
    pub open(crate) spec fn view(&self) -> Seq<Node<T>> {
        self.nodes@
    }

    /// The borrowed run of records itself. Of a view `v`, `final(v.slot())@`
    /// is what the records will be when the borrow ends.
    pub open(crate) spec fn slot(&self) -> &'a mut [Node<T>] {
        self.nodes
    }

    /// A view that is given up leaves the records as it holds them.
    pub proof fn lemma_given_up(self)
        requires
            has_resolved(self),
        ensures
            final(self.slot())@ == self@,
    {
    }

    /// The view holds exactly one tree.
    pub open spec fn wf(&self) -> bool {
        is_tree(self@)
    }

    /// The tree that the view shows, as it is now.
    pub open spec fn rose(&self) -> Rose<T> {
        read_tree(self@)
    }

    /// The same tree, for reading.
    pub fn as_ref(&self) -> (tree: Tree<'_, T>)
        ensures
            tree@ == self@,
    {
        Tree { nodes: &*self.nodes }
    }

    /// The number of records in the tree, the root included.
    pub fn len(&self) -> (len: usize)
        ensures
            len == self@.len(),
    {
        self.nodes.len()
    }

    /// The value held at the root of the tree.
    pub fn root(&self) -> (value: &T)
        requires
            self.wf(),
        ensures
            *value == self@.last().value,
            *value == self.rose().value,
    {
        &self.nodes[self.nodes.len() - 1].value
    }

    /// The value held at the root of the tree, for writing. Nothing else of
    /// the tree can change through it.
    pub fn root_mut(&mut self) -> (value: &mut T)
        requires
            old(self).wf(),
        ensures
            *value == old(self)@.last().value,
            final(self)@ == old(self)@.update(
                old(self)@.len() - 1,
                (Node { value: *final(value), width: old(self)@.last().width }),
            ),
            final(self).rose() == (Rose {
                value: *final(value),
                children: old(self).rose().children,
            }),
            final(final(self).slot())@ == final(old(self).slot())@,
    {
        proof {
            let before = self@;
            assert forall|root: Node<T>| root.width == before.last().width implies read_tree(
                #[trigger] before.update(before.len() - 1, root),
            ) == (Rose { value: root.value, children: read_tree(before).children }) by {
                let after = before.update(before.len() - 1, root);
                assert(after.drop_last() == before.drop_last());
            }
        }
        match self.nodes.last_mut() {
            Some(root) => &mut root.value,
            None => vstd::pervasive::unreached(),
        }
    }

    /// The child subtrees of the root, the rightmost one first, for writing.
    /// When the views are given up, the tree is its children as they were
    /// left, laid end to end, and then its root as it was.
    pub fn children_rev_mut(&mut self) -> (children: Vec<TreeMut<'_, T>>)
        requires
            old(self).wf(),
        ensures
            tree_mut_views(children@) == children_rev(old(self)@),
            forall|k: int| 0 <= k < children@.len() ==> (#[trigger] children@[k]).wf(),
            total_len(tree_mut_views(children@)) == old(self)@.last().width - 1,
            children@.len() == old(self).rose().children.len(),
            forall|k: int|
                0 <= k < children@.len() ==> (#[trigger] children@[k]).rose()
                    == old(self).rose().children[children@.len() - 1 - k],
            final(self)@ == join_rev(
                Seq::new(children@.len(), |k: int| final(children@[k].slot())@),
            ).push(old(self)@.last()),
            final(final(self).slot())@ == final(old(self).slot())@,
    {
        let len = self.nodes.len();
        proof {
            lemma_children_cover(self@);
            lemma_read_children(self@);
            lemma_prefix_is_forest(self@, len - 1);
            assert(self@.subrange(0, len - 1) == self@.drop_last());
        }
        let ghost whole = self@;
        let (below, root) = self.nodes.split_at_mut(len - 1);
        let ghost below_end = final(below)@;
        assert(root@ == seq![whole.last()]);
        let mut children: Vec<TreeMut<'_, T>> = Vec::new();
        let mut iter = ChildIterMut(below);
        assert(Seq::new(children@.len(), |k: int| final(children@[k].slot())@) == Seq::<
            Seq<Node<T>>,
        >::empty());
        loop
            invariant
                is_forest(iter@),
                forall|k: int| 0 <= k < children@.len() ==> (#[trigger] children@[k]).wf(),
                tree_mut_views(children@) + top_level_rev(iter@) == children_rev(whole),
                below_end == final(iter.0)@ + join_rev(
                    Seq::new(children@.len(), |k: int| final(children@[k].slot())@),
                ),
            ensures
                tree_mut_views(children@) == children_rev(whole),
                forall|k: int| 0 <= k < children@.len() ==> (#[trigger] children@[k]).wf(),
                below_end == join_rev(
                    Seq::new(children@.len(), |k: int| final(children@[k].slot())@),
                ),
            decreases iter@.len(),
        {
            let ghost before = iter@;
            let ghost seen = tree_mut_views(children@);
            let ghost ends = Seq::new(children@.len(), |k: int| final(children@[k].slot())@);
            let ghost rest_end = final(iter.0)@;
            match iter.next() {
                Some(child) => {
                    let ghost child_end = final(child.slot())@;
                    let ghost child_now = child@;
                    children.push(child);
                    proof {
                        assert(tree_mut_views(children@) == seen.push(child_now));
                        assert(seen.push(child_now) + top_level_rev(iter@) == seen + top_level_rev(
                            before,
                        ));
                        assert(Seq::new(children@.len(), |k: int| final(children@[k].slot())@)
                            == ends.push(child_end));
                        lemma_join_rev_push(ends, child_end);
                        assert(rest_end == final(iter.0)@ + child_end);
                        assert((final(iter.0)@ + child_end) + join_rev(ends) == final(iter.0)@ + (
                        child_end + join_rev(ends)));
                    }
                },
                None => {
                    proof {
                        assert(top_level_rev(before) == Seq::<Seq<Node<T>>>::empty());
                        assert(seen + Seq::<Seq<Node<T>>>::empty() == seen);
                        assert(final(iter.0)@ == Seq::<Node<T>>::empty());
                        assert(Seq::<Node<T>>::empty() + join_rev(ends) == join_rev(ends));
                    }
                    break ;
                },
            }
        }
        proof {
            assert forall|k: int| 0 <= k < children@.len() implies (#[trigger] children@[k]).rose()
                == read_tree(whole).children[children@.len() - 1 - k] by {
                assert(tree_mut_views(children@)[k] == children_rev(whole)[k]);
            }
        }
        children
    }

    /// The subtree whose root is stored at `index` of this tree, for writing.
    pub fn index_mut(&mut self, index: usize) -> (tree: TreeMut<'_, T>)
        requires
            old(self).wf(),
            index < old(self)@.len(),
        ensures
            tree.wf(),
            tree@ == subtree(old(self)@, index as int),
            tree.rose() == every_tree_of(old(self).rose())[index as int],
            final(self)@ == splice(
                old(self)@,
                first_of(old(self)@, index as int),
                index + 1,
                final(tree.slot())@,
            ),
            final(final(self).slot())@ == final(old(self).slot())@,
    {
        proof {
            lemma_tree_subtrees_in_post_order(self@);
        }
        get_tree_mut(&mut *self.nodes, index)
    }
}

} // verus!
