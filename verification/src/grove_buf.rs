//! The owning store of a forest and the session that builds it.

use crate::grove::{Grove, GroveMut};
use crate::internal::get_tree_mut;
use crate::internal::{Internal, Succ, Zero};
use crate::layout::{first_of, is_boundary, is_forest, marks_fit, same_shape, splice};
use crate::layout::subtree;
use crate::layout::{top_level_rev, total_len, values, with_leaf, with_root};
use crate::layout::{lemma_boundary_of_prefix, lemma_boundary_steps_back, lemma_same_shape_forest};
use crate::layout::{lemma_push_leaf, lemma_push_root, lemma_top_level_partition};
use crate::layout::{lemma_top_level_split, lemma_window_is_forest};
use crate::model::{every_tree, levels_of, post_order, read_forest, Rose};
use crate::model::{lemma_levels_closed, lemma_levels_opened, lemma_levels_with_leaf};
use crate::model::{lemma_read_top_level, lemma_read_with_leaf, lemma_read_with_root};
use crate::node::Node;
use crate::traversal::{all_subtrees, targets, visit_order, TraversalOrder, TreesMut};
use crate::tree::{tree_roses, tree_views, Tree, TreeMut};
use vstd::prelude::*;

verus! {

/// A forest in one growable run of records. Every tree lies in it with the
/// subtrees of its children first, from left to right, and its root last.
/// Records are only ever appended.
#[derive(Debug)]
pub struct GroveBuf<T> {
    pub(crate) nodes: Vec<Node<T>>,
}

impl<T> View for GroveBuf<T> {
    type V = Seq<Node<T>>;

    open(crate) spec fn view(&self) -> Seq<Node<T>> {
        self.nodes@
    }
}

impl<T> Default for GroveBuf<T> {
    /// A store with no trees.
    fn default() -> (store: GroveBuf<T>)
        ensures
            store@ == Seq::<Node<T>>::empty(),
            store.forest() == Seq::<Rose<T>>::empty(),
            store.wf(),
    {
        GroveBuf { nodes: Vec::new() }
    }
}

impl<T: Clone> Clone for GroveBuf<T> {
    /// A store of the same shape that holds a clone of each value.
    fn clone(&self) -> (copy: GroveBuf<T>)
        ensures
            same_shape(self@, copy@),
            forall|i: int|
                0 <= i < self@.len() ==> cloned::<T>((#[trigger] self@[i]).value, copy@[i].value),
            self.wf() ==> copy.wf(),
    {
        let mut nodes: Vec<Node<T>> = Vec::new();
        let mut at: usize = 0;
        while at < self.nodes.len()
            invariant
                at <= self.nodes@.len(),
                nodes@.len() == at,
                forall|i: int| 0 <= i < at ==> (#[trigger] self.nodes@[i]).width == nodes@[i].width,
                forall|i: int|
                    0 <= i < at ==> cloned::<T>((#[trigger] self.nodes@[i]).value, nodes@[i].value),
            decreases self.nodes@.len() - at,
        {
            nodes.push(self.nodes[at].clone());
            at += 1;
        }
        let copy = GroveBuf { nodes };
        proof {
            if self.wf() {
                lemma_same_shape_forest(self@, copy@);
            }
        }
        copy
    }
}

/// A session that appends to a store without ever breaking the width
/// invariant. `open` starts a level of nesting; `close` ends the innermost
/// open level and makes all that was appended inside it the children of a new
/// record. The depth `N` is part of the type: `close` exists only while a
/// level is open, and `build` only when none is.
pub struct GroveBufBuilder<'a, T, N: Internal>(
    pub(crate) &'a mut GroveBuf<T>,
    pub(crate) N,
);

impl<'a, T, N: Internal> GroveBufBuilder<'a, T, N> {
    /// The records of the store as the session has left them so far.
    pub open(crate) spec fn store(&self) -> Seq<Node<T>> {
        self.0@
    }

    /// The borrowed store itself. Of a session `s`, `final(s.slot())@` is
    /// what the store will hold when the borrow ends.
    pub open(crate) spec fn slot(&self) -> &'a mut GroveBuf<T> {
        self.0
    }

    /// The store lengths at which the levels that are still open were
    /// opened, the outermost level first.
    pub open(crate) spec fn marks(&self) -> Seq<int> {
        self.1.marks()
    }

    /// A session that is given up, whatever levels are open, leaves the
    /// store as it holds it.
    pub proof fn lemma_given_up(self)
        requires
            has_resolved(self),
        ensures
            final(self.slot())@ == self.store(),
    {
    }

    /// The store is a forest, and each open level began on a boundary of it.
    pub open spec fn wf(&self) -> bool {
        &&& is_forest(self.store())
        &&& marks_fit(self.store(), self.marks())
    }

    /// The forests in the making, one for each level: first the trees
    /// finished outside every open level, last those finished inside the
    /// innermost one.
    pub open spec fn levels(&self) -> Seq<Seq<Rose<T>>> {
        levels_of(self.store(), self.marks())
    }

    /// Appends a leaf at the current depth.
    pub fn push(self, value: T) -> (session: GroveBufBuilder<'a, T, N>)
        requires
            self.wf(),
        ensures
            session.wf(),
            session.store() == with_leaf(self.store(), value),
            session.marks() == self.marks(),
            session.levels() == self.levels().drop_last().push(
                self.levels().last().push((Rose { value, children: Seq::empty() })),
            ),
            final(session.slot())@ == final(self.slot())@,
    {
        let ghost before = self.store();
        let ghost marks = self.marks();
        self.0.push(value);
        proof {
            lemma_levels_with_leaf(before, marks, value);
            let leaf = Node { value, width: 1 };
            lemma_push_leaf(before, leaf);
            lemma_push_root(before, before.len() as int, leaf);
            assert forall|k: int| 0 <= k < marks.len() implies is_boundary(
                before.push(leaf),
                #[trigger] marks[k],
            ) by {
                assert(is_boundary(before, marks[k]));
            }
        }
        self
    }

    /// Starts a level of nesting: what is appended from now until the
    /// matching `close` becomes the children of the record that `close`
    /// appends.
    pub fn open(self) -> (session: GroveBufBuilder<'a, T, Succ<N>>)
        requires
            self.wf(),
        ensures
            session.wf(),
            session.store() == self.store(),
            session.marks() == self.marks().push(self.store().len() as int),
            session.levels() == self.levels().push(Seq::empty()),
            final(session.slot())@ == final(self.slot())@,
    {
        let len = self.0.len();
        let ghost marks = self.marks();
        proof {
            lemma_levels_opened(self.store(), marks);
        }
        let session = GroveBufBuilder(self.0, Succ { stashed: self.1, position: len });
        proof {
            let more = session.marks();
            assert forall|k: int, l: int| 0 <= k <= l < more.len() implies more[k] <= more[l] by {
                if k < marks.len() {
                    assert(is_boundary(session.store(), marks[k]));
                }
            }
        }
        session
    }
}

impl<'a, T, N: Internal> GroveBufBuilder<'a, T, Succ<N>> {
    /// Ends the innermost open level: appends a record with `value` whose
    /// subtree is everything appended since the matching `open`.
    pub fn close(self, value: T) -> (session: GroveBufBuilder<'a, T, N>)
        requires
            self.wf(),
            self.store().len() < usize::MAX,
        ensures
            session.wf(),
            self.marks().len() > 0,
            session.marks() == self.marks().drop_last(),
            session.store() == with_root(self.store(), value, self.marks().last()),
            self.levels().len() >= 2,
            session.levels() == self.levels().drop_last().drop_last().push(
                self.levels()[self.levels().len() - 2].push(
                    (Rose { value, children: self.levels().last() }),
                ),
            ),
            final(session.slot())@ == final(self.slot())@,
    {
        let ghost before = self.store();
        let ghost marks = self.marks();
        let GroveBufBuilder(store, depth) = self;
        let Succ { stashed, position } = depth;
        proof {
            lemma_levels_closed(before, marks, value);
            assert(marks.last() == position);
            assert(is_boundary(before, marks[marks.len() - 1]));
            assert(stashed.marks() == marks.drop_last());
        }
        store.push_unchecked(value, position);
        proof {
            let root = Node { value, width: (before.len() - position + 1) as usize };
            lemma_push_root(before, position as int, root);
            assert forall|k: int| 0 <= k < marks.len() - 1 implies is_boundary(
                before.push(root),
                #[trigger] stashed.marks()[k],
            ) by {
                assert(stashed.marks()[k] == marks[k]);
                assert(is_boundary(before, marks[k]));
                assert(marks[k] <= marks[marks.len() - 1]);
            }
        }
        GroveBufBuilder(store, stashed)
    }
}

impl<'a, T> GroveBufBuilder<'a, T, Zero> {
    /// Ends the session and hands the store back.
    pub fn build(self) -> (store: &'a mut GroveBuf<T>)
        requires
            self.wf(),
        ensures
            store@ == self.store(),
            store.wf(),
            self.levels() == seq![store.forest()],
            final(store)@ == final(self.slot())@,
    {
        self.0
    }
}

impl<T> GroveBuf<T> {
    /// The width invariant holds of the stored records.
    pub open spec fn wf(&self) -> bool {
        is_forest(self@)
    }

    /// The forest that the store holds, its trees from left to right.
    pub open spec fn forest(&self) -> Seq<Rose<T>> {
        read_forest(self@)
    }

    /// A store with no trees.
    pub fn new() -> (store: GroveBuf<T>)
        ensures
            store@ == Seq::<Node<T>>::empty(),
            store.forest() == Seq::<Rose<T>>::empty(),
            store.wf(),
    {
        GroveBuf { nodes: Vec::new() }
    }

    /// Whether the store holds no tree.
    pub fn is_empty(&self) -> (empty: bool)
        ensures
            empty == (self@.len() == 0),
    {
        self.nodes.len() == 0
    }

    /// The number of records in the store.
    pub fn len(&self) -> (len: usize)
        ensures
            len == self@.len(),
    {
        self.nodes.len()
    }

    /// A view of all that is stored.
    pub fn as_ref(&self) -> (grove: Grove<'_, T>)
        ensures
            grove@ == self@,
    {
        Grove { nodes: self.nodes.as_slice() }
    }

    /// A view of all that is stored, for writing values.
    pub fn as_mut(&mut self) -> (grove: GroveMut<'_, T>)
        ensures
            grove@ == old(self)@,
            final(self)@ == final(grove.slot())@,
    {
        GroveMut { nodes: self.nodes.as_mut_slice() }
    }

    /// The values of all records, in the given order: of a forest, the
    /// values of each tree with the children before their parent and from
    /// left to right, or all of that backwards.
    pub fn nodes<Order: TraversalOrder>(&self, order: Order) -> (out: Vec<&T>)
        ensures
            targets(out@) == visit_order(order.reversed(), values(self@)),
            self.wf() ==> targets(out@) == visit_order(order.reversed(), post_order(self.forest())),
    {
        self.as_ref().nodes(order)
    }

    /// The subtree of every record, in the given order: not the top-level
    /// trees alone, but every tree of the forest, each after the trees inside
    /// it, or all of that backwards.
    pub fn trees<Order: TraversalOrder>(&self, order: Order) -> (out: Vec<Tree<'_, T>>)
        requires
            self.wf(),
        ensures
            tree_views(out@) == visit_order(order.reversed(), all_subtrees(self@)),
            tree_roses(out@) == visit_order(order.reversed(), every_tree(self.forest())),
            forall|k: int| 0 <= k < out@.len() ==> (#[trigger] out@[k]).wf(),
    {
        self.as_ref().trees(order)
    }

    /// The values of all records, in the given order, for writing. When the
    /// references are given up, each record holds what was left in its
    /// reference, and its width is what it was.
    pub fn nodes_mut<Order: TraversalOrder>(&mut self, order: Order) -> (out: Vec<&mut T>)
        ensures
            Seq::new(out@.len(), |k: int| *out@[k]) == visit_order(
                order.reversed(),
                values(old(self)@),
            ),
            same_shape(old(self)@, final(self)@),
            Seq::new(out@.len(), |k: int| *final(out@[k])) == visit_order(
                order.reversed(),
                values(final(self)@),
            ),
    {
        order.node_iter_mut(self.nodes.as_mut_slice())
    }

    /// The subtree of every record, in the given order, for writing, one at
    /// a time.
    pub fn trees_mut<Order: TraversalOrder>(&mut self, order: Order) -> (walk: TreesMut<'_, T>)
        requires
            old(self).wf(),
        ensures
            walk.wf(),
            walk@ == old(self)@,
            walk.step() == 0,
            walk.reversed() == order.reversed(),
            final(self)@ == final(walk.slot())@,
    {
        order.tree_iter_mut(self.nodes.as_mut_slice())
    }

    /// The subtree whose root is stored at `index`, for writing.
    pub fn index_mut(&mut self, index: usize) -> (tree: TreeMut<'_, T>)
        requires
            old(self).wf(),
            index < old(self)@.len(),
        ensures
            tree.wf(),
            tree@ == subtree(old(self)@, index as int),
            tree.rose() == every_tree(old(self).forest())[index as int],
            final(self)@ == splice(
                old(self)@,
                first_of(old(self)@, index as int),
                index + 1,
                final(tree.slot())@,
            ),
    {
        get_tree_mut(self.nodes.as_mut_slice(), index)
    }

    /// The subtree whose root is stored at `index`, whether or not that record
    /// is the root of a top-level tree: the tree at that position among all
    /// the trees of the forest, each taken after the trees inside it.
    pub fn index(&self, index: usize) -> (tree: Tree<'_, T>)
        requires
            self.wf(),
            index < self@.len(),
        ensures
            tree.wf(),
            tree@ == subtree(self@, index as int),
            tree.rose() == every_tree(self.forest())[index as int],
    {
        self.as_ref().index(index)
    }

    /// Appends a leaf.
    pub fn push(&mut self, value: T)
        requires
            old(self).wf(),
        ensures
            final(self).wf(),
            final(self)@ == with_leaf(old(self)@, value),
            final(self).forest() == old(self).forest().push(
                (Rose { value, children: Seq::empty() }),
            ),
    {
        proof {
            lemma_push_leaf(self@, Node { value, width: 1 });
            lemma_read_with_leaf(self@, value);
        }
        self.nodes.push(Node { value, width: 1 });
    }

    /// Appends a record whose children are the `children` most recent
    /// top-level trees.
    pub fn push_root(&mut self, value: T, children: usize)
        requires
            old(self).wf(),
            children <= old(self).forest().len(),
            old(self)@.len() < usize::MAX,
        ensures
            final(self).wf(),
            final(self).forest() == old(self).forest().subrange(
                0,
                old(self).forest().len() - children,
            ).push(
                (Rose {
                    value,
                    children: old(self).forest().subrange(
                        old(self).forest().len() - children,
                        old(self).forest().len() as int,
                    ),
                }),
            ),
            final(self)@ == with_root(
                old(self)@,
                value,
                old(self)@.len() - total_len(
                    top_level_rev(old(self)@).subrange(0, children as int),
                ),
            ),
    {
        let ghost stored = self@;
        let ghost trees = top_level_rev(stored);
        let mut element = self.nodes.len();
        let mut taken: usize = 0;
        proof {
            lemma_read_top_level(stored);
            assert(stored.subrange(0, element as int) == stored);
            assert(trees.subrange(0, trees.len() as int) == trees);
        }
        while taken < children
            invariant
                self@ == stored,
                is_forest(stored),
                trees == top_level_rev(stored),
                taken <= children <= trees.len(),
                is_boundary(stored, element as int),
                top_level_rev(stored.subrange(0, element as int)) == trees.subrange(
                    taken as int,
                    trees.len() as int,
                ),
            decreases children - taken,
        {
            let ghost head = stored.subrange(0, element as int);
            proof {
                assert(top_level_rev(head).len() > 0);
                assert(element > 0);
                assert(head.last() == stored[element - 1]);
                lemma_boundary_steps_back(stored, element as int);
                assert(head.subrange(0, first_of(head, head.len() - 1)) == stored.subrange(
                    0,
                    first_of(stored, element - 1),
                ));
                assert(top_level_rev(head).drop_first() == top_level_rev(
                    stored.subrange(0, first_of(stored, element - 1)),
                ));
                assert(trees.subrange(taken as int, trees.len() as int).drop_first()
                    == trees.subrange(taken + 1, trees.len() as int));
            }
            element -= self.index(element - 1).len();
            taken += 1;
        }
        proof {
            lemma_top_level_split(stored, element as int);
            let inside = stored.subrange(element as int, stored.len() as int);
            assert(stored.subrange(0, stored.len() as int) == stored);
            lemma_boundary_of_prefix(stored, element as int, stored.len() as int);
            lemma_window_is_forest(stored, element as int, stored.len() as int);
            lemma_top_level_partition(inside);
            assert(top_level_rev(inside) == trees.subrange(0, children as int));
            lemma_read_top_level(inside);
            lemma_read_with_root(stored, value, element as int);
            let before = read_forest(stored.subrange(0, element as int));
            let kept = read_forest(stored).len() - children;
            assert(read_forest(stored) == before + read_forest(inside));
            assert(before == read_forest(stored).subrange(0, kept));
            assert(read_forest(inside) == read_forest(stored).subrange(
                kept,
                read_forest(stored).len() as int,
            ));
        }
        self.push_unchecked(value, element);
    }

    /// Starts a session that appends to this store.
    pub fn builder(&mut self) -> (session: GroveBufBuilder<'_, T, Zero>)
        requires
            old(self).wf(),
        ensures
            session.wf(),
            session.store() == old(self)@,
            session.marks() == Seq::<int>::empty(),
            session.levels() == seq![old(self).forest()],
            final(self)@ == final(session.slot())@,
    {
        GroveBufBuilder(self, Zero)
    }

    /// Appends a record whose subtree is everything stored from `position`
    /// on. The caller answers for `position`: it has to lie on a boundary
    /// between top-level trees.
    pub fn push_unchecked(&mut self, value: T, position: usize)
        requires
            old(self).wf(),
            is_boundary(old(self)@, position as int),
            old(self)@.len() < usize::MAX,
        ensures
            final(self).wf(),
            final(self)@ == with_root(old(self)@, value, position as int),
            final(self).forest() == read_forest(old(self)@.subrange(0, position as int)).push(
                (Rose {
                    value,
                    children: read_forest(
                        old(self)@.subrange(position as int, old(self)@.len() as int),
                    ),
                }),
            ),
    {
        let width = self.nodes.len() - position + 1;
        proof {
            lemma_push_root(self@, position as int, Node { value, width });
            lemma_read_with_root(self@, value, position as int);
        }
        self.nodes.push(Node { value, width });
    }
}

} // verus!
