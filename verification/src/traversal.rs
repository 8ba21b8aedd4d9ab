//! The two orders in which the records of a forest are visited.

use crate::internal::{get_tree, get_tree_mut};
use crate::layout::{first_of, is_forest, same_shape, splice, subtree, values};
use crate::node::Node;
use crate::model::{every_tree, lemma_subtrees_in_post_order, read_forest};
use crate::tree::{tree_roses, tree_views, Tree, TreeMut};
use vstd::prelude::*;

verus! {

/// What a traversal yields from `s`, item by item: `s` itself, or `s` from its
/// last item to its first.
pub open spec fn visit_order<A>(reversed: bool, s: Seq<A>) -> Seq<A> {
    if reversed {
        s.reverse()
    } else {
        s
    }
}

/// The storage position that a traversal of `len` records visits at `step`.
pub open spec fn position_at(reversed: bool, len: int, step: int) -> int {
    if reversed {
        len - 1 - step
    } else {
        step
    }
}

/// The subtree of every record, in storage order.
pub open spec fn all_subtrees<T>(s: Seq<Node<T>>) -> Seq<Seq<Node<T>>> {
    Seq::new(s.len(), |i: int| subtree(s, i))
}

/// What the references point to.
pub open spec fn targets<'a, T>(refs: Seq<&'a T>) -> Seq<T> {
    Seq::new(refs.len(), |k: int| *refs[k])
}

/// The subtree of every record of a forest, handed out for writing one at a
/// time: no two of them are held together, since a subtree lies inside the
/// subtrees of its ancestors.
pub struct TreesMut<'a, T> {
    pub(crate) nodes: &'a mut [Node<T>],
    pub(crate) step: usize,
    pub(crate) reversed: bool,
}

impl<'a, T> TreesMut<'a, T> {
    /// The records of the forest as they are now.
    pub open(crate) spec fn view(&self) -> Seq<Node<T>> {
        self.nodes@
    }

    /// The borrowed run of records itself. Of a walk `w`, `final(w.slot())@`
    /// is what the records will be when the borrow ends.
    pub open(crate) spec fn slot(&self) -> &'a mut [Node<T>] {
        self.nodes
    }

    /// The number of records that have had their turn.
    pub open(crate) spec fn step(&self) -> nat {
        self.step as nat
    }

    /// Whether the records are visited from the last stored to the first.
    pub open(crate) spec fn reversed(&self) -> bool {
        self.reversed
    }

    /// The records are a forest, and no more steps are taken than it has
    /// records.
    pub open spec fn wf(&self) -> bool {
        &&& is_forest(self@)
        &&& self.step() <= self@.len()
    }

    /// A walk that is given up leaves the records as it holds them.
    pub proof fn lemma_given_up(self)
        requires
            has_resolved(self),
        ensures
            final(self.slot())@ == self@,
    {
    }

    /// The subtree of the next record in the order, or `None` when every
    /// record has had its turn. When the view is given up, the forest is what
    /// it was, with the records of that subtree as the view left them.
    pub fn next(&mut self) -> (next: Option<TreeMut<'_, T>>)
        requires
            old(self).wf(),
        ensures
            final(self).reversed() == old(self).reversed(),
            final(final(self).slot())@ == final(old(self).slot())@,
            old(self).step() == old(self)@.len() ==> {
                &&& next is None
                &&& final(self).step() == old(self).step()
                &&& final(self)@ == old(self)@
            },
            old(self).step() < old(self)@.len() ==> {
                let at = position_at(
                    old(self).reversed(),
                    old(self)@.len() as int,
                    old(self).step() as int,
                );
                &&& next is Some
                &&& next.unwrap().wf()
                &&& next.unwrap()@ == subtree(old(self)@, at)
                &&& next.unwrap().rose() == every_tree(read_forest(old(self)@))[at]
                &&& final(self).step() == old(self).step() + 1
                &&& final(self)@ == splice(
                    old(self)@,
                    first_of(old(self)@, at),
                    at + 1,
                    final(next.unwrap().slot())@,
                )
            },
    {
        let len = self.nodes.len();
        if self.step >= len {
            return None;
        }
        let at = if self.reversed {
            len - 1 - self.step
        } else {
            self.step
        };
        self.step += 1;
        Some(get_tree_mut(&mut *self.nodes, at))
    }
}

/// An order over the flat run of records.
pub trait TraversalOrder: Sized {
    /// Whether the records are visited from the last stored to the first.
    spec fn reversed(&self) -> bool;

    /// Tells the direction at run time.
    fn is_reversed(&self) -> (reversed: bool)
        ensures
            reversed == self.reversed(),
    ;

    /// The values of the records, in this order.
    fn node_iter<'a, T>(self, nodes: &'a [Node<T>]) -> (out: Vec<&'a T>)
        ensures
            targets(out@) == visit_order(self.reversed(), values(nodes@)),
    {
        let reversed = self.is_reversed();
        let len = nodes.len();
        let mut out: Vec<&'a T> = Vec::new();
        let mut step: usize = 0;
        while step < len
            invariant
                len == nodes@.len(),
                step <= len,
                out@.len() == step,
                forall|k: int|
                    0 <= k < step ==> *(#[trigger] out@[k]) == nodes@[position_at(
                        reversed,
                        len as int,
                        k,
                    )].value,
            decreases len - step,
        {
            let at = if reversed {
                len - 1 - step
            } else {
                step
            };
            out.push(&nodes[at].value);
            step += 1;
        }
        assert(targets(out@) == visit_order(reversed, values(nodes@)));
        out
    }

    /// The values of the records, in this order, for writing. When the
    /// references are given up, each record holds what was left in its
    /// reference, and its width is what it was.
    fn node_iter_mut<'a, T>(self, nodes: &'a mut [Node<T>]) -> (out: Vec<&'a mut T>)
        ensures
            Seq::new(out@.len(), |k: int| *out@[k]) == visit_order(
                self.reversed(),
                values(old(nodes)@),
            ),
            same_shape(old(nodes)@, final(nodes)@),
            Seq::new(out@.len(), |k: int| *final(out@[k])) == visit_order(
                self.reversed(),
                values(final(nodes)@),
            ),
    {
        let reversed = self.is_reversed();
        let ghost start = nodes@;
        let ghost end = final(nodes)@;
        let ghost len = start.len() as int;
        let mut out: Vec<&'a mut T> = Vec::new();
        let mut rest: &'a mut [Node<T>] = nodes;
        while rest.len() > 0
            invariant
                len == start.len(),
                out@.len() + rest@.len() == len,
                !reversed ==> rest@ == start.subrange(out@.len() as int, len),
                reversed ==> rest@ == start.subrange(0, len - out@.len()),
                forall|k: int|
                    0 <= k < out@.len() ==> *(#[trigger] out@[k]) == start[position_at(
                        reversed,
                        len,
                        k,
                    )].value,
                end.len() == out@.len() + final(rest)@.len(),
                !reversed ==> final(rest)@ == end.subrange(out@.len() as int, end.len() as int),
                reversed ==> final(rest)@ == end.subrange(0, end.len() - out@.len()),
                forall|k: int|
                    #![trigger out@[k]]
                    0 <= k < out@.len() ==> {
                        let at = position_at(reversed, end.len() as int, k);
                        &&& end[at].value == *final(out@[k])
                        &&& end[at].width == start[position_at(reversed, len, k)].width
                    },
            decreases rest@.len(),
        {
            let ghost rest_end = final(rest)@;
            let ghost done = out@.len() as int;
            let left = rest.len();
            if reversed {
                let (others, one) = rest.split_at_mut(left - 1);
                let ghost one_end = final(one)@;
                match one.last_mut() {
                    Some(node) => {
                        let ghost width = node.width;
                        let ghost node_end = *final(node);
                        assert(one_end == seq![node_end]);
                        let value = &mut node.value;
                        assert(node_end.width == width);
                        assert(node_end.value == *final(value));
                        out.push(value);
                    },
                    None => {},
                }
                proof {
                    assert(rest_end == final(others)@ + one_end);
                    assert(one_end.len() == 1);
                    assert(rest_end[rest_end.len() - 1] == end[end.len() - 1 - done]);
                    assert(final(others)@ == end.subrange(0, end.len() - done - 1));
                }
                rest = others;
            } else {
                let (one, others) = rest.split_at_mut(1);
                let ghost one_end = final(one)@;
                match one.first_mut() {
                    Some(node) => {
                        let ghost width = node.width;
                        let ghost node_end = *final(node);
                        assert(one_end == seq![node_end]);
                        let value = &mut node.value;
                        assert(node_end.width == width);
                        assert(node_end.value == *final(value));
                        out.push(value);
                    },
                    None => {},
                }
                proof {
                    assert(rest_end == one_end + final(others)@);
                    assert(one_end.len() == 1);
                    assert(rest_end[0] == end[done + 0]);
                    assert(final(others)@ == rest_end.subrange(1, rest_end.len() as int));
                    assert(final(others)@ == end.subrange(done + 1, end.len() as int));
                }
                rest = others;
            }
        }
        proof {
            assert(final(rest)@.len() == 0);
            assert(end.len() == len);
            assert(Seq::new(out@.len(), |k: int| *out@[k]) == visit_order(reversed, values(start)));
            assert(Seq::new(out@.len(), |k: int| *final(out@[k])) == visit_order(
                reversed,
                values(end),
            ));
            assert forall|i: int| 0 <= i < start.len() implies (#[trigger] start[i]).width
                == end[i].width by {
                let k = position_at(reversed, len, i);
                assert(position_at(reversed, len, k) == i);
                assert(end[i].value == *final(out@[k]));
            }
        }
        out
    }

    /// The subtree of every record, in this order, for writing.
    fn tree_iter_mut<'a, T>(self, nodes: &'a mut [Node<T>]) -> (walk: TreesMut<'a, T>)
        requires
            is_forest(old(nodes)@),
        ensures
            walk.wf(),
            walk@ == old(nodes)@,
            walk.step() == 0,
            walk.reversed() == self.reversed(),
            final(nodes)@ == final(walk.slot())@,
    {
        let reversed = self.is_reversed();
        TreesMut { nodes, step: 0, reversed }
    }

    /// The subtree of every record, in this order.
    fn tree_iter<'a, T>(self, nodes: &'a [Node<T>]) -> (out: Vec<Tree<'a, T>>)
        requires
            is_forest(nodes@),
        ensures
            tree_views(out@) == visit_order(self.reversed(), all_subtrees(nodes@)),
            tree_roses(out@) == visit_order(self.reversed(), every_tree(read_forest(nodes@))),
            forall|k: int| 0 <= k < out@.len() ==> (#[trigger] out@[k]).wf(),
    {
        let reversed = self.is_reversed();
        let len = nodes.len();
        let ghost roses = every_tree(read_forest(nodes@));
        proof {
            lemma_subtrees_in_post_order(nodes@);
        }
        let mut out: Vec<Tree<'a, T>> = Vec::new();
        let mut step: usize = 0;
        while step < len
            invariant
                is_forest(nodes@),
                len == nodes@.len(),
                step <= len,
                out@.len() == step,
                roses == every_tree(read_forest(nodes@)),
                roses.len() == len,
                forall|k: int| 0 <= k < step ==> (#[trigger] out@[k]).wf(),
                forall|k: int|
                    0 <= k < step ==> (#[trigger] out@[k])@ == subtree(
                        nodes@,
                        position_at(reversed, len as int, k),
                    ),
                forall|k: int|
                    0 <= k < step ==> (#[trigger] out@[k]).rose() == roses[position_at(
                        reversed,
                        len as int,
                        k,
                    )],
            decreases len - step,
        {
            let at = if reversed {
                len - 1 - step
            } else {
                step
            };
            out.push(get_tree(nodes, at));
            step += 1;
        }
        assert(tree_views(out@) == visit_order(reversed, all_subtrees(nodes@)));
        assert(tree_roses(out@) == visit_order(reversed, roses));
        out
    }
}

/// Storage order: the children of a record from left to right, then the
/// record itself.
pub struct Preorder;

impl TraversalOrder for Preorder {
    open spec fn reversed(&self) -> bool {
        false
    }

    fn is_reversed(&self) -> (reversed: bool) {
        false
    }
}

/// Storage order backwards: a record, then its children from right to left.
pub struct ReversePostorder;

impl TraversalOrder for ReversePostorder {
    open spec fn reversed(&self) -> bool {
        true
    }

    fn is_reversed(&self) -> (reversed: bool) {
        true
    }
}

} // verus!
