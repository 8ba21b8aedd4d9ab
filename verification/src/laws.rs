//! What holds of every forest, whichever calls built it.

use crate::layout::{children_rev, first_of, is_boundary, is_forest, is_tree, join_rev, marks_fit};
use crate::layout::same_shape;
use crate::layout::{splice, subtree, total_len, values, widths, with_leaf, with_root};
use crate::layout::{lemma_prefix_is_forest, lemma_push_leaf, lemma_push_root};
use crate::layout::{lemma_same_shape_forest, lemma_subtree_is_tree, lemma_top_level_partition};
use crate::model::{lay_forest, post_order, read_forest, Rose};
use crate::model::{lemma_lay_then_read, lemma_read_then_lay, lemma_stored_in_post_order};
use crate::node::Node;
use crate::traversal::{all_subtrees, visit_order};
use vstd::prelude::*;

verus! {

/// The width invariant as one meets it walking down from a root: the root
/// is the last record and its width is the number of records; below it lie
/// its child subtrees end to end and nothing else; and the same holds of each
/// child in turn.
pub open spec fn holds_down<T>(t: Seq<Node<T>>) -> bool
    decreases t.len(),
{
    &&& t.len() > 0
    &&& t.last().width == t.len()
    &&& join_rev(children_rev(t)) == t.drop_last()
    &&& forall|k: int|
        0 <= k < children_rev(t).len() ==> (#[trigger] children_rev(t)[k]).len() < t.len()
    &&& forall|k: int|
        0 <= k < children_rev(t).len() && children_rev(t)[k].len() < t.len() ==> holds_down(
            #[trigger] children_rev(t)[k],
        )
}

/// A tree is its child subtrees laid end to end and then its root; each child
/// is a tree, and smaller than its parent.
pub proof fn lemma_children_partition<T>(t: Seq<Node<T>>)
    requires
        is_tree(t),
    ensures
        join_rev(children_rev(t)) == t.drop_last(),
        forall|k: int| 0 <= k < children_rev(t).len() ==> is_tree(#[trigger] children_rev(t)[k]),
        forall|k: int|
            0 <= k < children_rev(t).len() ==> (#[trigger] children_rev(t)[k]).len() < t.len(),
{
    let below = t.drop_last();
    assert(below == t.subrange(0, t.len() - 1));
    lemma_prefix_is_forest(t, t.len() - 1);
    lemma_top_level_partition(below);
    assert forall|k: int| 0 <= k < children_rev(t).len() implies (#[trigger] children_rev(
        t,
    )[k]).len() < t.len() by {
        lemma_part_fits(children_rev(t), k);
    }
}

/// No part is longer than all parts together.
proof fn lemma_part_fits<A>(parts: Seq<Seq<A>>, k: int)
    requires
        0 <= k < parts.len(),
    ensures
        parts[k].len() <= total_len(parts),
    decreases parts.len(),
{
    if k > 0 {
        lemma_part_fits(parts.drop_first(), k - 1);
    }
}

/// The width invariant, position by position: in a forest the range of every
/// record lies within bounds and holds a tree, of which the invariant holds
/// all the way down.
pub proof fn lemma_width_invariant<T>(s: Seq<Node<T>>, i: int)
    requires
        is_forest(s),
        0 <= i < s.len(),
    ensures
        0 <= first_of(s, i) <= i,
        is_tree(subtree(s, i)),
        holds_down(subtree(s, i)),
{
    lemma_subtree_is_tree(s, i);
    lemma_tree_holds_down(subtree(s, i));
}

/// Of a tree the invariant holds all the way down.
pub proof fn lemma_tree_holds_down<T>(t: Seq<Node<T>>)
    requires
        is_tree(t),
    ensures
        holds_down(t),
    decreases t.len(),
{
    lemma_children_partition(t);
    assert forall|k: int|
        0 <= k < children_rev(t).len() && children_rev(t)[k].len() < t.len() implies holds_down(
        #[trigger] children_rev(t)[k],
    ) by {
        lemma_tree_holds_down(children_rev(t)[k]);
    }
}

/// The children found by peeling subtrees off the end of a tree have, taken
/// together, one record fewer than the width of its root.
pub proof fn lemma_children_cover<T>(t: Seq<Node<T>>)
    requires
        is_tree(t),
    ensures
        total_len(children_rev(t)) == t.last().width - 1,
{
    let below = t.drop_last();
    assert(below == t.subrange(0, t.len() - 1));
    lemma_prefix_is_forest(t, t.len() - 1);
    lemma_top_level_partition(below);
}

/// One call of a building session.
pub enum Call<T> {
    Push(T),
    Open,
    Close(T),
}

/// What is stored and which levels are open after one call, as the
/// contracts of the session state it.
pub open spec fn after_call<T>(store: Seq<Node<T>>, marks: Seq<int>, call: Call<T>) -> (
    Seq<Node<T>>,
    Seq<int>,
) {
    match call {
        Call::Push(value) => (with_leaf(store, value), marks),
        Call::Open => (store, marks.push(store.len() as int)),
        Call::Close(value) => (with_root(store, value, marks.last()), marks.drop_last()),
    }
}

/// What is stored and which levels are open after the calls, made in turn.
pub open spec fn after_calls<T>(store: Seq<Node<T>>, marks: Seq<int>, calls: Seq<Call<T>>) -> (
    Seq<Node<T>>,
    Seq<int>,
)
    decreases calls.len(),
{
    if calls.len() == 0 {
        (store, marks)
    } else {
        let (so_far, open) = after_calls(store, marks, calls.drop_last());
        after_call(so_far, open, calls.last())
    }
}

/// Whether the types let the calls be made in turn from the given depth:
/// no level is closed that is not open.
pub open spec fn in_protocol<T>(depth: int, calls: Seq<Call<T>>) -> bool
    decreases calls.len(),
{
    if calls.len() == 0 {
        depth >= 0
    } else {
        &&& in_protocol(depth, calls.drop_last())
        &&& calls.last() is Close ==> depth_after(depth, calls.drop_last()) > 0
    }
}

/// The number of open levels after the calls.
pub open spec fn depth_after<T>(depth: int, calls: Seq<Call<T>>) -> int
    decreases calls.len(),
{
    if calls.len() == 0 {
        depth
    } else {
        depth_after(depth, calls.drop_last()) + match calls.last() {
            Call::Push(_) => 0int,
            Call::Open => 1int,
            Call::Close(_) => -1int,
        }
    }
}

/// The values handed to the calls, in the order of the calls.
pub open spec fn told<T>(calls: Seq<Call<T>>) -> Seq<T>
    decreases calls.len(),
{
    if calls.len() == 0 {
        Seq::empty()
    } else {
        match calls.last() {
            Call::Push(value) => told(calls.drop_last()).push(value),
            Call::Open => told(calls.drop_last()),
            Call::Close(value) => told(calls.drop_last()).push(value),
        }
    }
}

/// Whatever calls a session makes, what is stored stays a forest, and
/// reading it back gives the values in the order in which they were handed
/// over, children before their parent and from left to right; the second
/// order gives exactly the reverse.
pub proof fn lemma_round_trip<T>(store: Seq<Node<T>>, marks: Seq<int>, calls: Seq<Call<T>>)
    requires
        is_forest(store),
        marks_fit(store, marks),
        in_protocol(marks.len() as int, calls),
        store.len() + calls.len() <= usize::MAX,
    ensures
        ({
            let (built, open) = after_calls(store, marks, calls);
            &&& is_forest(built)
            &&& marks_fit(built, open)
            &&& open.len() == depth_after(marks.len() as int, calls)
            &&& built.len() == store.len() + told(calls).len()
            &&& built.len() <= store.len() + calls.len()
            &&& visit_order(false, values(built)) == values(store) + told(calls)
            &&& visit_order(true, values(built)) == (values(store) + told(calls)).reverse()
        }),
    decreases calls.len(),
{
    if calls.len() > 0 {
        let earlier = calls.drop_last();
        lemma_round_trip(store, marks, earlier);
        let (so_far, open) = after_calls(store, marks, earlier);
        let (built, left) = after_call(so_far, open, calls.last());
        match calls.last() {
            Call::Push(value) => {
                lemma_push_leaf(so_far, Node { value, width: 1 });
                lemma_push_root(so_far, so_far.len() as int, Node { value, width: 1 });
                assert(marks_fit(built, left)) by {
                    assert forall|k: int| 0 <= k < left.len() implies is_boundary(
                        built,
                        #[trigger] left[k],
                    ) by {
                        assert(is_boundary(so_far, open[k]));
                    }
                }
                assert(values(built) == values(so_far).push(value));
                assert(values(store) + told(calls) == (values(store) + told(earlier)).push(value));
            },
            Call::Open => {
                assert(marks_fit(built, left)) by {
                    assert forall|k: int| 0 <= k < left.len() implies is_boundary(
                        built,
                        #[trigger] left[k],
                    ) by {
                        if k < open.len() {
                            assert(is_boundary(so_far, open[k]));
                        }
                    }
                    assert forall|k: int, l: int| 0 <= k <= l < left.len() implies left[k]
                        <= left[l] by {
                        if k < open.len() {
                            assert(is_boundary(so_far, open[k]));
                        }
                    }
                }
            },
            Call::Close(value) => {
                let start = open.last();
                let root = Node { value, width: (so_far.len() - start + 1) as usize };
                assert(is_boundary(so_far, open[open.len() - 1]));
                lemma_push_root(so_far, start, root);
                assert(marks_fit(built, left)) by {
                    assert forall|k: int| 0 <= k < left.len() implies is_boundary(
                        built,
                        #[trigger] left[k],
                    ) by {
                        assert(is_boundary(so_far, open[k]));
                        assert(open[k] <= open[open.len() - 1]);
                    }
                }
                assert(values(built) == values(so_far).push(value));
                assert(values(store) + told(calls) == (values(store) + told(earlier)).push(value));
            },
        }
    } else {
        assert(values(store) + told(calls) == values(store));
    }
}

/// The width invariant holds of exactly those records that are the layout
/// of a forest: records of which it holds are the layout of the forest they
/// stand for, and the layout of any forest that fits satisfies it and stands
/// for that forest.
pub proof fn lemma_forests_are_layouts<T>(s: Seq<Node<T>>, forest: Seq<Rose<T>>)
    ensures
        is_forest(s) ==> lay_forest(read_forest(s)) == s,
        lay_forest(forest).len() <= usize::MAX ==> is_forest(lay_forest(forest)) && read_forest(
            lay_forest(forest),
        ) == forest,
{
    if is_forest(s) {
        lemma_read_then_lay(s);
    }
    if lay_forest(forest).len() <= usize::MAX {
        lemma_lay_then_read(forest);
    }
}

/// Reading a forest back in the first order gives the values of each tree
/// with the children before their parent and from left to right, tree after
/// tree; the second order gives exactly the reverse.
pub proof fn lemma_reads_back_in_post_order<T>(s: Seq<Node<T>>)
    requires
        is_forest(s),
    ensures
        visit_order(false, values(s)) == post_order(read_forest(s)),
        visit_order(true, values(s)) == post_order(read_forest(s)).reverse(),
{
    lemma_stored_in_post_order(s);
}

/// The second order is the first one backwards, and the first one is the
/// order of storage.
pub proof fn lemma_orders_mirror<A>(s: Seq<A>)
    ensures
        visit_order(false, s) == s,
        visit_order(true, s) == visit_order(false, s).reverse(),
        visit_order(true, s).reverse() == visit_order(false, s),
{
    assert(s.reverse().reverse() == s);
}

/// A value that is appended is read back last in the first order and first
/// in the second, after and before the values that were there.
pub proof fn lemma_append_reads_back<T>(s: Seq<Node<T>>, node: Node<T>)
    ensures
        visit_order(false, values(s.push(node))) == visit_order(false, values(s)).push(node.value),
        visit_order(true, values(s.push(node))) == seq![node.value] + visit_order(true, values(s)),
{
    assert(values(s.push(node)) == values(s).push(node.value));
    assert(values(s).push(node.value).reverse() == seq![node.value] + values(s).reverse());
}

/// Two views of the same records read the same values and the same
/// subtrees, in either order.
pub proof fn lemma_reads_agree<T>(
    stored: Seq<Node<T>>,
    first_view: Seq<Node<T>>,
    second_view: Seq<Node<T>>,
    reversed: bool,
)
    requires
        first_view == stored,
        second_view == stored,
    ensures
        visit_order(reversed, values(first_view)) == visit_order(reversed, values(second_view)),
        visit_order(reversed, all_subtrees(first_view)) == visit_order(
            reversed,
            all_subtrees(second_view),
        ),
{
}

/// Writing a value at one position changes that value and nothing else: the
/// widths stay, the other values stay, and the records are a forest as
/// before, with every subtree where it was.
pub proof fn lemma_write_is_local<T>(s: Seq<Node<T>>, i: int, value: T)
    requires
        is_forest(s),
        0 <= i < s.len(),
    ensures
        ({
            let written = s.update(i, (Node { value, width: s[i].width }));
            &&& same_shape(s, written)
            &&& widths(written) == widths(s)
            &&& values(written) == values(s).update(i, value)
            &&& is_forest(written)
            &&& forall|j: int|
                0 <= j < s.len() ==> #[trigger] first_of(written, j) == first_of(s, j) && is_tree(
                    subtree(written, j),
                )
        }),
{
    let written = s.update(i, Node { value, width: s[i].width });
    lemma_shape_decides(s, written);
    assert(values(written) == values(s).update(i, value));
    assert forall|j: int| 0 <= j < s.len() implies #[trigger] first_of(written, j) == first_of(s, j)
        && is_tree(subtree(written, j)) by {
        lemma_subtree_is_tree(written, j);
    }
}

/// What is written through the view of a subtree, widths kept, stays inside
/// the range of that subtree: the records before and after it are what they
/// were, the widths are what they were, and a forest stays a forest.
pub proof fn lemma_write_stays_inside<T>(s: Seq<Node<T>>, from: int, to: int, part: Seq<Node<T>>)
    requires
        0 <= from <= to <= s.len(),
        same_shape(s.subrange(from, to), part),
    ensures
        same_shape(s, splice(s, from, to, part)),
        splice(s, from, to, part).subrange(from, to) == part,
        splice(s, from, to, part).subrange(0, from) == s.subrange(0, from),
        splice(s, from, to, part).subrange(to, s.len() as int) == s.subrange(to, s.len() as int),
        is_forest(s) ==> is_forest(splice(s, from, to, part)),
{
    let t = splice(s, from, to, part);
    let window = s.subrange(from, to);
    assert forall|i: int| 0 <= i < s.len() implies (#[trigger] s[i]).width == t[i].width by {
        if from <= i < to {
            assert(window[i - from].width == part[i - from].width);
        }
    }
    assert(t.subrange(from, to) == part);
    assert(t.subrange(0, from) == s.subrange(0, from));
    assert(t.subrange(to, s.len() as int) == s.subrange(to, s.len() as int));
    if is_forest(s) {
        lemma_same_shape_forest(s, t);
    }
}

/// Records that differ in values alone are forests together, with the same
/// widths, and with every subtree where it was.
pub proof fn lemma_shape_decides<T>(a: Seq<Node<T>>, b: Seq<Node<T>>)
    requires
        same_shape(a, b),
        is_forest(a),
    ensures
        widths(a) == widths(b),
        is_forest(b),
        forall|j: int| 0 <= j < a.len() ==> #[trigger] first_of(b, j) == first_of(a, j),
        forall|p: int| is_boundary(a, p) ==> is_boundary(b, p),
{
    lemma_same_shape_forest(a, b);
    assert(widths(a) == widths(b));
}

} // verus!
