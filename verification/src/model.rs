//! The forest that a run of records stands for: trees with a value and
//! children, free of widths and positions.

use crate::layout::{children_rev, first_of, is_boundary, is_forest, is_tree, marks_fit, subtree};
use crate::layout::{top_level_rev, values, with_leaf, with_root};
use crate::layout::{lemma_boundary_of_prefix, lemma_prefix_is_forest, lemma_push_root};
use crate::layout::{lemma_subtree_is_tree, lemma_suffix_is_forest};
use crate::node::Node;
use vstd::prelude::*;

verus! {

/// A tree as such: a value, and the trees below it from left to right.
pub struct Rose<T> {
    pub value: T,
    pub children: Seq<Rose<T>>,
}

/// The tree that the records of one tree stand for: the value of the last
/// record, above the forest that the records before it stand for.
pub open spec fn read_tree<T>(t: Seq<Node<T>>) -> Rose<T>
    decreases t.len(), 0int,
{
    if t.len() > 0 {
        Rose { value: t.last().value, children: read_forest(t.drop_last()) }
    } else {
        arbitrary()
    }
}

/// The forest that the records stand for, its trees from left to right.
pub open spec fn read_forest<T>(s: Seq<Node<T>>) -> Seq<Rose<T>>
    decreases s.len(), 1int,
{
    if s.len() > 0 && 1 <= s.last().width <= s.len() {
        read_forest(s.subrange(0, first_of(s, s.len() - 1))).push(
            read_tree(subtree(s, s.len() - 1)),
        )
    } else {
        Seq::empty()
    }
}

/// The records that stand for a tree: those of its children, then one for
/// its value, as wide as all of them together.
pub open spec fn lay_tree<T>(tree: Rose<T>) -> Seq<Node<T>>
    decreases tree,
{
    let below = lay_forest(tree.children);
    below.push(Node { value: tree.value, width: (below.len() + 1) as usize })
}

/// The records that stand for a forest: those of its trees, from left to
/// right.
pub open spec fn lay_forest<T>(forest: Seq<Rose<T>>) -> Seq<Node<T>>
    decreases forest,
{
    if forest.len() == 0 {
        Seq::empty()
    } else {
        lay_forest(forest.drop_last()) + lay_tree(forest.last())
    }
}

/// The values of a tree, those of its children first, from left to right,
/// and its own value last.
pub open spec fn post_order_tree<T>(tree: Rose<T>) -> Seq<T>
    decreases tree,
{
    post_order(tree.children).push(tree.value)
}

/// The values of a forest, tree by tree from left to right, in each tree the
/// children before their parent.
pub open spec fn post_order<T>(forest: Seq<Rose<T>>) -> Seq<T>
    decreases forest,
{
    if forest.len() == 0 {
        Seq::empty()
    } else {
        post_order(forest.drop_last()) + post_order_tree(forest.last())
    }
}

/// The forests that a session has in the making, one for each level: the
/// trees that were finished before the first open level began, then those
/// finished between one open level and the next, and last those finished in
/// the innermost open level. `marks` holds where the open levels began.
pub open spec fn levels_of<T>(s: Seq<Node<T>>, marks: Seq<int>) -> Seq<Seq<Rose<T>>>
    decreases marks.len(),
{
    if marks.len() == 0 {
        seq![read_forest(s)]
    } else {
        levels_of(s.subrange(0, marks.last()), marks.drop_last()).push(
            read_forest(s.subrange(marks.last(), s.len() as int)),
        )
    }
}

/// A tree and all the trees inside it, each after the trees inside it, the
/// children from left to right: the tree itself comes last.
pub open spec fn every_tree_of<T>(tree: Rose<T>) -> Seq<Rose<T>>
    decreases tree,
{
    every_tree(tree.children).push(tree)
}

/// The trees of a forest and all the trees inside them, tree by tree from
/// left to right, each after the trees inside it. The record at position `i`
/// of a forest of records is the root of the tree at position `i` here.
pub open spec fn every_tree<T>(forest: Seq<Rose<T>>) -> Seq<Rose<T>>
    decreases forest,
{
    if forest.len() == 0 {
        Seq::empty()
    } else {
        every_tree(forest.drop_last()) + every_tree_of(forest.last())
    }
}

/// A forest of records is what one gets by laying out the forest it stands
/// for.
pub proof fn lemma_read_then_lay<T>(s: Seq<Node<T>>)
    requires
        is_forest(s),
    ensures
        lay_forest(read_forest(s)) == s,
        is_tree(s) ==> lay_tree(read_tree(s)) == s && read_forest(s) == seq![read_tree(s)],
    decreases s.len(), 1int,
{
    if s.len() > 0 {
        let last = s.len() - 1;
        let cut = first_of(s, last);
        let head = s.subrange(0, cut);
        let tail = subtree(s, last);
        assert(1 <= s[last].width <= last + 1);
        lemma_subtree_is_tree(s, last);
        lemma_prefix_is_forest(s, cut);
        lemma_read_then_lay(head);
        lemma_tree_read_then_lay(tail);
        let forest = read_forest(s);
        assert(forest.drop_last() == read_forest(head));
        assert(forest.last() == read_tree(tail));
        assert(head + tail == s);
        if is_tree(s) {
            assert(cut == 0);
            assert(tail == s);
            assert(read_forest(head) == Seq::<Rose<T>>::empty());
            assert(forest == seq![read_tree(s)]);
        }
    }
}

/// The records of one tree are what one gets by laying out the tree they
/// stand for.
pub proof fn lemma_tree_read_then_lay<T>(t: Seq<Node<T>>)
    requires
        is_tree(t),
    ensures
        lay_tree(read_tree(t)) == t,
    decreases t.len(), 0int,
{
    let below = t.drop_last();
    assert(below == t.subrange(0, t.len() - 1));
    lemma_prefix_is_forest(t, t.len() - 1);
    lemma_read_then_lay(below);
    assert(lay_forest(read_tree(t).children) == below);
    assert(below.push(t.last()) == t);
    assert(t.last() == Node { value: t.last().value, width: (below.len() + 1) as usize });
}

/// A tree laid out after a forest makes a longer forest, and the tree begins
/// on a boundary of it.
pub proof fn lemma_forest_then_tree<T>(a: Seq<Node<T>>, t: Seq<Node<T>>)
    requires
        is_forest(a),
        is_tree(t),
    ensures
        is_forest(a + t),
        is_boundary(a + t, a.len() as int),
        subtree(a + t, (a + t).len() - 1) == t,
        (a + t).subrange(0, a.len() as int) == a,
{
    let s = a + t;
    let n = a.len() as int;
    assert forall|i: int| 0 <= i < s.len() implies 1 <= (#[trigger] s[i]).width <= i + 1 by {
        if i < n {
            assert(s[i] == a[i]);
        } else {
            assert(s[i] == t[i - n]);
        }
    }
    assert forall|i: int, j: int|
        #![trigger s[i], s[j]]
        0 <= j <= i < s.len() && first_of(s, i) <= j implies first_of(s, i) <= first_of(s, j) by {
        if i < n {
            assert(s[i] == a[i] && s[j] == a[j]);
        } else {
            assert(s[i] == t[i - n]);
            assert(first_of(s, i) == first_of(t, i - n) + n);
            assert(s[j] == t[j - n]);
            assert(first_of(s, j) == first_of(t, j - n) + n);
        }
    }
    assert forall|j: int| #![trigger s[j]] n <= j < s.len() implies n <= first_of(s, j) by {
        assert(s[j] == t[j - n]);
    }
    assert(s.last() == t.last());
    assert(subtree(s, s.len() - 1) == t);
    assert(s.subrange(0, n) == a);
}

/// Laying out a tree that fits gives the records of one tree, and they stand
/// for that tree again.
pub proof fn lemma_lay_tree_then_read<T>(tree: Rose<T>)
    requires
        lay_tree(tree).len() <= usize::MAX,
    ensures
        is_tree(lay_tree(tree)),
        read_tree(lay_tree(tree)) == tree,
    decreases tree,
{
    let below = lay_forest(tree.children);
    let root = Node { value: tree.value, width: (below.len() + 1) as usize };
    lemma_lay_then_read(tree.children);
    assert(is_boundary(below, 0)) by {
        assert forall|j: int| #![trigger below[j]] 0 <= j < below.len() implies 0 <= first_of(
            below,
            j,
        ) by {
            assert(1 <= below[j].width <= j + 1);
        }
    }
    lemma_push_root(below, 0, root);
    assert(below.push(root).drop_last() == below);
}

/// Laying out a forest that fits gives a forest of records, and they stand
/// for that forest again.
pub proof fn lemma_lay_then_read<T>(forest: Seq<Rose<T>>)
    requires
        lay_forest(forest).len() <= usize::MAX,
    ensures
        is_forest(lay_forest(forest)),
        read_forest(lay_forest(forest)) == forest,
    decreases forest,
{
    if forest.len() > 0 {
        let front = lay_forest(forest.drop_last());
        let back = lay_tree(forest.last());
        lemma_lay_then_read(forest.drop_last());
        lemma_lay_tree_then_read(forest.last());
        lemma_forest_then_tree(front, back);
        let s = front + back;
        assert(s.last() == back.last());
        assert(first_of(s, s.len() - 1) == front.len());
        assert(forest.drop_last().push(forest.last()) == forest);
    } else {
        assert(is_forest(Seq::<Node<T>>::empty()));
    }
}

/// The values of the records that stand for a forest are its values with the
/// children before their parent, from left to right.
pub proof fn lemma_lay_in_post_order<T>(forest: Seq<Rose<T>>)
    ensures
        values(lay_forest(forest)) == post_order(forest),
    decreases forest,
{
    if forest.len() > 0 {
        let front = lay_forest(forest.drop_last());
        let back = lay_tree(forest.last());
        lemma_lay_in_post_order(forest.drop_last());
        lemma_lay_tree_in_post_order(forest.last());
        assert(values(front + back) == values(front) + values(back));
    } else {
        assert(values(Seq::<Node<T>>::empty()) == Seq::<T>::empty());
    }
}

/// The values of the records that stand for a tree are its values with the
/// children before their parent, from left to right.
pub proof fn lemma_lay_tree_in_post_order<T>(tree: Rose<T>)
    ensures
        values(lay_tree(tree)) == post_order_tree(tree),
    decreases tree,
{
    let below = lay_forest(tree.children);
    let root = Node { value: tree.value, width: (below.len() + 1) as usize };
    lemma_lay_in_post_order(tree.children);
    assert(values(below.push(root)) == values(below).push(tree.value));
}

/// The forest that the records stand for falls apart at a boundary into the
/// forest before it and the forest after it.
pub proof fn lemma_read_splits<T>(s: Seq<Node<T>>, p: int)
    requires
        is_forest(s),
        is_boundary(s, p),
    ensures
        read_forest(s) == read_forest(s.subrange(0, p)) + read_forest(
            s.subrange(p, s.len() as int),
        ),
    decreases s.len(),
{
    let len = s.len() as int;
    let after = s.subrange(p, len);
    if p == len {
        assert(s.subrange(0, p) == s);
        assert(read_forest(after) == Seq::<Rose<T>>::empty());
        assert(read_forest(s) + Seq::<Rose<T>>::empty() == read_forest(s));
    } else {
        let last = len - 1;
        let cut = first_of(s, last);
        let head = s.subrange(0, cut);
        assert(1 <= s[last].width <= last + 1);
        assert(p <= cut);
        lemma_prefix_is_forest(s, cut);
        lemma_boundary_of_prefix(s, p, cut);
        lemma_read_splits(head, p);
        assert(head.subrange(p, cut) == s.subrange(p, cut));
        assert(head.subrange(0, p) == s.subrange(0, p));
        assert(after.last() == s[last]);
        assert(first_of(after, after.len() - 1) == cut - p);
        assert(subtree(after, after.len() - 1) == subtree(s, last));
        assert(after.subrange(0, cut - p) == s.subrange(p, cut));
        let tree = read_tree(subtree(s, last));
        assert(read_forest(after) == read_forest(s.subrange(p, cut)).push(tree));
        assert(read_forest(s) == read_forest(head).push(tree));
        assert((read_forest(s.subrange(0, p)) + read_forest(s.subrange(p, cut))).push(tree)
            == read_forest(s.subrange(0, p)) + read_forest(s.subrange(p, cut)).push(tree));
    }
}

/// Appending a leaf adds a tree without children to the forest.
pub proof fn lemma_read_with_leaf<T>(s: Seq<Node<T>>, value: T)
    requires
        is_forest(s),
    ensures
        read_forest(with_leaf(s, value)) == read_forest(s).push(
            (Rose { value, children: Seq::empty() }),
        ),
{
    let grown = with_leaf(s, value);
    let leaf = subtree(grown, s.len() as int);
    assert(grown.last().width == 1);
    assert(first_of(grown, grown.len() - 1) == s.len());
    assert(grown.subrange(0, s.len() as int) == s);
    assert(leaf.last() == grown.last());
    assert(leaf.drop_last() == Seq::<Node<T>>::empty());
    assert(read_forest(leaf.drop_last()) == Seq::<Rose<T>>::empty());
    assert(read_tree(leaf) == Rose { value, children: Seq::empty() });
    assert(read_forest(grown) == read_forest(s).push(read_tree(leaf)));
}

/// Appending a root over everything from a boundary on takes the trees from
/// there on out of the forest and puts in their place one tree, with them as
/// its children.
pub proof fn lemma_read_with_root<T>(s: Seq<Node<T>>, value: T, start: int)
    requires
        is_forest(s),
        is_boundary(s, start),
        s.len() < usize::MAX,
    ensures
        read_forest(with_root(s, value, start)) == read_forest(s.subrange(0, start)).push(
            (Rose { value, children: read_forest(s.subrange(start, s.len() as int)) }),
        ),
        read_forest(s) == read_forest(s.subrange(0, start)) + read_forest(
            s.subrange(start, s.len() as int),
        ),
{
    let grown = with_root(s, value, start);
    let len = s.len() as int;
    let tree = subtree(grown, len);
    assert(grown.last().width == len - start + 1);
    assert(first_of(grown, grown.len() - 1) == start);
    assert(grown.subrange(0, start) == s.subrange(0, start));
    assert(tree.last() == grown.last());
    assert(tree.drop_last() == s.subrange(start, len));
    assert(read_tree(tree) == Rose { value, children: read_forest(s.subrange(start, len)) });
    assert(read_forest(grown) == read_forest(s.subrange(0, start)).push(read_tree(tree)));
    lemma_read_splits(s, start);
}

/// The trees of the forest that the records stand for are the trees that
/// the top-level ranges stand for, in the opposite order.
pub proof fn lemma_read_top_level<T>(s: Seq<Node<T>>)
    ensures
        read_forest(s).len() == top_level_rev(s).len(),
        forall|k: int|
            0 <= k < top_level_rev(s).len() ==> read_forest(s)[top_level_rev(s).len() - 1 - k]
                == read_tree(#[trigger] top_level_rev(s)[k]),
    decreases s.len(),
{
    if s.len() > 0 && 1 <= s.last().width <= s.len() {
        let head = s.subrange(0, first_of(s, s.len() - 1));
        let tail = subtree(s, s.len() - 1);
        lemma_read_top_level(head);
        let ranges = top_level_rev(s);
        assert(ranges == seq![tail] + top_level_rev(head));
        assert forall|k: int| 0 <= k < ranges.len() implies read_forest(s)[ranges.len() - 1 - k]
            == read_tree(#[trigger] ranges[k]) by {
            if k > 0 {
                assert(ranges[k] == top_level_rev(head)[k - 1]);
            }
        }
    }
}

/// The children of the tree that the records stand for are the trees that
/// the child ranges stand for, in the opposite order.
pub proof fn lemma_read_children<T>(t: Seq<Node<T>>)
    requires
        t.len() > 0,
    ensures
        read_tree(t).children.len() == children_rev(t).len(),
        forall|k: int|
            0 <= k < children_rev(t).len() ==> read_tree(t).children[children_rev(t).len() - 1 - k]
                == read_tree(#[trigger] children_rev(t)[k]),
{
    lemma_read_top_level(t.drop_last());
}

/// A session has one forest in the making for each open level, and one
/// more.
pub proof fn lemma_levels_len<T>(s: Seq<Node<T>>, marks: Seq<int>)
    ensures
        levels_of(s, marks).len() == marks.len() + 1,
    decreases marks.len(),
{
    if marks.len() > 0 {
        lemma_levels_len(s.subrange(0, marks.last()), marks.drop_last());
    }
}

/// A leaf that a session appends joins the forest of the innermost level.
pub proof fn lemma_levels_with_leaf<T>(s: Seq<Node<T>>, marks: Seq<int>, value: T)
    requires
        is_forest(s),
        marks_fit(s, marks),
    ensures
        levels_of(with_leaf(s, value), marks) == levels_of(s, marks).drop_last().push(
            levels_of(s, marks).last().push((Rose { value, children: Seq::empty() })),
        ),
{
    let grown = with_leaf(s, value);
    let len = s.len() as int;
    if marks.len() == 0 {
        lemma_read_with_leaf(s, value);
        assert(seq![read_forest(s)].drop_last().push(
            read_forest(s).push(Rose { value, children: Seq::empty() }),
        ) == seq![read_forest(grown)]);
    } else {
        let mark = marks.last();
        let inner = s.subrange(mark, len);
        assert(is_boundary(s, marks[marks.len() - 1]));
        lemma_suffix_is_forest(s, mark);
        lemma_read_with_leaf(inner, value);
        assert(grown.subrange(0, mark) == s.subrange(0, mark));
        assert(grown.subrange(mark, grown.len() as int) == with_leaf(inner, value));
        let outer = levels_of(s.subrange(0, mark), marks.drop_last());
        assert(levels_of(s, marks) == outer.push(read_forest(inner)));
        assert(outer.push(read_forest(inner)).drop_last() == outer);
    }
}

/// A level that a session opens starts with an empty forest.
pub proof fn lemma_levels_opened<T>(s: Seq<Node<T>>, marks: Seq<int>)
    ensures
        levels_of(s, marks.push(s.len() as int)) == levels_of(s, marks).push(Seq::empty()),
{
    let len = s.len() as int;
    let more = marks.push(len);
    assert(more.drop_last() == marks);
    assert(s.subrange(0, len) == s);
    assert(s.subrange(len, len) == Seq::<Node<T>>::empty());
    assert(read_forest(s.subrange(len, len)) == Seq::<Rose<T>>::empty());
}

/// When a session closes its innermost level, the forest of that level
/// becomes the children of one new tree, and the tree joins the forest of
/// the level around it.
pub proof fn lemma_levels_closed<T>(s: Seq<Node<T>>, marks: Seq<int>, value: T)
    requires
        is_forest(s),
        marks_fit(s, marks),
        marks.len() > 0,
        s.len() < usize::MAX,
    ensures
        levels_of(s, marks).len() >= 2,
        levels_of(with_root(s, value, marks.last()), marks.drop_last()) == ({
            let levels = levels_of(s, marks);
            levels.drop_last().drop_last().push(
                levels[levels.len() - 2].push((Rose { value, children: levels.last() })),
            )
        }),
{
    let len = s.len() as int;
    let mark = marks.last();
    let outer_marks = marks.drop_last();
    let grown = with_root(s, value, mark);
    let levels = levels_of(s, marks);
    let inner = read_forest(s.subrange(mark, len));
    assert(is_boundary(s, marks[marks.len() - 1]));
    lemma_levels_len(s, marks);
    lemma_levels_len(s.subrange(0, mark), outer_marks);
    if outer_marks.len() == 0 {
        lemma_read_with_root(s, value, mark);
        assert(levels == seq![read_forest(s.subrange(0, mark))].push(inner));
        assert(levels.drop_last().drop_last() == Seq::<Seq<Rose<T>>>::empty());
        assert(levels_of(grown, outer_marks) == seq![read_forest(grown)]);
        assert(Seq::<Seq<Rose<T>>>::empty().push(
            levels[levels.len() - 2].push(Rose { value, children: levels.last() }),
        ) == seq![read_forest(grown)]);
    } else {
        let before = outer_marks.last();
        assert(before == marks[marks.len() - 2]);
        assert(is_boundary(s, marks[marks.len() - 2]));
        assert(marks[marks.len() - 2] <= marks[marks.len() - 1]);
        let window = s.subrange(before, len);
        lemma_suffix_is_forest(s, before);
        lemma_read_with_root(window, value, mark - before);
        assert(window.subrange(0, mark - before) == s.subrange(before, mark));
        assert(window.subrange(mark - before, window.len() as int) == s.subrange(mark, len));
        assert(grown.subrange(0, before) == s.subrange(0, before));
        assert(grown.subrange(before, grown.len() as int) == with_root(
            window,
            value,
            mark - before,
        ));
        let head = s.subrange(0, mark);
        assert(head.subrange(0, before) == s.subrange(0, before));
        assert(head.subrange(before, mark) == s.subrange(before, mark));
        let rest = levels_of(s.subrange(0, before), outer_marks.drop_last());
        let middle = read_forest(s.subrange(before, mark));
        assert(levels_of(head, outer_marks) == rest.push(middle));
        assert(levels == rest.push(middle).push(inner));
        assert(levels.drop_last().drop_last() == rest);
        assert(levels_of(grown, outer_marks) == rest.push(
            middle.push(Rose { value, children: inner }),
        ));
    }
}

/// The range of the record at position `i` of a forest stands for the tree
/// at position `i` among all the trees of the forest, each taken after the
/// trees inside it.
pub proof fn lemma_subtrees_in_post_order<T>(s: Seq<Node<T>>)
    requires
        is_forest(s),
    ensures
        every_tree(read_forest(s)).len() == s.len(),
        forall|i: int|
            0 <= i < s.len() ==> every_tree(read_forest(s))[i] == read_tree(
                #[trigger] subtree(s, i),
            ),
    decreases s.len(), 1int,
{
    if s.len() > 0 {
        let last = s.len() - 1;
        let cut = first_of(s, last);
        let head = s.subrange(0, cut);
        let tail = subtree(s, last);
        assert(1 <= s[last].width <= last + 1);
        lemma_subtree_is_tree(s, last);
        lemma_prefix_is_forest(s, cut);
        lemma_subtrees_in_post_order(head);
        lemma_tree_subtrees_in_post_order(tail);
        let forest = read_forest(s);
        assert(forest.drop_last() == read_forest(head));
        assert(forest.last() == read_tree(tail));
        let all = every_tree(forest);
        assert(all == every_tree(read_forest(head)) + every_tree_of(read_tree(tail)));
        assert forall|i: int| 0 <= i < s.len() implies all[i] == read_tree(
            #[trigger] subtree(s, i),
        ) by {
            if i < cut {
                assert(head[i] == s[i]);
                assert(subtree(head, i) == subtree(s, i));
            } else {
                assert(tail[i - cut] == s[i]);
                assert(first_of(s, last) <= first_of(s, i));
                assert(subtree(tail, i - cut) == subtree(s, i));
            }
        }
    }
}

/// The same of the records of one tree: the tree itself comes last.
pub proof fn lemma_tree_subtrees_in_post_order<T>(t: Seq<Node<T>>)
    requires
        is_tree(t),
    ensures
        every_tree_of(read_tree(t)).len() == t.len(),
        forall|i: int|
            0 <= i < t.len() ==> every_tree_of(read_tree(t))[i] == read_tree(
                #[trigger] subtree(t, i),
            ),
    decreases t.len(), 0int,
{
    let below = t.drop_last();
    assert(below == t.subrange(0, t.len() - 1));
    lemma_prefix_is_forest(t, t.len() - 1);
    lemma_subtrees_in_post_order(below);
    let all = every_tree_of(read_tree(t));
    assert(all == every_tree(read_forest(below)).push(read_tree(t)));
    assert forall|i: int| 0 <= i < t.len() implies all[i] == read_tree(
        #[trigger] subtree(t, i),
    ) by {
        if i < t.len() - 1 {
            assert(below[i] == t[i]);
            assert(subtree(below, i) == subtree(t, i));
        } else {
            assert(subtree(t, i) == t);
        }
    }
}

/// Read in storage order, the values of a forest come with the children
/// before their parent, from left to right.
pub proof fn lemma_stored_in_post_order<T>(s: Seq<Node<T>>)
    requires
        is_forest(s),
    ensures
        values(s) == post_order(read_forest(s)),
{
    lemma_read_then_lay(s);
    lemma_lay_in_post_order(read_forest(s));
}

} // verus!
