//! The arithmetic of the width encoding: which positions a subtree occupies,
//! when a sequence of records is a forest, and how a forest falls apart into
//! its top-level trees.

use crate::node::Node;
use vstd::prelude::*;

verus! {

/// Position of the first record of the subtree whose root is stored at `i`.
pub open spec fn first_of<T>(s: Seq<Node<T>>, i: int) -> int {
    i + 1 - s[i].width
}

/// The records of the subtree whose root is stored at `i`: the range
/// `[i - width + 1, i]`.
pub open spec fn subtree<T>(s: Seq<Node<T>>, i: int) -> Seq<Node<T>> {
    s.subrange(first_of(s, i), i + 1)
}

/// The width invariant. Every subtree range lies within the sequence, and a
/// record inside another record's range has its own range inside it too, so
/// that ranges nest and never cross.
pub open spec fn is_forest<T>(s: Seq<Node<T>>) -> bool {
    &&& forall|i: int| 0 <= i < s.len() ==> 1 <= (#[trigger] s[i]).width <= i + 1
    &&& forall|i: int, j: int|
        #![trigger s[i], s[j]]
        0 <= j <= i < s.len() && first_of(s, i) <= j ==> first_of(s, i) <= first_of(s, j)
}

/// A forest that is one tree: its last record is the root of all of it.
pub open spec fn is_tree<T>(s: Seq<Node<T>>) -> bool {
    &&& s.len() > 0
    &&& is_forest(s)
    &&& s.last().width == s.len()
}

/// No subtree range reaches across `p`: the records from `p` on are complete
/// top-level trees of their own.
pub open spec fn is_boundary<T>(s: Seq<Node<T>>, p: int) -> bool {
    &&& 0 <= p <= s.len()
    &&& forall|j: int| #![trigger s[j]] p <= j < s.len() ==> p <= first_of(s, j)
}

/// Whether each mark is a boundary of `s` and no mark lies before an earlier
/// one.
pub open spec fn marks_fit<T>(s: Seq<Node<T>>, marks: Seq<int>) -> bool {
    &&& forall|k: int| 0 <= k < marks.len() ==> is_boundary(s, #[trigger] marks[k])
    &&& forall|k: int, l: int| 0 <= k <= l < marks.len() ==> marks[k] <= marks[l]
}

/// Two sequences with the same widths at the same positions.
pub open spec fn same_shape<T>(a: Seq<Node<T>>, b: Seq<Node<T>>) -> bool {
    &&& a.len() == b.len()
    &&& forall|i: int| 0 <= i < a.len() ==> (#[trigger] a[i]).width == b[i].width
}

/// The values of the records, in storage order.
pub open spec fn values<T>(s: Seq<Node<T>>) -> Seq<T> {
    Seq::new(s.len(), |i: int| s[i].value)
}

/// The widths of the records, in storage order.
pub open spec fn widths<T>(s: Seq<Node<T>>) -> Seq<int> {
    Seq::new(s.len(), |i: int| s[i].width as int)
}

/// `s` with a leaf appended.
pub open spec fn with_leaf<T>(s: Seq<Node<T>>, value: T) -> Seq<Node<T>> {
    s.push(Node { value, width: 1 })
}

/// `s` with a record appended whose subtree is that record and everything
/// stored from `start` on.
pub open spec fn with_root<T>(s: Seq<Node<T>>, value: T, start: int) -> Seq<Node<T>> {
    s.push(Node { value, width: (s.len() - start + 1) as usize })
}

/// The top-level trees of a forest, the most recent one first.
pub open spec fn top_level_rev<T>(s: Seq<Node<T>>) -> Seq<Seq<Node<T>>>
    decreases s.len(),
{
    if s.len() > 0 && 1 <= s.last().width <= s.len() {
        seq![subtree(s, s.len() - 1)] + top_level_rev(s.subrange(0, first_of(s, s.len() - 1)))
    } else {
        Seq::empty()
    }
}

/// The child subtrees of the root of `t`, the rightmost one first.
pub open spec fn children_rev<T>(t: Seq<Node<T>>) -> Seq<Seq<Node<T>>> {
    top_level_rev(t.drop_last())
}

/// `s` with the items at the positions from `from` up to `to` replaced by
/// `part`.
pub open spec fn splice<A>(s: Seq<A>, from: int, to: int, part: Seq<A>) -> Seq<A> {
    s.subrange(0, from) + part + s.subrange(to, s.len() as int)
}

/// The parts put back together, the last part first.
pub open spec fn join_rev<A>(parts: Seq<Seq<A>>) -> Seq<A>
    decreases parts.len(),
{
    if parts.len() == 0 {
        Seq::empty()
    } else {
        join_rev(parts.drop_first()) + parts.first()
    }
}

/// The lengths of the parts, added up.
pub open spec fn total_len<A>(parts: Seq<Seq<A>>) -> nat
    decreases parts.len(),
{
    if parts.len() == 0 {
        0
    } else {
        parts.first().len() + total_len(parts.drop_first())
    }
}

/// Appending a leaf keeps a forest a forest.
pub proof fn lemma_push_leaf<T>(s: Seq<Node<T>>, node: Node<T>)
    requires
        is_forest(s),
        node.width == 1,
    ensures
        is_forest(s.push(node)),
        is_boundary(s.push(node), s.len() as int),
{
    let t = s.push(node);
    assert forall|i: int| 0 <= i < t.len() implies 1 <= (#[trigger] t[i]).width <= i + 1 by {
        if i < s.len() {
            assert(t[i] == s[i]);
        }
    }
    assert forall|i: int, j: int|
        #![trigger t[i], t[j]]
        0 <= j <= i < t.len() && first_of(t, i) <= j implies first_of(t, i) <= first_of(t, j) by {
        if i < s.len() {
            assert(t[i] == s[i] && t[j] == s[j]);
        }
    }
}

/// Appending a record whose range starts on a boundary keeps a forest a
/// forest, and the new record is the root of everything from that boundary on.
pub proof fn lemma_push_root<T>(s: Seq<Node<T>>, start: int, node: Node<T>)
    requires
        is_forest(s),
        is_boundary(s, start),
        node.width == s.len() - start + 1,
    ensures
        is_forest(s.push(node)),
        first_of(s.push(node), s.len() as int) == start,
        forall|p: int| is_boundary(s, p) && p <= start ==> is_boundary(s.push(node), p),
{
    let t = s.push(node);
    assert forall|i: int| 0 <= i < t.len() implies 1 <= (#[trigger] t[i]).width <= i + 1 by {
        if i < s.len() {
            assert(t[i] == s[i]);
        }
    }
    assert forall|i: int, j: int|
        #![trigger t[i], t[j]]
        0 <= j <= i < t.len() && first_of(t, i) <= j implies first_of(t, i) <= first_of(t, j) by {
        if i < s.len() {
            assert(t[i] == s[i] && t[j] == s[j]);
        } else if j < s.len() {
            assert(t[j] == s[j]);
            assert(first_of(s, j) == first_of(t, j));
        }
    }
    assert forall|p: int| is_boundary(s, p) && p <= start implies is_boundary(t, p) by {
        assert forall|j: int| #![trigger t[j]] p <= j < t.len() implies p <= first_of(t, j) by {
            if j < s.len() {
                assert(t[j] == s[j]);
                assert(first_of(s, j) == first_of(t, j));
            }
        }
    }
}

/// A window of a forest that starts on a boundary of what it holds is a
/// forest of its own.
pub proof fn lemma_window_is_forest<T>(s: Seq<Node<T>>, from: int, to: int)
    requires
        is_forest(s),
        0 <= from <= to <= s.len(),
        is_boundary(s.subrange(0, to), from),
    ensures
        is_forest(s.subrange(from, to)),
{
    let head = s.subrange(0, to);
    let w = s.subrange(from, to);
    assert forall|i: int| 0 <= i < w.len() implies 1 <= (#[trigger] w[i]).width <= i + 1 by {
        assert(w[i] == s[from + i]);
        assert(head[from + i] == s[from + i]);
    }
    assert forall|i: int, j: int|
        #![trigger w[i], w[j]]
        0 <= j <= i < w.len() && first_of(w, i) <= j implies first_of(w, i) <= first_of(w, j) by {
        assert(w[i] == s[from + i]);
        assert(w[j] == s[from + j]);
        assert(first_of(s, from + i) == first_of(w, i) + from);
        assert(first_of(s, from + j) == first_of(w, j) + from);
    }
}

/// Every prefix of a forest is a forest.
pub proof fn lemma_prefix_is_forest<T>(s: Seq<Node<T>>, to: int)
    requires
        is_forest(s),
        0 <= to <= s.len(),
    ensures
        is_forest(s.subrange(0, to)),
{
    let head = s.subrange(0, to);
    assert forall|j: int| #![trigger head[j]] 0 <= j < head.len() implies 0 <= first_of(
        head,
        j,
    ) by {
        assert(head[j] == s[j]);
    }
    assert(head.subrange(0, to) == head);
    assert(is_boundary(head, 0));
    lemma_window_is_forest(s, 0, to);
}

/// In a forest the range of every record is a tree.
pub proof fn lemma_subtree_is_tree<T>(s: Seq<Node<T>>, i: int)
    requires
        is_forest(s),
        0 <= i < s.len(),
    ensures
        0 <= first_of(s, i) <= i,
        is_tree(subtree(s, i)),
        subtree(s, i).len() == s[i].width,
        subtree(s, i).last() == s[i],
{
    let lo = first_of(s, i);
    let head = s.subrange(0, i + 1);
    assert(s[i].width <= i + 1);
    assert forall|j: int| #![trigger head[j]] lo <= j < head.len() implies lo <= first_of(
        head,
        j,
    ) by {
        assert(head[j] == s[j]);
        assert(first_of(s, i) <= first_of(s, j));
    }
    lemma_window_is_forest(s, lo, i + 1);
}

/// The range of the last record of a forest starts on a boundary, and so
/// does the range of the record just before any boundary.
pub proof fn lemma_boundary_steps_back<T>(s: Seq<Node<T>>, p: int)
    requires
        is_forest(s),
        is_boundary(s, p),
        0 < p,
    ensures
        is_boundary(s, first_of(s, p - 1)),
        0 <= first_of(s, p - 1) < p,
{
    let q = first_of(s, p - 1);
    assert(1 <= s[p - 1].width <= p);
    assert forall|j: int| #![trigger s[j]] q <= j < s.len() implies q <= first_of(s, j) by {
        if j < p {
            assert(first_of(s, p - 1) <= first_of(s, j));
        }
    }
}

/// Sequences of one shape are forests together.
pub proof fn lemma_same_shape_forest<T>(a: Seq<Node<T>>, b: Seq<Node<T>>)
    requires
        same_shape(a, b),
        is_forest(a),
    ensures
        is_forest(b),
        is_tree(a) ==> is_tree(b),
        forall|p: int| is_boundary(a, p) ==> is_boundary(b, p),
{
    assert forall|i: int| 0 <= i < b.len() implies 1 <= (#[trigger] b[i]).width <= i + 1 by {
        assert(a[i].width == b[i].width);
    }
    assert forall|i: int, j: int|
        #![trigger b[i], b[j]]
        0 <= j <= i < b.len() && first_of(b, i) <= j implies first_of(b, i) <= first_of(b, j) by {
        assert(a[i].width == b[i].width);
        assert(a[j].width == b[j].width);
    }
    assert forall|p: int| is_boundary(a, p) implies is_boundary(b, p) by {
        assert forall|j: int| #![trigger b[j]] p <= j < b.len() implies p <= first_of(b, j) by {
            assert(a[j].width == b[j].width);
        }
    }
    if is_tree(a) {
        assert(a[a.len() - 1].width == b[b.len() - 1].width);
    }
}

/// The length of the joined parts is the sum of their lengths.
pub proof fn lemma_join_rev_len<A>(parts: Seq<Seq<A>>)
    ensures
        join_rev(parts).len() == total_len(parts),
    decreases parts.len(),
{
    if parts.len() > 0 {
        lemma_join_rev_len(parts.drop_first());
    }
}

/// A forest is exactly its top-level trees laid end to end, each of them a
/// tree.
pub proof fn lemma_top_level_partition<T>(s: Seq<Node<T>>)
    requires
        is_forest(s),
    ensures
        join_rev(top_level_rev(s)) == s,
        total_len(top_level_rev(s)) == s.len(),
        forall|k: int| 0 <= k < top_level_rev(s).len() ==> is_tree(#[trigger] top_level_rev(s)[k]),
    decreases s.len(),
{
    if s.len() > 0 {
        let last = s.len() - 1;
        let cut = first_of(s, last);
        let rest = s.subrange(0, cut);
        let parts = top_level_rev(s);
        assert(1 <= s[last].width <= last + 1);
        lemma_subtree_is_tree(s, last);
        lemma_prefix_is_forest(s, cut);
        lemma_top_level_partition(rest);
        assert(parts == seq![subtree(s, last)] + top_level_rev(rest));
        assert(parts.first() == subtree(s, last));
        assert(parts.drop_first() == top_level_rev(rest));
        assert(rest + subtree(s, last) == s);
        assert forall|k: int| 0 <= k < parts.len() implies is_tree(#[trigger] parts[k]) by {
            if k > 0 {
                assert(parts[k] == top_level_rev(rest)[k - 1]);
            }
        }
    }
    lemma_join_rev_len(top_level_rev(s));
}

/// A boundary of a forest is a boundary of each prefix that reaches it.
pub proof fn lemma_boundary_of_prefix<T>(s: Seq<Node<T>>, p: int, to: int)
    requires
        is_boundary(s, p),
        p <= to <= s.len(),
    ensures
        is_boundary(s.subrange(0, to), p),
{
    let head = s.subrange(0, to);
    assert forall|j: int| #![trigger head[j]] p <= j < head.len() implies p <= first_of(
        head,
        j,
    ) by {
        assert(head[j] == s[j]);
    }
}

/// What lies after a boundary of a forest is a forest, and the later
/// boundaries of the forest are boundaries of it.
pub proof fn lemma_suffix_is_forest<T>(s: Seq<Node<T>>, p: int)
    requires
        is_forest(s),
        is_boundary(s, p),
    ensures
        is_forest(s.subrange(p, s.len() as int)),
        forall|q: int|
            p <= q && is_boundary(s, q) ==> is_boundary(s.subrange(p, s.len() as int), q - p),
{
    let after = s.subrange(p, s.len() as int);
    assert(s.subrange(0, s.len() as int) == s);
    lemma_window_is_forest(s, p, s.len() as int);
    assert forall|q: int| p <= q && is_boundary(s, q) implies is_boundary(after, q - p) by {
        assert forall|j: int| #![trigger after[j]] q - p <= j < after.len() implies q - p
            <= first_of(after, j) by {
            assert(after[j] == s[p + j]);
            assert(q <= first_of(s, p + j));
        }
    }
}

/// The top-level trees of a forest are those after a boundary, then those
/// before it.
pub proof fn lemma_top_level_split<T>(s: Seq<Node<T>>, p: int)
    requires
        is_forest(s),
        is_boundary(s, p),
    ensures
        top_level_rev(s) == top_level_rev(s.subrange(p, s.len() as int)) + top_level_rev(
            s.subrange(0, p),
        ),
    decreases s.len(),
{
    let len = s.len() as int;
    let after = s.subrange(p, len);
    if p == len {
        assert(s.subrange(0, p) == s);
        assert(top_level_rev(after) == Seq::<Seq<Node<T>>>::empty());
        assert(Seq::<Seq<Node<T>>>::empty() + top_level_rev(s) == top_level_rev(s));
    } else {
        let last = len - 1;
        let cut = first_of(s, last);
        let head = s.subrange(0, cut);
        assert(1 <= s[last].width <= last + 1);
        assert(p <= cut);
        lemma_prefix_is_forest(s, cut);
        lemma_boundary_of_prefix(s, p, cut);
        lemma_top_level_split(head, p);
        assert(head.subrange(p, cut) == s.subrange(p, cut));
        assert(head.subrange(0, p) == s.subrange(0, p));
        assert(after.last() == s[last]);
        assert(first_of(after, after.len() - 1) == cut - p);
        assert(subtree(after, after.len() - 1) == subtree(s, last));
        assert(after.subrange(0, cut - p) == s.subrange(p, cut));
        assert(top_level_rev(after) == seq![subtree(s, last)] + top_level_rev(s.subrange(p, cut)));
        assert(top_level_rev(s) == seq![subtree(s, last)] + top_level_rev(head));
        assert(seq![subtree(s, last)] + (top_level_rev(s.subrange(p, cut)) + top_level_rev(
            s.subrange(0, p),
        )) == (seq![subtree(s, last)] + top_level_rev(s.subrange(p, cut))) + top_level_rev(
            s.subrange(0, p),
        ));
    }
}

/// Joining one more part puts it in front of the others.
pub proof fn lemma_join_rev_push<A>(parts: Seq<Seq<A>>, part: Seq<A>)
    ensures
        join_rev(parts.push(part)) == part + join_rev(parts),
    decreases parts.len(),
{
    let more = parts.push(part);
    if parts.len() == 0 {
        assert(more.drop_first() == Seq::<Seq<A>>::empty());
        assert(join_rev(more.drop_first()) + part == part + join_rev(parts));
    } else {
        lemma_join_rev_push(parts.drop_first(), part);
        assert(more.drop_first() == parts.drop_first().push(part));
        assert((part + join_rev(parts.drop_first())) + parts.first() == part + (join_rev(
            parts.drop_first(),
        ) + parts.first()));
    }
}

} // verus!
