use grove::GroveBuf;
use grove::Preorder;
use grove::ReversePostorder;
use grove::Tree;

fn nested() -> GroveBuf<i32> {
    let mut g = GroveBuf::new();
    g.builder().open().open().push(1).push(2).close(3).close(6).build();
    g
}

fn two_trees() -> GroveBuf<i32> {
    let mut g = GroveBuf::new();
    g.builder().push(1).open().push(2).push(3).close(4).build();
    g
}

fn nine() -> GroveBuf<i32> {
    let mut g = GroveBuf::new();
    g.builder()
        .open()
        .open()
        .push(1)
        .push(2)
        .push(3)
        .close(4)
        .push(5)
        .open()
        .push(6)
        .close(7)
        .push(8)
        .close(9)
        .build();
    g
}

fn lens(trees: &[Tree<i32>]) -> Vec<usize> {
    trees.iter().map(Tree::len).collect()
}

fn values(g: &GroveBuf<i32>) -> Vec<i32> {
    g.nodes(Preorder).into_iter().cloned().collect()
}

#[test]
fn empty_store_reads_nothing() {
    let g = GroveBuf::<i32>::new();
    assert_eq!(g.len(), 0);
    assert!(g.is_empty());
    assert_eq!(g.nodes(Preorder), Vec::<&i32>::new());
    assert_eq!(g.nodes(ReversePostorder), Vec::<&i32>::new());
    assert!(g.trees(Preorder).is_empty());
    assert!(g.trees(ReversePostorder).is_empty());
}

#[test]
fn two_leaves_are_two_trees() {
    let mut g = GroveBuf::new();
    g.push(3);
    g.push(4);
    assert_eq!(g.len(), 2);
    assert_eq!(g.nodes(Preorder), vec![&3, &4]);
    assert_eq!(lens(&g.trees(Preorder)), vec![1, 1]);
    assert_eq!(g.index(0).len(), 1);
    assert_eq!(g.index(1).len(), 1);
    assert!(g.index(1).children_rev().is_empty());
}

#[test]
fn root_over_two_children() {
    let mut g = GroveBuf::new();
    g.push(3);
    g.push(4);
    g.push_root(5, 2);
    assert_eq!(g.len(), 3);
    assert_eq!(g.nodes(Preorder), vec![&3, &4, &5]);
    assert_eq!(lens(&g.trees(Preorder)), vec![1, 1, 3]);
    assert_eq!(g.index(2), g);
    assert_eq!(g, g.index(2));
    assert_eq!(*g.index(2).root(), 5);
}

#[test]
fn nested_construction() {
    let g = nested();
    assert_eq!(g.nodes(Preorder), vec![&1, &2, &3, &6]);
    assert_eq!(lens(&g.trees(Preorder)), vec![1, 1, 3, 4]);
    let root = g.index(3);
    let children = root.children_rev();
    assert_eq!(children.len(), 1);
    assert_eq!(children[0].len(), 3);
    assert_eq!(*children[0].root(), 3);
    let mut inner = GroveBuf::new();
    inner.builder().open().push(1).push(2).close(3).build();
    assert_eq!(children[0], inner);
}

#[test]
fn forest_of_two_trees() {
    let g = two_trees();
    assert_eq!(g.nodes(Preorder), vec![&1, &2, &3, &4]);
    let mut leaf = GroveBuf::new();
    leaf.push(1);
    assert_eq!(g.index(0), leaf);
    let mut second = GroveBuf::new();
    second.builder().open().push(2).push(3).close(4).build();
    assert_eq!(g.index(3), second);
    assert_eq!(g.index(3).len(), 3);
}

#[test]
fn second_order_is_the_first_reversed() {
    let g = nine();
    let mut forward: Vec<i32> = g.nodes(Preorder).into_iter().cloned().collect();
    let backward: Vec<i32> = g.nodes(ReversePostorder).into_iter().cloned().collect();
    assert_eq!(forward, vec![1, 2, 3, 4, 5, 6, 7, 8, 9]);
    assert_eq!(backward, vec![9, 8, 7, 6, 5, 4, 3, 2, 1]);
    forward.reverse();
    assert_eq!(forward, backward);
    assert_eq!(lens(&g.trees(Preorder)), vec![1, 1, 1, 4, 1, 1, 2, 1, 9]);
    assert_eq!(lens(&g.trees(ReversePostorder)), vec![9, 1, 2, 1, 1, 4, 1, 1, 1]);
    let roots: Vec<i32> = g.trees(ReversePostorder).iter().map(|t| *t.root()).collect();
    assert_eq!(roots, backward);
}

#[test]
fn every_range_lies_within_bounds() {
    let g = nine();
    for i in 0..g.len() {
        let tree = g.index(i);
        assert!(tree.len() >= 1);
        assert!(tree.len() <= i + 1);
        assert_eq!(*tree.root(), values(&g)[i]);
        for j in 0..tree.len() {
            let inner = tree.index(j);
            assert!(inner.len() <= j + 1);
            assert_eq!(inner, g.index(i + 1 - tree.len() + j));
        }
    }
}

#[test]
fn children_cover_all_but_the_root() {
    let g = nine();
    for i in 0..g.len() {
        let tree = g.index(i);
        let children = tree.children_rev();
        let covered: usize = children.iter().map(Tree::len).sum();
        assert_eq!(covered, tree.len() - 1);
    }
    let children = g.index(8).children_rev();
    assert_eq!(lens(&children), vec![1, 2, 1, 4]);
    let roots: Vec<i32> = children.iter().map(|t| *t.root()).collect();
    assert_eq!(roots, vec![8, 7, 5, 4]);
    assert_eq!(lens(&children[3].children_rev()), vec![1, 1, 1]);
}

#[test]
fn reading_twice_gives_the_same() {
    let g = nine();
    let first = g.as_ref().nodes(Preorder);
    let second = g.as_ref().nodes(Preorder);
    assert_eq!(first, second);
    let view = g.as_ref();
    assert_eq!(view.nodes(ReversePostorder), view.nodes(ReversePostorder));
    assert_eq!(lens(&view.trees(Preorder)), lens(&g.as_ref().trees(Preorder)));
    assert_eq!(view.index(3), g.as_ref().index(3));
    assert_eq!(view, g);
    assert_eq!(g, view);
}

#[test]
fn index_on_a_view() {
    let g = nine();
    let view = g.as_ref();
    assert_eq!(view.len(), 9);
    assert!(!view.is_empty());
    assert_eq!(view.index(3).len(), 4);
    assert_eq!(*view.index(6).root(), 7);
    assert_eq!(view.index(6).len(), 2);
}

#[test]
fn push_root_takes_the_latest_trees() {
    let mut g = two_trees();
    g.push(5);
    g.push_root(6, 2);
    assert_eq!(g.nodes(Preorder), vec![&1, &2, &3, &4, &5, &6]);
    assert_eq!(lens(&g.trees(Preorder)), vec![1, 1, 1, 3, 1, 5]);
    g.push_root(7, 0);
    assert_eq!(g.index(6).len(), 1);
    g.push_root(8, 3);
    assert_eq!(g.index(7).len(), 8);
    assert_eq!(lens(&g.index(7).children_rev()), vec![1, 5, 1]);
}

#[test]
fn push_unchecked_starts_at_the_position() {
    let mut g = two_trees();
    g.push_unchecked(9, 1);
    assert_eq!(g.len(), 5);
    assert_eq!(g.index(4).len(), 4);
    assert_eq!(lens(&g.index(4).children_rev()), vec![3]);
    g.push_unchecked(10, 5);
    assert_eq!(g.index(5).len(), 1);
    g.push_unchecked(11, 0);
    assert_eq!(g.index(6).len(), 7);
    assert_eq!(lens(&g.index(6).children_rev()), vec![1, 4, 1]);
}

#[test]
fn open_levels_left_open_leave_what_was_pushed() {
    let mut g = GroveBuf::new();
    let _ = g.builder().push(1).open().push(2).open().push(3);
    assert_eq!(g.nodes(Preorder), vec![&1, &2, &3]);
    assert_eq!(lens(&g.trees(Preorder)), vec![1, 1, 1]);
}

#[test]
fn a_session_goes_on_where_the_store_is() {
    let mut g = two_trees();
    g.builder().open().push(5).close(6).build().push(7);
    assert_eq!(g.nodes(Preorder), vec![&1, &2, &3, &4, &5, &6, &7]);
    assert_eq!(lens(&g.trees(Preorder)), vec![1, 1, 1, 3, 1, 2, 1]);
}

#[test]
fn stores_compare_record_by_record() {
    let a = two_trees();
    let b = two_trees();
    assert_eq!(a, b);
    let mut flat = GroveBuf::new();
    flat.builder().push(1).push(2).push(3).push(4).build();
    assert_eq!(values(&flat), values(&a));
    assert_ne!(flat, a);
    assert_ne!(a.index(3), nested());
    assert_ne!(a.index(0), a.index(1));
    assert_eq!(nine().index(0), a.index(0));
}

#[test]
fn a_clone_is_a_store_of_its_own() {
    let g = nine();
    let mut h = g.clone();
    assert_eq!(h, g);
    assert_eq!(lens(&h.trees(Preorder)), lens(&g.trees(Preorder)));
    h.push(10);
    *h.index_mut(0).root_mut() = 100;
    assert_eq!(values(&g), vec![1, 2, 3, 4, 5, 6, 7, 8, 9]);
    assert_eq!(values(&h), vec![100, 2, 3, 4, 5, 6, 7, 8, 9, 10]);
    assert_ne!(h, g);
}

#[test]
fn views_are_handed_on_by_copy() {
    let g = nine();
    let tree = g.index(3);
    let again = tree;
    assert_eq!(tree, again);
    assert_eq!(tree.clone().len(), 4);
    let view = g.as_ref();
    let same = view;
    assert_eq!(view.len(), same.len());
    assert_eq!(same.clone().index(3), tree);
}
