use grove::GroveBuf;
use grove::Preorder;
use grove::ReversePostorder;
use grove::Tree;

fn nine() -> GroveBuf<i32> {
    let mut g = GroveBuf::new();
    g.builder()
        .open()
        .open()
        .push(1)
        .push(2)
        .push(3)
        .close(4)
        .push(5)
        .open()
        .push(6)
        .close(7)
        .push(8)
        .close(9)
        .build();
    g
}

fn widths(g: &GroveBuf<i32>) -> Vec<usize> {
    g.trees(Preorder).iter().map(Tree::len).collect()
}

fn values(g: &GroveBuf<i32>) -> Vec<i32> {
    g.nodes(Preorder).into_iter().cloned().collect()
}

#[test]
fn writing_one_value_changes_that_value_only() {
    let mut g = nine();
    let before = widths(&g);
    *g.index_mut(3).root_mut() = 40;
    assert_eq!(values(&g), vec![1, 2, 3, 40, 5, 6, 7, 8, 9]);
    assert_eq!(widths(&g), before);
    assert_eq!(g.len(), 9);
}

#[test]
fn nodes_mut_in_the_second_order() {
    let mut g = nine();
    let mut count = 0;
    for value in g.nodes_mut(ReversePostorder) {
        *value = *value * 10 + count;
        count += 1;
    }
    assert_eq!(values(&g), vec![18, 27, 36, 45, 54, 63, 72, 81, 90]);
    assert_eq!(widths(&g), vec![1, 1, 1, 4, 1, 1, 2, 1, 9]);
}

#[test]
fn nodes_mut_hands_out_the_old_values() {
    let mut g = nine();
    let seen: Vec<i32> = g.nodes_mut(Preorder).into_iter().map(|v| *v).collect();
    assert_eq!(seen, vec![1, 2, 3, 4, 5, 6, 7, 8, 9]);
    let seen: Vec<i32> = g.nodes_mut(ReversePostorder).into_iter().map(|v| *v).collect();
    assert_eq!(seen, vec![9, 8, 7, 6, 5, 4, 3, 2, 1]);
}

#[test]
fn trees_mut_in_the_second_order() {
    let mut g = nine();
    let mut lens = Vec::new();
    let mut walk = g.trees_mut(ReversePostorder);
    while let Some(mut tree) = walk.next() {
        lens.push(tree.len());
        *tree.root_mut() += 100;
    }
    assert!(walk.next().is_none());
    assert_eq!(lens, vec![9, 1, 2, 1, 1, 4, 1, 1, 1]);
    assert_eq!(values(&g), vec![101, 102, 103, 104, 105, 106, 107, 108, 109]);
    assert_eq!(widths(&g), vec![1, 1, 1, 4, 1, 1, 2, 1, 9]);
}

#[test]
fn trees_mut_of_an_empty_store() {
    let mut g = GroveBuf::<i32>::new();
    let mut walk = g.trees_mut(Preorder);
    assert!(walk.next().is_none());
    assert!(g.nodes_mut(Preorder).is_empty());
}

#[test]
fn children_rev_mut_reaches_each_child() {
    let mut g = nine();
    {
        let mut root = g.index_mut(8);
        assert_eq!(root.len(), 9);
        assert_eq!(*root.root(), 9);
        let mut children = root.children_rev_mut();
        let lens: Vec<usize> = children.iter().map(|c| c.len()).collect();
        assert_eq!(lens, vec![1, 2, 1, 4]);
        for child in children.iter_mut() {
            *child.root_mut() *= 2;
        }
        let mut grandchildren = children[3].children_rev_mut();
        assert_eq!(grandchildren.len(), 3);
        *grandchildren[0].root_mut() = 33;
    }
    assert_eq!(values(&g), vec![1, 2, 33, 8, 10, 6, 14, 16, 9]);
    assert_eq!(widths(&g), vec![1, 1, 1, 4, 1, 1, 2, 1, 9]);
}

#[test]
fn a_leaf_has_no_children_to_write() {
    let mut g = nine();
    let mut leaf = g.index_mut(4);
    assert!(leaf.children_rev_mut().is_empty());
    assert_eq!(leaf.as_ref().len(), 1);
}

#[test]
fn a_tree_view_reaches_its_own_subtrees() {
    let mut g = nine();
    {
        let mut root = g.index_mut(8);
        let mut inner = root.index_mut(6);
        assert_eq!(inner.len(), 2);
        *inner.root_mut() = 70;
        *inner.index_mut(0).root_mut() = 60;
    }
    assert_eq!(values(&g), vec![1, 2, 3, 4, 5, 60, 70, 8, 9]);
    assert_eq!(widths(&g), vec![1, 1, 1, 4, 1, 1, 2, 1, 9]);
}

#[test]
fn a_view_for_writing_reads_too() {
    let mut g = nine();
    let mut view = g.as_mut();
    assert_eq!(view.len(), 9);
    assert!(!view.is_empty());
    assert_eq!(view.as_ref().nodes(Preorder), vec![&1, &2, &3, &4, &5, &6, &7, &8, &9]);
    for value in view.nodes_mut(Preorder) {
        *value += 1;
    }
    *view.index_mut(3).root_mut() = 0;
    let mut walk = view.trees_mut(Preorder);
    while let Some(mut tree) = walk.next() {
        if tree.len() == 1 {
            *tree.root_mut() = -*tree.root();
        }
    }
    assert_eq!(values(&g), vec![-2, -3, -4, 0, -6, -7, 8, -9, 10]);
    assert_eq!(widths(&g), vec![1, 1, 1, 4, 1, 1, 2, 1, 9]);
}
