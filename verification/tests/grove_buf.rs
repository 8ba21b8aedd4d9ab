use grove::GroveBuf;
use grove::Preorder;
use grove::Tree;

fn complex_example() -> GroveBuf<i32> {
    let mut g = GroveBuf::new();
    g.builder()
        .open()
        .open()
        .open()
        .push(1)
        .push(2)
        .close(3)
        .open()
        .push(4)
        .push(5)
        .close(6)
        .close(7)
        .push(8)
        .open()
        .open()
        .push(9)
        .push(10)
        .close(11)
        .open()
        .push(12)
        .push(13)
        .close(14)
        .close(15)
        .close(16)
        .build();
    g
}

fn one(value: i32) -> GroveBuf<i32> {
    let mut g = GroveBuf::new();
    g.builder().push(value).build();
    g
}

#[test]
fn new() {
    let g = GroveBuf::<i32>::new();
    assert!(g.is_empty());
    assert_eq!(g.len(), 0);
    let nodes: Vec<_> = g.nodes(Preorder);
    assert_eq!(nodes, Vec::<&i32>::new());

    let nodes: Vec<usize> = g.trees(Preorder).iter().map(Tree::len).collect();
    assert_eq!(nodes, vec![]);
}

#[test]
fn default() {
    let g: GroveBuf<i32> = Default::default();
    assert!(g.is_empty());
    assert_eq!(g.len(), 0);
    let nodes: Vec<_> = g.nodes(Preorder);
    assert_eq!(nodes, Vec::<&i32>::new());

    let nodes: Vec<usize> = g.trees(Preorder).iter().map(Tree::len).collect();
    assert_eq!(nodes, vec![]);
}

#[test]
fn leaf() {
    let mut g: GroveBuf<i32> = Default::default();
    g.push(3);
    assert!(!g.is_empty());
    assert_eq!(g.len(), 1);
    let nodes: Vec<_> = g.nodes(Preorder);
    assert_eq!(nodes, vec![&3]);

    let nodes: Vec<_> = g.trees(Preorder).iter().map(Tree::len).collect();
    assert_eq!(nodes, vec![1]);
}

#[test]
fn leaves() {
    let mut g: GroveBuf<i32> = Default::default();
    g.push(3);
    g.push(4);
    assert!(!g.is_empty());
    assert_eq!(g.len(), 2);
    let nodes: Vec<_> = g.nodes(Preorder);
    assert_eq!(nodes, vec![&3, &4]);

    let widths: Vec<_> = g.trees(Preorder).iter().map(Tree::len).collect();
    assert_eq!(widths, vec![1, 1]);
}

#[test]
fn tree() {
    let mut g: GroveBuf<i32> = Default::default();
    g.push(3);
    g.push(4);
    g.push_root(5, 2);
    assert!(!g.is_empty());
    assert_eq!(g.len(), 3);
    let nodes: Vec<_> = g.nodes(Preorder);
    assert_eq!(nodes, vec![&3, &4, &5]);

    let widths: Vec<_> = g.trees(Preorder).iter().map(Tree::len).collect();
    assert_eq!(widths, vec![1, 1, 3]);
}

#[test]
fn multi_level_tree() {
    let mut g: GroveBuf<i32> = Default::default();
    g.push(3);
    g.push(4);
    g.push_root(5, 2);
    g.push(6);
    g.push(7);
    g.push_root(8, 2);
    g.push_root(9, 2);
    assert!(!g.is_empty());
    assert_eq!(g.len(), 7);
    let nodes: Vec<_> = g.nodes(Preorder);
    assert_eq!(nodes, vec![&3, &4, &5, &6, &7, &8, &9]);

    let widths: Vec<_> = g.trees(Preorder).iter().map(Tree::len).collect();
    assert_eq!(widths, vec![1, 1, 3, 1, 1, 3, 7]);
}

#[test]
fn empty_macro() {
    let g: GroveBuf<i32> = GroveBuf::new();
    assert!(g.is_empty());
}

#[test]
fn one_leaf_macro() {
    let g: GroveBuf<i32> = one(1);
    assert_eq!(g.len(), 1);
    let nodes: Vec<_> = g.trees(Preorder).iter().map(Tree::len).collect();
    assert_eq!(nodes, vec![1]);
}

#[test]
fn many_leaves_macro() {
    let mut g: GroveBuf<i32> = GroveBuf::new();
    g.builder().push(1).push(2).push(3).build();
    assert_eq!(g.len(), 3);
    let nodes: Vec<_> = g.trees(Preorder).iter().map(Tree::len).collect();
    assert_eq!(nodes, vec![1, 1, 1]);
}

#[test]
fn many_trees_macro() {
    let mut g: GroveBuf<i32> = GroveBuf::new();
    g.builder().push(1).open().push(2).close(3).open().push(4).close(5).push(6).build();
    assert_eq!(g.len(), 6);
    let nodes: Vec<_> = g.nodes(Preorder);
    assert_eq!(nodes, vec![&1, &2, &3, &4, &5, &6]);

    let widths: Vec<_> = g.trees(Preorder).iter().map(Tree::len).collect();
    assert_eq!(widths, vec![1, 1, 2, 1, 2, 1]);
}

#[test]
fn path_macro() {
    let mut g: GroveBuf<i32> = GroveBuf::new();
    g.builder().open().open().push(3).close(2).close(1).build();
    assert_eq!(g.len(), 3);
    let nodes: Vec<_> = g.nodes(Preorder);
    assert_eq!(nodes, vec![&3, &2, &1]);

    let widths: Vec<_> = g.trees(Preorder).iter().map(Tree::len).collect();
    assert_eq!(widths, vec![1, 2, 3]);
}

#[test]
fn full_tree_macro() {
    let g = complex_example();
    assert_eq!(g.len(), 16);
    let nodes: Vec<_> = g.nodes(Preorder);
    assert_eq!(
        nodes,
        vec![&1, &2, &3, &4, &5, &6, &7, &8, &9, &10, &11, &12, &13, &14, &15, &16]
    );

    let widths: Vec<_> = g.trees(Preorder).iter().map(Tree::len).collect();
    assert_eq!(widths, vec![1, 1, 3, 1, 1, 3, 7, 1, 1, 1, 3, 1, 1, 3, 7, 16]);
}

#[test]
fn builder() {
    let mut g: GroveBuf<i32> = Default::default();
    g.builder()
        .open()
        .open()
        .open()
        .push(1)
        .push(2)
        .close(3)
        .open()
        .push(4)
        .push(5)
        .close(6)
        .close(7)
        .push(8)
        .open()
        .open()
        .push(9)
        .push(10)
        .close(11)
        .open()
        .push(12)
        .push(13)
        .close(14)
        .close(15)
        .close(16)
        .build();

    let nodes: Vec<_> = g.nodes(Preorder);
    assert_eq!(
        nodes,
        vec![&1, &2, &3, &4, &5, &6, &7, &8, &9, &10, &11, &12, &13, &14, &15, &16]
    );

    let widths: Vec<_> = g.trees(Preorder).iter().map(Tree::len).collect();
    assert_eq!(widths, vec![1, 1, 3, 1, 1, 3, 7, 1, 1, 1, 3, 1, 1, 3, 7, 16]);
}

#[test]
fn nodes_mut() {
    let mut g = complex_example();
    for node in g.nodes_mut(Preorder) {
        *node += 1;
    }
    let nodes: Vec<_> = g.nodes(Preorder);
    assert_eq!(
        nodes,
        vec![&2, &3, &4, &5, &6, &7, &8, &9, &10, &11, &12, &13, &14, &15, &16, &17]
    );

    let widths: Vec<_> = g.trees(Preorder).iter().map(Tree::len).collect();
    assert_eq!(widths, vec![1, 1, 3, 1, 1, 3, 7, 1, 1, 1, 3, 1, 1, 3, 7, 16]);
}

#[test]
fn trees() {
    let g = complex_example();
    assert_eq!(g.len(), 16);
    let len_and_roots: Vec<_> = g.trees(Preorder).iter().map(|t| (t.len(), t.root())).collect();
    assert_eq!(
        len_and_roots,
        vec![
            (1, &1),
            (1, &2),
            (3, &3),
            (1, &4),
            (1, &5),
            (3, &6),
            (7, &7),
            (1, &8),
            (1, &9),
            (1, &10),
            (3, &11),
            (1, &12),
            (1, &13),
            (3, &14),
            (7, &15),
            (16, &16)
        ]
    );
}

#[test]
fn trees_mut() {
    let mut g = complex_example();
    assert_eq!(g.len(), 16);
    let mut walk = g.trees_mut(Preorder);
    while let Some(mut tree) = walk.next() {
        *tree.root_mut() += 1;
    }

    let nodes: Vec<_> = g.nodes(Preorder);
    assert_eq!(
        nodes,
        vec![&2, &3, &4, &5, &6, &7, &8, &9, &10, &11, &12, &13, &14, &15, &16, &17]
    );

    let widths: Vec<_> = g.trees(Preorder).iter().map(Tree::len).collect();
    assert_eq!(widths, vec![1, 1, 3, 1, 1, 3, 7, 1, 1, 1, 3, 1, 1, 3, 7, 16]);
}

#[test]
fn index() {
    let g = complex_example();
    let mut three = GroveBuf::new();
    three.builder().open().push(1 as i32).push(2).close(3).build();
    assert_eq!(g.index(0), one(1 as i32));
    assert_eq!(g.index(1), one(2 as i32));
    assert_eq!(g.index(2), three);
}
