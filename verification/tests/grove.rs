use grove::GroveBuf;
use grove::Preorder;
use grove::ReversePostorder;

fn seven() -> GroveBuf<i32> {
    let mut g = GroveBuf::new();
    g.builder()
        .open()
        .push(1)
        .push(2)
        .close(3)
        .push(4)
        .open()
        .push(5)
        .push(6)
        .close(7)
        .build();
    g
}

#[test]
fn empty() {
    let g = GroveBuf::<i32>::new();
    assert!(g.as_ref().is_empty());
    assert_eq!(g.as_ref().len(), 0);
}

#[test]
fn len() {
    let g = seven();
    assert!(!g.as_ref().is_empty());
    assert_eq!(g.as_ref().len(), 7);
}

#[test]
fn preorder_nodes() {
    let g = seven();
    let v: Vec<_> = g.as_ref().nodes(Preorder).into_iter().cloned().collect();
    assert_eq!(v, vec![1, 2, 3, 4, 5, 6, 7]);
}

#[test]
fn reverse_postorder_nodes() {
    let g = seven();
    let v: Vec<_> = g.as_ref().nodes(ReversePostorder).into_iter().cloned().collect();
    assert_eq!(v, vec![7, 6, 5, 4, 3, 2, 1]);
}
