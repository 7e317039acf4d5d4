use lmtht::proto::{Intermediate, Leaf};

#[test]
fn intermediate_fields() {
    let mut m = Intermediate::new();
    assert_eq!(0, m.get_left_node());
    assert_eq!(0, m.get_right_node());
    assert!(m.get_hash().is_empty());
    m.set_left_node(7);
    m.set_right_node(9);
    m.set_hash(vec![1, 2, 3]);
    assert_eq!(7, m.get_left_node());
    assert_eq!(9, m.get_right_node());
    assert_eq!(&[1u8, 2, 3][..], m.get_hash());
    m.mut_hash().push(4);
    assert_eq!(&[1u8, 2, 3, 4][..], m.get_hash());
    assert_eq!(vec![1u8, 2, 3, 4], m.take_hash());
    assert!(m.get_hash().is_empty());
    assert_eq!(7, m.get_left_node());
    m.clear_left_node();
    assert_eq!(0, m.get_left_node());
    assert_eq!(9, m.get_right_node());
    m.clear_right_node();
    assert_eq!(0, m.get_right_node());
    m.set_hash(vec![5]);
    m.clear_hash();
    assert!(m.get_hash().is_empty());
    assert!(m == Intermediate::new());
}

#[test]
fn leaf_fields() {
    let mut m = Leaf::new();
    assert!(m.get_payload().is_empty());
    assert!(m.get_hash().is_empty());
    m.set_payload(vec![1, 2]);
    m.set_hash(vec![3]);
    assert_eq!(&[1u8, 2][..], m.get_payload());
    assert_eq!(&[3u8][..], m.get_hash());
    m.mut_payload().push(9);
    m.mut_hash().clear();
    assert_eq!(vec![1u8, 2, 9], m.take_payload());
    assert!(m.get_payload().is_empty());
    assert!(m.take_hash().is_empty());
    m.set_payload(vec![1]);
    m.set_hash(vec![2]);
    m.clear_payload();
    assert_eq!(&[2u8][..], m.get_hash());
    m.clear_hash();
    assert!(m == Leaf::new());
}
