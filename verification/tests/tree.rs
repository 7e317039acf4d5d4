use lmtht::model::{first_leaf, is_pbst, NthGenHashTree};
use lmtht::storage::Storage;
use lmtht::{MemStorage, Node, Value, ValuesWithBranches, LMTHT};

fn digest(data: &[u8]) -> lmtht::hash::Hash {
    lmtht::hash::Hash::hash(data)
}

fn value(k: u64) -> Vec<u8> {
    format!("value {}", k).into_bytes()
}

fn filled(count: u64) -> LMTHT<MemStorage> {
    let mut db = LMTHT::new(MemStorage::new()).unwrap();
    for k in 1..=count {
        let root = db.append(&value(k)).unwrap();
        assert_eq!(k, root.i);
    }
    db
}

#[test]
fn every_value_is_found_and_no_other() {
    for n in [1u64, 2, 3, 4, 5, 7, 8, 9, 31, 32, 33] {
        let db = filled(n);
        assert_eq!(n, db.n());
        let query = db.query().unwrap();
        assert_eq!(n, query.n());
        assert_eq!(None, query.get(0).unwrap());
        for k in 1..=n {
            assert_eq!(Some(value(k)), query.get(k).unwrap());
        }
        assert_eq!(None, query.get(n + 1).unwrap());
        assert_eq!(None, query.get(u64::MAX).unwrap());
    }
}

#[test]
fn the_root_is_as_high_as_the_generation() {
    let mut db = LMTHT::new(MemStorage::new()).unwrap();
    for k in 1u64..=40 {
        let root = db.append(&value(k)).unwrap();
        assert_eq!(NthGenHashTree::new(k).root().j, root.j);
        assert_eq!(root.j, db.height());
        assert_eq!(Some(root), db.root());
        assert_eq!(Some(root.hash), db.root_hash());
    }
}

#[test]
fn root_hash_of_seven_values_by_hand() {
    let db = filled(7);
    let h = |k: u64| digest(&value(k));
    let b21 = h(1).combine(&h(2));
    let b41 = h(3).combine(&h(4));
    let b42 = b21.combine(&b41);
    let b61 = h(5).combine(&h(6));
    let b72 = b61.combine(&h(7));
    let b73 = b42.combine(&b72);
    assert_eq!(Some(Node::new(7, 3, b73)), db.root());
}

#[test]
fn every_node_proves_the_root() {
    for n in [1u64, 2, 3, 6, 7, 8, 21, 64, 100] {
        let db = filled(n);
        let root = db.root().unwrap();
        let shape = NthGenHashTree::new(n);
        let query = db.query().unwrap();
        for i in 1..=n {
            for j in 0..=db.height() + 1 {
                let found = query.get_values_with_hashes(i, j).unwrap();
                assert_eq!(shape.path_to(i, j).is_some(), found.is_some());
                if let Some(found) = found {
                    assert_eq!(root, found.root());
                    let first = first_leaf(i, j);
                    assert_eq!((i - first + 1) as usize, found.values.len());
                    assert_eq!(first, found.values[0].i);
                    assert_eq!(i, found.values[found.values.len() - 1].i);
                    if is_pbst(i, j) {
                        assert_eq!(1usize << j, found.values.len());
                    } else {
                        assert!(found.values.len() < (1usize << j));
                    }
                    for (k, v) in found.values.iter().enumerate() {
                        assert_eq!(Value::new(first + k as u64, value(first + k as u64)), *v);
                        assert_eq!(digest(&v.value), v.hash());
                        assert_eq!(Node::new(v.i, 0, digest(&v.value)), v.to_node());
                    }
                    assert_eq!(shape.path_to(i, j).unwrap().steps.len(), found.branches.len());
                }
            }
        }
    }
}

#[test]
fn the_last_value_proves_the_root() {
    for n in 1u64..=20 {
        let db = filled(n);
        let query = db.query().unwrap();
        let found = query.get_values_with_hashes(n, 0).unwrap().unwrap();
        assert_eq!(db.root_hash(), Some(found.root().hash));
    }
}

#[test]
fn out_of_range_indices_give_nothing() {
    let db = filled(5);
    let query = db.query().unwrap();
    assert!(query.get_values_with_hashes(0, 0).unwrap().is_none());
    assert!(query.get_values_with_hashes(6, 0).unwrap().is_none());
    assert!(query.get_values_with_hashes(3, 1).unwrap().is_none());
    assert!(query.get_with_hashes(0).unwrap().is_none());
    assert!(query.get_with_hashes(6).unwrap().is_none());
    assert!(query.get_with_hashes(5).unwrap().is_some());
}

#[test]
fn folding_by_hand() {
    let leaf = |k: u64| Value::new(k, value(k));
    let node = |k: u64| leaf(k).to_node();
    let three = ValuesWithBranches::new(vec![leaf(1), leaf(2), leaf(3)], vec![]);
    assert_eq!(node(1).parent(&node(2)).parent(&node(3)), three.root());
    assert_eq!(2, three.root().j);
    let five = ValuesWithBranches::new((1..=5).map(leaf).collect(), vec![]);
    let b42 = node(1).parent(&node(2)).parent(&node(3).parent(&node(4)));
    assert_eq!(b42.parent(&node(5)), five.root());
    assert_eq!(Node::new(5, 3, b42.hash.combine(&node(5).hash)), five.root());
    // A branch with a greater index goes to the right, one with a smaller to the left.
    let with_right = ValuesWithBranches::new(vec![leaf(1)], vec![node(2)]);
    assert_eq!(node(1).parent(&node(2)), with_right.root());
    let with_left = ValuesWithBranches::new(vec![leaf(2)], vec![node(1)]);
    assert_eq!(node(1).parent(&node(2)), with_left.root());
    // The last branch is joined first.
    let b21 = node(1).parent(&node(2));
    let deep = ValuesWithBranches::new(vec![leaf(3)], vec![b21, node(4)]);
    assert_eq!(b21.parent(&node(3).parent(&node(4))), deep.root());
}

#[test]
fn parent_takes_the_index_of_the_right_and_is_one_higher_than_the_left() {
    let left = Node::new(4, 2, digest(b"l"));
    let right = Node::new(6, 1, digest(b"r"));
    assert_eq!(Node::new(6, 3, digest(b"l").combine(&digest(b"r"))), left.parent(&right));
}

#[test]
fn the_same_values_give_the_same_bytes() {
    let one = filled(37);
    let two = filled(37);
    assert_eq!(one.storage().buffer(), two.storage().buffer());
    assert_eq!(one.root(), two.root());
    let mut other = LMTHT::new(MemStorage::new()).unwrap();
    for k in 1..=37u64 {
        other.append(&value(if k == 20 { 99 } else { k })).unwrap();
    }
    assert_ne!(one.storage().buffer(), other.storage().buffer());
    assert_ne!(one.root_hash(), other.root_hash());
}

#[test]
fn reopening_gives_the_same_tree() {
    let db = filled(23);
    let reopened = LMTHT::new(MemStorage::with(db.storage().buffer().clone())).unwrap();
    assert_eq!(db.n(), reopened.n());
    assert_eq!(db.root(), reopened.root());
    assert_eq!(db.height(), reopened.height());
    let mut reopened = reopened;
    let mut db = db;
    assert_eq!(db.append(b"more").unwrap(), reopened.append(b"more").unwrap());
    assert_eq!(db.storage().buffer(), reopened.storage().buffer());
    assert_eq!(Some(b"more".to_vec()), reopened.query().unwrap().get(24).unwrap());
}

#[test]
fn cutting_behind_any_entry_gives_the_tree_of_then() {
    let mut db = LMTHT::new(MemStorage::new()).unwrap();
    let mut ends = vec![];
    let mut roots = vec![];
    for k in 1..=20u64 {
        roots.push(db.append(&value(k)).unwrap());
        ends.push(db.storage().length().unwrap() as usize);
    }
    let bytes = db.storage().buffer().clone();
    for k in 1..=20usize {
        let cut = LMTHT::new(MemStorage::with(bytes[..ends[k - 1]].to_vec())).unwrap();
        assert_eq!(k as u64, cut.n());
        assert_eq!(Some(roots[k - 1]), cut.root());
        let query = cut.query().unwrap();
        assert_eq!(Some(value(k as u64)), query.get(k as u64).unwrap());
        assert_eq!(None, query.get(k as u64 + 1).unwrap());
    }
    // A cut inside an entry is no tree.
    assert!(LMTHT::new(MemStorage::with(bytes[..ends[9] - 1].to_vec())).is_err());
}

#[test]
fn empty_values_are_values() {
    let mut db = LMTHT::new(MemStorage::new()).unwrap();
    db.append(b"").unwrap();
    db.append(b"").unwrap();
    let root = db.append(b"x").unwrap();
    let query = db.query().unwrap();
    assert_eq!(Some(vec![]), query.get(1).unwrap());
    assert_eq!(Some(vec![]), query.get(2).unwrap());
    assert_eq!(root, query.get_values_with_hashes(2, 1).unwrap().unwrap().root());
}

#[test]
fn the_root_is_counted_by_the_number_of_values() {
    let mut db = LMTHT::new(MemStorage::new()).unwrap();
    for k in 1u64..=33 {
        let before = db.n();
        let node = db.append(&value(k)).unwrap();
        assert_eq!(before + 1, db.n());
        assert_eq!(db.n(), node.i);
        assert_eq!(Some(node), db.root());
        assert_eq!(db.n(), db.root().unwrap().i);
        assert_eq!(db.n(), db.query().unwrap().n());
    }
}
