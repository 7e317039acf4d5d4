use lmtht::model::{is_pbst, range};
use lmtht::storage::Storage;
use lmtht::{MemStorage, Node, Value, LMTHT};

fn filled(count: u32) -> LMTHT<MemStorage> {
    let mut db = LMTHT::new(MemStorage::new()).unwrap();
    for i in 0..count {
        db.append(&i.to_le_bytes()).unwrap();
    }
    db
}

#[test]
fn empty_tree_has_no_root() {
    let db = LMTHT::new(MemStorage::new()).unwrap();
    assert_eq!(0, db.n());
    assert_eq!(None, db.root());
    assert_eq!(None, db.root_hash());
    assert_eq!(0, db.height());
    let query = db.query().unwrap();
    assert_eq!(0, query.n());
    assert_eq!(None, query.get(1).unwrap());
    assert_eq!(None, query.get(0).unwrap());
    assert!(query.get_values_with_hashes(1, 0).unwrap().is_none());
    assert_eq!(vec![0x01u8, 0xF3, 0x33, 0x01], *db.storage().buffer());
}

#[test]
fn first_value_is_the_root() {
    let mut db = LMTHT::new(MemStorage::new()).unwrap();
    let first = "first".as_bytes();
    let root = db.append(first).unwrap();
    assert_eq!(1, root.i);
    assert_eq!(0, root.j);
    assert_eq!(lmtht::hash::Hash::hash(first), root.hash);
    assert_eq!(Some(lmtht::hash::Hash::hash(first)), db.root_hash());
    assert_eq!(Some(root), db.root());
    assert_eq!(1, db.n());
    let query = db.query().unwrap();
    assert_eq!(Some(first.to_vec()), query.get(1).unwrap());
    assert_eq!(None, query.get(2).unwrap());
    let values = query.get_values_with_hashes(1, 0).unwrap().unwrap();
    assert_eq!(1, values.values.len());
    assert_eq!(0, values.branches.len());
    assert_eq!(root, values.root());
    assert!(query.get_values_with_hashes(1, 1).unwrap().is_none());
}

#[test]
fn second_of_three_values_with_branches() {
    let mut db = LMTHT::new(MemStorage::new()).unwrap();
    let first = "first".as_bytes();
    let second = "second".as_bytes();
    let third = "third".as_bytes();
    db.append(first).unwrap();
    db.append(second).unwrap();
    let root = db.append(third).unwrap();
    assert_eq!(3, root.i);
    assert_eq!(2, root.j);
    let query = db.query().unwrap();
    let values = query.get_values_with_hashes(2, 0).unwrap().unwrap();
    assert_eq!(1, values.values.len());
    assert_eq!(Value::new(2, second.to_vec()), values.values[0]);
    assert_eq!(2, values.branches.len());
    assert_eq!(Node::new(3, 0, lmtht::hash::Hash::hash(third)), values.branches[0]);
    assert_eq!(Node::new(1, 0, lmtht::hash::Hash::hash(first)), values.branches[1]);
    assert_eq!(Node::new(3, 2, root.hash), values.root());
    let same = query.get_with_hashes(2).unwrap().unwrap();
    assert_eq!(values.values, same.values);
    assert_eq!(values.branches, same.branches);
}

#[test]
fn subtree_of_two_of_three_values() {
    let mut db = LMTHT::new(MemStorage::new()).unwrap();
    let first = "first".as_bytes();
    let second = "second".as_bytes();
    let third = "third".as_bytes();
    db.append(first).unwrap();
    db.append(second).unwrap();
    let root = db.append(third).unwrap();
    let query = db.query().unwrap();
    let values = query.get_values_with_hashes(2, 1).unwrap().unwrap();
    assert_eq!(2, values.values.len());
    assert_eq!(Value::new(1, first.to_vec()), values.values[0]);
    assert_eq!(Value::new(2, second.to_vec()), values.values[1]);
    assert_eq!(Node::new(3, 2, root.hash), values.root());
    let expected = lmtht::hash::Hash::hash(first).combine(&lmtht::hash::Hash::hash(second)).combine(&lmtht::hash::Hash::hash(third));
    assert_eq!(expected, root.hash);
}

#[test]
fn perfect_subtree_of_a_hundred_values() {
    let db = filled(100);
    let root_hash = db.root_hash().unwrap();
    let query = db.query().unwrap();
    let values = query.get_values_with_hashes(40, 3).unwrap().unwrap();
    assert!(is_pbst(40, 3));
    assert_eq!(1 << 3, values.values.len());
    assert_eq!(33, *range(40, 3).start());
    assert_eq!(40, *range(40, 3).end());
    assert_eq!(*range(40, 3).start(), values.values[0].i);
    assert_eq!(*range(40, 3).end(), values.values[(1 << 3) - 1].i);
    for (k, value) in values.values.iter().enumerate() {
        assert_eq!(32u32 + k as u32, u32::from_le_bytes(value.value.clone().try_into().unwrap()));
    }
    assert_eq!(root_hash, values.root().hash);
}

#[test]
fn truncated_storage_opens_as_the_earlier_tree() {
    let mut db = LMTHT::new(MemStorage::new()).unwrap();
    let mut end_of_fiftieth = 0usize;
    let mut root_of_fiftieth = None;
    for i in 0u32..100 {
        let root = db.append(&i.to_le_bytes()).unwrap();
        if i == 49 {
            end_of_fiftieth = db.storage().length().unwrap() as usize;
            root_of_fiftieth = Some(root);
        }
    }
    let mut bytes = db.storage().buffer().clone();
    bytes.truncate(end_of_fiftieth);
    let reopened = LMTHT::new(MemStorage::with(bytes)).unwrap();
    assert_eq!(50, reopened.n());
    assert_eq!(root_of_fiftieth, reopened.root());
    let query = reopened.query().unwrap();
    for k in 1u64..=50 {
        assert_eq!(Some(((k - 1) as u32).to_le_bytes().to_vec()), query.get(k).unwrap());
    }
    assert_eq!(None, query.get(51).unwrap());
}
