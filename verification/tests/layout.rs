use highway::HighwayHash;
use lmtht::checksum::{checksum, CHECKSUM_HW64_KEY};
use lmtht::entry::{
    body_length, encode_entry, is_version_compatible, read_entry, read_entry_without_check,
    read_entry_without_check_to_end, read_inodes, write_entry, Address, ENode, Entry, INode,
    MetaInfo, MAX_PAYLOAD_SIZE, STORAGE_IDENTIFIER, STORAGE_VERSION,
};
use lmtht::error::Detail;
use lmtht::hash::hex;
use lmtht::storage::Storage;
use lmtht::wire::{get_u32, get_u64, put, put_u32, put_u64};
use lmtht::{MemStorage, LMTHT};

fn digest(data: &[u8]) -> lmtht::hash::Hash {
    lmtht::hash::Hash::hash(data)
}

fn sample(position: u64) -> Entry {
    let meta = MetaInfo::new(Address::new(3, 0, position), digest(b"third"));
    let enode = ENode { meta, payload: b"third".to_vec() };
    let inode = INode::new(
        MetaInfo::new(Address::new(3, 2, position), digest(b"root")),
        Address::new(2, 1, 61),
        Address::new(3, 0, position),
    );
    Entry { enode, inodes: vec![inode] }
}

#[test]
fn sha256_of_known_input() {
    assert_eq!(
        "BA7816BF8F01CFEA414140DE5DAE2223B00361A396177A9CB410FF61F20015AD",
        digest(b"abc").to_str()
    );
    assert_eq!(
        "E3B0C44298FC1C149AFBF4C8996FB92427AE41E4649B934CA495991B7852B855",
        digest(b"").to_str()
    );
    assert_eq!(32, lmtht::HASH_SIZE);
}

#[test]
fn combine_hashes_the_two_values_in_order() {
    let a = digest(b"a");
    let b = digest(b"b");
    let mut joined = a.value.to_vec();
    joined.extend_from_slice(&b.value);
    assert_eq!(digest(&joined), a.combine(&b));
    assert_ne!(a.combine(&b), b.combine(&a));
    assert_eq!(a, lmtht::hash::Hash::new(a.value));
}

#[test]
fn hex_is_upper_case_and_two_digits_a_byte() {
    assert_eq!("", hex(&[]));
    assert_eq!("00", hex(&[0]));
    assert_eq!("0A1FFF80", hex(&[0x0a, 0x1f, 0xff, 0x80]));
    assert_eq!("0123456789ABCDEF", hex(&[0x01, 0x23, 0x45, 0x67, 0x89, 0xab, 0xcd, 0xef]));
}

#[test]
fn checksum_is_the_keyed_highway_hash() {
    let data = b"some bytes of an entry";
    let expected = highway::HighwayHasher::new(highway::Key(CHECKSUM_HW64_KEY)).hash64(data);
    assert_eq!(expected, checksum(data));
    assert_ne!(checksum(b"a"), checksum(b"b"));
    let other = highway::HighwayHasher::new(highway::Key([1, 2, 3, 4])).hash64(data);
    assert_ne!(other, checksum(data));
}

#[test]
fn integers_are_little_endian() {
    let mut out = vec![0xEEu8];
    put_u64(&mut out, 0x0102030405060708);
    put_u32(&mut out, 0x0A0B0C0D);
    put(&mut out, &[1, 2]);
    assert_eq!(vec![0xEE, 8, 7, 6, 5, 4, 3, 2, 1, 0x0D, 0x0C, 0x0B, 0x0A, 1, 2], out);
    assert_eq!(0x0102030405060708, get_u64(&out, 1));
    assert_eq!(0x0A0B0C0D, get_u32(&out, 9));
    assert_eq!(0x0D01020304050607, get_u64(&out, 2));
}

#[test]
fn constants_of_the_layout() {
    assert_eq!([0x01, 0xF3, 0x33], STORAGE_IDENTIFIER);
    assert_eq!(1, STORAGE_VERSION);
    assert_eq!(0x7FFF_FFFF, MAX_PAYLOAD_SIZE);
    assert!(is_version_compatible(0));
    assert!(is_version_compatible(1));
    assert!(!is_version_compatible(2));
}

#[test]
fn bytes_of_an_entry_field_by_field() {
    let entry = sample(100);
    let bytes = encode_entry(&entry);
    let mut expected = Vec::new();
    expected.extend_from_slice(&3u64.to_le_bytes());
    expected.push(1);
    expected.push(1); // j - 1
    expected.extend_from_slice(&61u64.to_le_bytes());
    expected.extend_from_slice(&2u64.to_le_bytes());
    expected.push(1);
    expected.extend_from_slice(&digest(b"root").value);
    expected.extend_from_slice(&5u32.to_le_bytes());
    expected.extend_from_slice(b"third");
    expected.extend_from_slice(&digest(b"third").value);
    let body = expected.len() as u32;
    assert_eq!(9 + 50 + 4 + 5 + 32, body);
    assert_eq!(body as u64, body_length(&entry));
    expected.extend_from_slice(&body.to_le_bytes());
    let sum = checksum(&expected);
    expected.extend_from_slice(&sum.to_le_bytes());
    assert_eq!(expected, bytes);
}

#[test]
fn an_entry_is_read_back_as_it_was_written() {
    let mut storage = MemStorage::with(vec![0xAA; 7]);
    let entry = sample(7);
    let written = write_entry(&mut storage, &entry).unwrap();
    assert_eq!(7 + written as u64, storage.length().unwrap());
    assert_eq!(entry, read_entry(&storage, 7, 3).unwrap());
    assert_eq!(entry, read_entry(&storage, 7, 0).unwrap());
    assert_eq!(entry, read_entry_without_check(&storage, 7, 3).unwrap());
    let (same, next) = read_entry_without_check_to_end(&storage, 7, 3).unwrap();
    assert_eq!(entry, same);
    assert_eq!(storage.length().unwrap(), next);
    let (i, inodes) = read_inodes(&storage, 7).unwrap();
    assert_eq!(3, i);
    assert_eq!(entry.inodes, inodes);
}

#[test]
fn reserved_bits_are_masked_on_read() {
    let entry = sample(0);
    let mut bytes = encode_entry(&entry);
    bytes[9] |= 0xC0; // the two high bits of j - 1
    bytes[9 + 50 + 3] |= 0x80; // the high bit of the length of the payload
    let storage = MemStorage::with(bytes);
    assert_eq!(entry, read_entry_without_check(&storage, 0, 3).unwrap());
}

#[test]
fn another_index_than_expected_is_an_incorrect_boundary() {
    let storage = MemStorage::with(encode_entry(&sample(0)));
    assert_eq!(
        Err(Detail::IncorrectNodeBoundary { at: 0 }),
        read_entry_without_check(&storage, 0, 4)
    );
    assert_eq!(Err(Detail::IncorrectNodeBoundary { at: 0 }), read_entry(&storage, 0, 2));
}

#[test]
fn a_storage_that_ends_early_is_damaged() {
    let bytes = encode_entry(&sample(0));
    let total = bytes.len();
    let cut = |n: usize| MemStorage::with(bytes[..n].to_vec());
    assert_eq!(Err(Detail::DamagedStorage { at: 0 }), read_inodes(&cut(8), 0));
    assert_eq!(Err(Detail::DamagedStorage { at: 9 }), read_inodes(&cut(58), 0));
    assert_eq!(Err(Detail::DamagedStorage { at: 59 }), read_entry_without_check(&cut(62), 0, 3));
    assert_eq!(Err(Detail::DamagedStorage { at: 63 }), read_entry_without_check(&cut(99), 0, 3));
    assert!(read_entry_without_check(&cut(100), 0, 3).is_ok());
    assert_eq!(Err(Detail::DamagedStorage { at: 100 }), read_entry(&cut(103), 0, 3));
    assert_eq!(Err(Detail::DamagedStorage { at: 104 }), read_entry(&cut(total - 1), 0, 3));
    assert_eq!(Err(Detail::DamagedStorage { at: 5 }), read_inodes(&cut(4), 5));
}

#[test]
fn a_wrong_length_in_the_trailer_is_reported() {
    let mut bytes = encode_entry(&sample(0));
    bytes[100] = 99;
    let storage = MemStorage::with(bytes);
    assert_eq!(
        Err(Detail::IncorrectEntryHeadOffset { expected: 99, actual: 100 }),
        read_entry(&storage, 0, 3)
    );
}

#[test]
fn a_changed_byte_fails_the_checksum() {
    let good = encode_entry(&sample(0));
    let stored = u64::from_le_bytes(good[104..112].try_into().unwrap());
    for at in [0usize, 8 + 2, 20, 64, 70, 104, 111] {
        let mut bytes = good.clone();
        bytes[at] ^= 0x01;
        if at == 0 {
            // The index of the entry: read without an expected index.
        }
        let storage = MemStorage::with(bytes.clone());
        let actual = checksum(&bytes[..104]);
        let expected = u64::from_le_bytes(bytes[104..112].try_into().unwrap());
        assert_eq!(
            Err(Detail::ChecksumVerificationFailed { at: 0, length: 112, expected, actual }),
            read_entry(&storage, 0, 0),
            "byte {}",
            at
        );
        if at < 104 {
            assert_eq!(stored, expected);
        }
    }
}

#[test]
fn opening_checks_the_header() {
    let opened = |bytes: Vec<u8>| LMTHT::new(MemStorage::with(bytes)).map(|db| db.n());
    assert_eq!(Ok(0), opened(vec![]));
    assert_eq!(Ok(0), opened(vec![0x01, 0xF3, 0x33, 0x01]));
    assert_eq!(Ok(0), opened(vec![0x01, 0xF3, 0x33, 0x00]));
    assert_eq!(Err(Detail::FileIsNotContentsOfLMTHTree), opened(vec![0x01]));
    assert_eq!(Err(Detail::FileIsNotContentsOfLMTHTree), opened(vec![0x01, 0xF3, 0x33]));
    assert_eq!(Err(Detail::FileIsNotContentsOfLMTHTree), opened(vec![0x01, 0xF3, 0x34, 0x01]));
    assert_eq!(Err(Detail::FileIsNotContentsOfLMTHTree), opened(vec![0x00, 0xF3, 0x33, 0x01, 0]));
    assert_eq!(Err(Detail::IncompatibleVersion(0, 2)), opened(vec![0x01, 0xF3, 0x33, 0x02]));
    assert_eq!(Err(Detail::IncompatibleVersion(0x0A, 0x0B)), opened(vec![0x01, 0xF3, 0x33, 0xAB]));
}

#[test]
fn opening_checks_the_last_entry() {
    let mut db = LMTHT::new(MemStorage::new()).unwrap();
    db.append(b"first").unwrap();
    db.append(b"second").unwrap();
    let good = db.storage().buffer().clone();
    let opened = |bytes: Vec<u8>| LMTHT::new(MemStorage::with(bytes)).map(|db| db.n());
    assert_eq!(Ok(2), opened(good.clone()));
    // Too short to hold a trailer.
    assert_eq!(Err(Detail::DamagedStorage { at: 15 }), opened(good[..15].to_vec()));
    // A trailer that points to before the header.
    let mut bytes = good[..20].to_vec();
    bytes[8..12].copy_from_slice(&5u32.to_le_bytes());
    assert_eq!(Err(Detail::DamagedStorage { at: 8 }), opened(bytes));
    // Bytes behind the last entry.
    let mut bytes = good.clone();
    bytes.push(0);
    assert!(opened(bytes).is_err());
    // A changed payload.
    let mut bytes = good.clone();
    let at = bytes.len() - 12 - 32 - 1;
    bytes[at] ^= 0xFF;
    assert!(matches!(opened(bytes), Err(Detail::ChecksumVerificationFailed { .. })));
    // A changed checksum.
    let mut bytes = good.clone();
    let at = bytes.len() - 1;
    bytes[at] ^= 0xFF;
    assert!(matches!(opened(bytes), Err(Detail::ChecksumVerificationFailed { .. })));
}

#[test]
fn storage_after_the_first_append() {
    let mut db = LMTHT::new(MemStorage::new()).unwrap();
    db.append(b"first").unwrap();
    let mut expected = vec![0x01, 0xF3, 0x33, 0x01];
    expected.extend_from_slice(&1u64.to_le_bytes());
    expected.push(0);
    expected.extend_from_slice(&5u32.to_le_bytes());
    expected.extend_from_slice(b"first");
    expected.extend_from_slice(&digest(b"first").value);
    expected.extend_from_slice(&50u32.to_le_bytes());
    let sum = checksum(&expected[4..]);
    expected.extend_from_slice(&sum.to_le_bytes());
    assert_eq!(expected, *db.storage().buffer());
    assert_eq!(66, db.storage().length().unwrap());
}

#[test]
fn too_large_a_payload_is_refused() {
    let mut db = LMTHT::new(MemStorage::new()).unwrap();
    let value = vec![0u8; MAX_PAYLOAD_SIZE + 1];
    assert_eq!(Err(Detail::TooLargePayload { size: MAX_PAYLOAD_SIZE + 1 }), db.append(&value));
    assert_eq!(0, db.n());
    assert_eq!(4, db.storage().length().unwrap());
}

#[test]
fn a_missing_inode_is_an_inconsistency() {
    let mut db = LMTHT::new(MemStorage::new()).unwrap();
    db.append(b"first").unwrap();
    let second_at = db.storage().length().unwrap() as usize;
    db.append(b"second").unwrap();
    db.append(b"third").unwrap();
    let mut bytes = db.storage().buffer().clone();
    // The height of the inode of the second entry becomes 6.
    bytes[second_at + 9] = 5;
    let broken = LMTHT::new(MemStorage::with(bytes)).unwrap();
    let query = broken.query().unwrap();
    assert_eq!(
        Err(Detail::InternalStateInconsistency { i: 2, j: 1 }),
        query.get_values_with_hashes(1, 0).map(|found| found.is_some())
    );
    assert_eq!(
        Err(Detail::InternalStateInconsistency { i: 2, j: 1 }),
        query.get(1)
    );
    assert_eq!(Ok(Some(b"third".to_vec())), query.get(3));
}

#[test]
fn a_changed_payload_of_an_inner_entry_fails_the_get() {
    let mut db = LMTHT::new(MemStorage::new()).unwrap();
    let mut starts = vec![];
    for k in 1u8..=5 {
        starts.push(db.storage().length().unwrap() as usize);
        db.append(&[k, k, k, k]).unwrap();
    }
    starts.push(db.storage().length().unwrap() as usize);
    let good = db.storage().buffer().clone();
    for k in 1usize..=4 {
        let start = starts[k - 1];
        let end = starts[k];
        // The first byte of the payload of entry k: behind the hash, the trailer and the
        // payload itself, counted from the end of the entry.
        let at = end - 12 - 32 - 4;
        let mut bytes = good.clone();
        assert_eq!(k as u8, bytes[at]);
        bytes[at] ^= 0x40;
        let expected = u64::from_le_bytes(bytes[end - 8..end].try_into().unwrap());
        let actual = checksum(&bytes[start..end - 8]);
        assert_ne!(expected, actual);
        let failure = Detail::ChecksumVerificationFailed {
            at: start as u64,
            length: (end - start) as u64,
            expected,
            actual,
        };
        let changed = LMTHT::new(MemStorage::with(bytes)).unwrap();
        assert_eq!(5, changed.n());
        let query = changed.query().unwrap();
        assert_eq!(Err(failure.clone()), query.get(k as u64));
        assert_eq!(
            Err(failure.clone()),
            query.get_with_hashes(k as u64).map(|found| found.is_some())
        );
        assert_eq!(
            Err(failure.clone()),
            query.get_values_with_hashes(4, 2).map(|found| found.is_some())
        );
        // The other entries are read as before.
        for other in 1u64..=5 {
            if other != k as u64 {
                assert_eq!(Ok(Some(vec![other as u8; 4])), query.get(other));
            }
        }
    }
}

#[test]
fn a_changed_hash_of_an_inner_leaf_fails_the_get() {
    let mut db = LMTHT::new(MemStorage::new()).unwrap();
    db.append(b"first").unwrap();
    let end_of_first = db.storage().length().unwrap() as usize;
    db.append(b"second").unwrap();
    db.append(b"third").unwrap();
    let mut bytes = db.storage().buffer().clone();
    bytes[end_of_first - 12 - 1] ^= 0x01;
    let changed = LMTHT::new(MemStorage::with(bytes)).unwrap();
    let query = changed.query().unwrap();
    assert!(matches!(query.get(1), Err(Detail::ChecksumVerificationFailed { at: 4, .. })));
    assert_eq!(Ok(Some(b"second".to_vec())), query.get(2));
    assert_eq!(Ok(Some(b"third".to_vec())), query.get(3));
}
