use bitcask::{encode_entry, BitCask, KeyBound};

fn set(file: &mut Vec<u8>, db: &mut BitCask, key: &[u8], value: &[u8]) {
    assert!(db.can_append(key, Some(value)));
    file.extend_from_slice(&encode_entry(key, Some(value)));
    db.commit_set(key, value);
}

fn delete(file: &mut Vec<u8>, db: &mut BitCask, key: &[u8]) {
    assert!(db.can_append(key, None));
    file.extend_from_slice(&encode_entry(key, None));
    db.commit_delete(key);
}

fn get(file: &[u8], db: &BitCask, key: &[u8]) -> Option<Vec<u8>> {
    db.locate(key).map(|(p, l)| file[p as usize..p as usize + l as usize].to_vec())
}

fn keys(db: &BitCask, lo: KeyBound, hi: KeyBound) -> Vec<Vec<u8>> {
    db.scan(&lo, &hi).into_iter().map(|s| s.key).collect()
}

fn keys_rev(db: &BitCask, lo: KeyBound, hi: KeyBound) -> Vec<Vec<u8>> {
    db.scan_rev(&lo, &hi).into_iter().map(|s| s.key).collect()
}

#[test]
fn overwrite_keeps_latest_value() {
    let (mut f, mut db) = (Vec::new(), BitCask::new());
    set(&mut f, &mut db, b"b", &[0x01]);
    set(&mut f, &mut db, b"b", &[0x02]);
    assert_eq!(get(&f, &db, b"b"), Some(vec![0x02]));
}

#[test]
fn set_then_delete_is_absent() {
    let (mut f, mut db) = (Vec::new(), BitCask::new());
    set(&mut f, &mut db, b"e", &[0x05]);
    delete(&mut f, &mut db, b"e");
    assert_eq!(get(&f, &db, b"e"), None);
    assert_eq!(db.compute_sizes(), (0, 19));
}

#[test]
fn set_delete_set_keeps_last() {
    let (mut f, mut db) = (Vec::new(), BitCask::new());
    set(&mut f, &mut db, b"c", &[0x00]);
    delete(&mut f, &mut db, b"c");
    set(&mut f, &mut db, b"c", &[0x03]);
    assert_eq!(get(&f, &db, b"c"), Some(vec![0x03]));
}

#[test]
fn empty_key_and_value() {
    let (mut f, mut db) = (Vec::new(), BitCask::new());
    set(&mut f, &mut db, b"", &[]);
    assert_eq!(get(&f, &db, b""), Some(vec![]));
    assert_eq!(f, vec![0, 0, 0, 0, 0, 0, 0, 0]);
    let db2 = BitCask::recover(&f);
    assert_eq!(get(&f, &db2, b""), Some(vec![]));
    assert_eq!(keys(&db2, KeyBound::Unbounded, KeyBound::Unbounded), vec![Vec::<u8>::new()]);
}

#[test]
fn single_set() {
    let (mut f, mut db) = (Vec::new(), BitCask::new());
    set(&mut f, &mut db, b"a", &[0x01]);
    assert_eq!(get(&f, &db, b"a"), Some(vec![0x01]));
    assert_eq!(f, vec![0, 0, 0, 1, 0, 0, 0, 1, b'a', 0x01]);
    assert_eq!(db.locate(b"a"), Some((9, 1)));
}

#[test]
fn delete_absent_appends_tombstone() {
    let (mut f, mut db) = (Vec::new(), BitCask::new());
    delete(&mut f, &mut db, b"f");
    assert_eq!(get(&f, &db, b"f"), None);
    assert_eq!(f, vec![0, 0, 0, 1, 0xff, 0xff, 0xff, 0xff, b'f']);
    assert_eq!(db.log_len(), 9);
}

#[test]
fn delete_then_set() {
    let (mut f, mut db) = (Vec::new(), BitCask::new());
    delete(&mut f, &mut db, b"d");
    set(&mut f, &mut db, b"d", &[0x04]);
    assert_eq!(get(&f, &db, b"d"), Some(vec![0x04]));
}

#[test]
fn encode_entry_layout() {
    assert_eq!(
        encode_entry(b"key", Some(&[9, 8])),
        vec![0, 0, 0, 3, 0, 0, 0, 2, b'k', b'e', b'y', 9, 8]
    );
    assert_eq!(encode_entry(b"", None), vec![0, 0, 0, 0, 0xff, 0xff, 0xff, 0xff]);
}

#[test]
fn scan_bounds_and_reverse() {
    let (mut f, mut db) = (Vec::new(), BitCask::new());
    for k in [b"d".as_slice(), b"a", b"c", b"b", b"ab", b"", b"\xff"] {
        set(&mut f, &mut db, k, k);
    }
    let all: Vec<Vec<u8>> =
        vec![b"".to_vec(), b"a".to_vec(), b"ab".to_vec(), b"b".to_vec(), b"c".to_vec(), b"d".to_vec(), b"\xff".to_vec()];
    assert_eq!(keys(&db, KeyBound::Unbounded, KeyBound::Unbounded), all);
    let mut rev = all.clone();
    rev.reverse();
    assert_eq!(keys_rev(&db, KeyBound::Unbounded, KeyBound::Unbounded), rev);
    assert_eq!(
        keys(&db, KeyBound::Included(b"a".to_vec()), KeyBound::Excluded(b"c".to_vec())),
        vec![b"a".to_vec(), b"ab".to_vec(), b"b".to_vec()]
    );
    assert_eq!(
        keys(&db, KeyBound::Excluded(b"a".to_vec()), KeyBound::Included(b"c".to_vec())),
        vec![b"ab".to_vec(), b"b".to_vec(), b"c".to_vec()]
    );
    assert_eq!(
        keys_rev(&db, KeyBound::Excluded(b"a".to_vec()), KeyBound::Included(b"c".to_vec())),
        vec![b"c".to_vec(), b"b".to_vec(), b"ab".to_vec()]
    );
    assert_eq!(keys(&db, KeyBound::Included(b"x".to_vec()), KeyBound::Unbounded), vec![b"\xff".to_vec()]);
    assert!(keys(&db, KeyBound::Included(b"c".to_vec()), KeyBound::Excluded(b"c".to_vec())).is_empty());
    for s in db.scan(&KeyBound::Unbounded, &KeyBound::Unbounded) {
        assert_eq!(f[s.pos as usize..s.pos as usize + s.len as usize].to_vec(), s.key);
    }
}

#[test]
fn compaction_twice_keeps_length() {
    let (mut f, mut db) = (Vec::new(), BitCask::new());
    set(&mut f, &mut db, b"x", &[1, 2]);
    set(&mut f, &mut db, b"x", &[3]);
    delete(&mut f, &mut db, b"y");
    set(&mut f, &mut db, b"w", &[]);
    let read = |db: &BitCask, f: &[u8]| -> Vec<Vec<u8>> {
        db.scan(&KeyBound::Unbounded, &KeyBound::Unbounded)
            .iter()
            .map(|s| f[s.pos as usize..s.pos as usize + s.len as usize].to_vec())
            .collect()
    };
    let (db1, f1) = db.compacted(&read(&db, &f));
    assert_eq!(db1.compute_sizes(), (19, 19));
    assert_eq!(f1, vec![0, 0, 0, 1, 0, 0, 0, 0, b'w', 0, 0, 0, 1, 0, 0, 0, 1, b'x', 3]);
    let (db2, f2) = db1.compacted(&read(&db1, &f1));
    assert_eq!(f2, f1);
    assert_eq!(db2.log_len(), db1.log_len());
    assert_eq!(get(&f2, &db2, b"x"), Some(vec![3]));
    assert_eq!(get(&f2, &db2, b"w"), Some(vec![]));
    assert_eq!(get(&f2, &db2, b"y"), None);
}

#[test]
fn recovery_of_garbage_tail() {
    let (mut f, mut db) = (Vec::new(), BitCask::new());
    set(&mut f, &mut db, b"k", &[7]);
    let clean = f.len();
    f.extend_from_slice(&[0, 0, 0, 200, 0, 0, 0, 1, 1, 2]);
    let db2 = BitCask::recover(&f);
    assert_eq!(db2.log_len(), clean as u64);
    assert_eq!(get(&f, &db2, b"k"), Some(vec![7]));
}
