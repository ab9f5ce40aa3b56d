use bitcask::{encode_entry, BitCask, KeyBound};

/// A database together with the bytes of its log, held in memory in place of a file.
struct Store {
    file: Vec<u8>,
    db: BitCask,
}

impl Store {
    fn new() -> Store {
        Store { file: Vec::new(), db: BitCask::new() }
    }

    fn open(file: Vec<u8>) -> Store {
        let db = BitCask::recover(&file);
        let mut file = file;
        file.truncate(db.log_len() as usize);
        Store { file, db }
    }

    /// Appends an entry, returning its offset and length as the log does.
    fn write_entry(&mut self, key: &[u8], value: Option<&[u8]>) -> (u64, u64) {
        assert!(self.db.can_append(key, value));
        let pos = self.file.len() as u64;
        let bytes = encode_entry(key, value);
        self.file.extend_from_slice(&bytes);
        match value {
            Some(v) => self.db.commit_set(key, v),
            None => self.db.commit_delete(key),
        }
        (pos, bytes.len() as u64)
    }

    fn set(&mut self, key: &[u8], value: Vec<u8>) {
        self.write_entry(key, Some(&value));
    }

    fn delete(&mut self, key: &[u8]) {
        self.write_entry(key, None);
    }

    fn get(&self, key: &[u8]) -> Option<Vec<u8>> {
        self.db
            .locate(key)
            .map(|(pos, len)| self.file[pos as usize..pos as usize + len as usize].to_vec())
    }

    fn scan(&self, lo: KeyBound, hi: KeyBound) -> Vec<(Vec<u8>, Vec<u8>)> {
        self.db
            .scan(&lo, &hi)
            .into_iter()
            .map(|s| (s.key, self.file[s.pos as usize..s.pos as usize + s.len as usize].to_vec()))
            .collect()
    }

    fn scan_rev(&self, lo: KeyBound, hi: KeyBound) -> Vec<(Vec<u8>, Vec<u8>)> {
        self.db
            .scan_rev(&lo, &hi)
            .into_iter()
            .map(|s| (s.key, self.file[s.pos as usize..s.pos as usize + s.len as usize].to_vec()))
            .collect()
    }

    fn scan_all(&self) -> Vec<(Vec<u8>, Vec<u8>)> {
        self.scan(KeyBound::Unbounded, KeyBound::Unbounded)
    }

    fn compact(&mut self) {
        let values: Vec<Vec<u8>> = self
            .db
            .scan(&KeyBound::Unbounded, &KeyBound::Unbounded)
            .iter()
            .map(|s| self.file[s.pos as usize..s.pos as usize + s.len as usize].to_vec())
            .collect();
        let (db, file) = self.db.compacted(&values);
        self.db = db;
        self.file = file;
    }

    /// Opens a copy of the log, compacting it when its garbage ratio reaches the threshold.
    fn open_compact(file: Vec<u8>, threshold: f64) -> Store {
        let mut s = Store::open(file);
        let (live, total) = s.db.compute_sizes();
        let garbage = total - live;
        let ratio = garbage as f64 / total as f64;
        if garbage > 0 && ratio >= threshold {
            s.compact();
        }
        s
    }
}

fn setup_log(s: &mut Store) {
    s.set(b"b", vec![0x01]);
    s.set(b"b", vec![0x02]);

    s.set(b"e", vec![0x05]);
    s.delete(b"e");

    s.set(b"c", vec![0x00]);
    s.delete(b"c");
    s.set(b"c", vec![0x03]);

    s.set(b"", vec![]);

    s.set(b"a", vec![0x01]);

    s.delete(b"f");

    s.delete(b"d");
    s.set(b"d", vec![0x04]);

    assert_eq!(
        vec![
            (b"".to_vec(), vec![]),
            (b"a".to_vec(), vec![0x01]),
            (b"b".to_vec(), vec![0x02]),
            (b"c".to_vec(), vec![0x03]),
            (b"d".to_vec(), vec![0x04]),
        ],
        s.scan_all(),
    );
}

fn expected_s1() -> Vec<(Vec<u8>, Vec<u8>)> {
    vec![
        (b"".to_vec(), vec![]),
        (b"a".to_vec(), vec![0x01]),
        (b"b".to_vec(), vec![0x02]),
        (b"c".to_vec(), vec![0x03]),
        (b"d".to_vec(), vec![0x04]),
    ]
}

#[test]
fn log() {
    let mut s = Store::new();
    setup_log(&mut s);
    let mut expect: Vec<u8> = Vec::new();
    let put = |e: &mut Vec<u8>, k: &[u8], v: &[u8]| {
        e.extend_from_slice(&(k.len() as u32).to_be_bytes());
        e.extend_from_slice(&(v.len() as i32).to_be_bytes());
        e.extend_from_slice(k);
        e.extend_from_slice(v);
    };
    let del = |e: &mut Vec<u8>, k: &[u8]| {
        e.extend_from_slice(&(k.len() as u32).to_be_bytes());
        e.extend_from_slice(&(-1i32).to_be_bytes());
        e.extend_from_slice(k);
    };
    put(&mut expect, b"b", &[0x01]);
    put(&mut expect, b"b", &[0x02]);
    put(&mut expect, b"e", &[0x05]);
    del(&mut expect, b"e");
    put(&mut expect, b"c", &[0x00]);
    del(&mut expect, b"c");
    put(&mut expect, b"c", &[0x03]);
    put(&mut expect, b"", &[]);
    put(&mut expect, b"a", &[0x01]);
    del(&mut expect, b"f");
    del(&mut expect, b"d");
    put(&mut expect, b"d", &[0x04]);
    assert_eq!(expect, s.file);
    assert_eq!(s.db.log_len(), s.file.len() as u64);
}

#[test]
fn reopen() {
    let mut s = Store::new();
    setup_log(&mut s);

    let expect = s.scan_all();
    let s = Store::open(s.file.clone());
    assert_eq!(expect, s.scan_all());
}

#[test]
fn compact() {
    let mut s = Store::new();
    setup_log(&mut s);

    let expect = s.scan_all();

    s.compact();
    assert_eq!(expect, s.scan_all());
    assert_eq!(s.file.len(), 48);

    let s = Store::open(s.file.clone());
    assert_eq!(expect, s.scan_all());
}

#[test]
fn new_compact() {
    let mut s = Store::open_compact(Vec::new(), 0.2);
    setup_log(&mut s);
    let (live_bytes, total_bytes) = s.db.compute_sizes();
    let garbage_ratio = (total_bytes - live_bytes) as f64 / total_bytes as f64;
    let orig = s.file.clone();

    let cases = vec![
        (-1.0, true),
        (0.0, true),
        (garbage_ratio - 0.001, true),
        (garbage_ratio, true),
        (garbage_ratio + 0.001, false),
        (1.0, false),
        (2.0, false),
    ];
    for (threshold, expect_compact) in cases.into_iter() {
        let s = Store::open_compact(orig.clone(), threshold);
        let (new_live, new_total) = s.db.compute_sizes();
        assert_eq!(new_live, live_bytes);
        if expect_compact {
            assert_eq!(new_total, live_bytes);
        } else {
            assert_eq!(new_total, total_bytes);
        }
        assert_eq!(expected_s1(), s.scan_all());
    }
}

#[test]
fn recovery() {
    let mut log = Store::new();
    let mut ends = vec![];

    let (pos, len) = log.write_entry("deleted".as_bytes(), Some(&[1, 2, 3]));
    ends.push(pos + len);

    let (pos, len) = log.write_entry("deleted".as_bytes(), None);
    ends.push(pos + len);

    let (pos, len) = log.write_entry(&[], Some(&[]));
    ends.push(pos + len);

    let (pos, len) = log.write_entry("key".as_bytes(), Some(&[1, 2, 3, 4, 5]));
    ends.push(pos + len);

    let size = log.file.len() as u64;
    for pos in 0..=size {
        let truncated = log.file[..pos as usize].to_vec();

        let mut expect = vec![];
        if pos >= ends[0] {
            expect.push((b"deleted".to_vec(), vec![1, 2, 3]))
        }
        if pos >= ends[1] {
            expect.pop();
        }
        if pos >= ends[2] {
            expect.push((b"".to_vec(), vec![]))
        }
        if pos >= ends[3] {
            expect.push((b"key".to_vec(), vec![1, 2, 3, 4, 5]))
        }

        let s = Store::open(truncated);
        assert_eq!(expect, s.scan_all());
        let kept = ends.iter().filter(|e| **e <= pos).max().copied().unwrap_or(0);
        assert_eq!(s.db.log_len(), kept);
    }
}

#[test]
fn compute_sizes() {
    let mut s = Store::new();
    setup_log(&mut s);

    let (live_size, total_size) = s.db.compute_sizes();
    assert_eq!(total_size, s.file.len() as u64);
    assert!(live_size < total_size);

    s.compact();
    assert_eq!((live_size, live_size), s.db.compute_sizes());
}
