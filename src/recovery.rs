use vstd::prelude::*;

use crate::entry::{
    body_of, decode_u32, entry_bytes, is_length, lemma_entry_layout, marker_of, read_u32,
    storable, MAX_KEY_LEN, MAX_VALUE_LEN,
};
use crate::keydir::KeyDir;

verus! {

/// The open-time scan from offset `pos`, with the index `acc` built so far: the index
/// once every complete entry is applied, and the offset where the first incomplete
/// entry starts (the end of the log if there is none).
pub open spec fn scan_from(s: Seq<u8>, pos: int, acc: Map<Seq<u8>, (u64, u32)>) -> (Map<
    Seq<u8>,
    (u64, u32),
>, int)
    decreases s.len() - pos,
{
    if pos < 0 || pos + 8 > s.len() {
        (acc, pos)
    } else {
        let vpos = pos + 8 + read_u32(s, pos) as int;
        let marker = read_u32(s, pos + 4);
        if vpos > s.len() {
            (acc, pos)
        } else if is_length(marker) {
            if vpos + marker as int > s.len() {
                (acc, pos)
            } else {
                scan_from(
                    s,
                    vpos + marker as int,
                    acc.insert(s.subrange(pos + 8, vpos), (vpos as u64, marker)),
                )
            }
        } else {
            scan_from(s, vpos, acc.remove(s.subrange(pos + 8, vpos)))
        }
    }
}

/// The index that opening a log with these bytes builds, and the length it keeps.
pub open spec fn scan_log(s: Seq<u8>) -> (Map<Seq<u8>, (u64, u32)>, int) {
    scan_from(s, 0, Map::empty())
}

/// Every location points at bytes inside the first `len` bytes.
pub open spec fn within(m: Map<Seq<u8>, (u64, u32)>, len: int) -> bool {
    forall|k: Seq<u8>| #[trigger] m.contains_key(k) ==> m[k].0 + m[k].1 <= len
}

/// Every key and value length can be written again as an entry.
pub open spec fn rewritable(m: Map<Seq<u8>, (u64, u32)>) -> bool {
    forall|k: Seq<u8>| #[trigger] m.contains_key(k) ==> k.len() <= MAX_KEY_LEN && m[k].1 <= MAX_VALUE_LEN
}

/// The value of each key, read at its location.
pub open spec fn values_at(s: Seq<u8>, m: Map<Seq<u8>, (u64, u32)>) -> Map<Seq<u8>, Seq<u8>> {
    Map::new(
        |k: Seq<u8>| m.contains_key(k),
        |k: Seq<u8>| s.subrange(m[k].0 as int, m[k].0 + m[k].1),
    )
}

/// Scanning past a clean prefix, then going on, is scanning the whole.
pub proof fn lemma_scan_extend(s: Seq<u8>, t: Seq<u8>, p: int, m: Map<Seq<u8>, (u64, u32)>)
    requires
        0 <= p <= s.len(),
        scan_from(s, p, m).1 == s.len(),
    ensures
        scan_from(s + t, p, m) == scan_from(s + t, s.len() as int, scan_from(s, p, m).0),
    decreases s.len() - p,
{
    let u = s + t;
    if p + 8 <= s.len() {
        assert(read_u32(u, p) == read_u32(s, p));
        assert(read_u32(u, p + 4) == read_u32(s, p + 4));
        let vpos = p + 8 + read_u32(s, p) as int;
        let marker = read_u32(s, p + 4);
        if vpos <= s.len() {
            assert(u.subrange(p + 8, vpos) =~= s.subrange(p + 8, vpos));
            if is_length(marker) {
                if vpos + marker as int <= s.len() {
                    lemma_scan_extend(
                        s,
                        t,
                        vpos + marker as int,
                        m.insert(s.subrange(p + 8, vpos), (vpos as u64, marker)),
                    );
                }
            } else {
                lemma_scan_extend(s, t, vpos, m.remove(s.subrange(p + 8, vpos)));
            }
        }
    }
}

/// The scan steps over one whole entry appended after offset `s.len()`.
pub proof fn lemma_scan_entry(
    s: Seq<u8>,
    key: Seq<u8>,
    value: Option<Seq<u8>>,
    m: Map<Seq<u8>, (u64, u32)>,
)
    requires
        storable(key, value),
    ensures
        ({
            let t = s + entry_bytes(key, value);
            let vpos = s.len() + 8 + key.len();
            scan_from(t, s.len() as int, m) == (match value {
                Some(v) => m.insert(key, (vpos as u64, v.len() as u32)),
                None => m.remove(key),
            }, t.len() as int)
        }),
{
    lemma_entry_layout(key, value, s);
    let t = s + entry_bytes(key, value);
    let vpos = s.len() + 8 + key.len();
    match value {
        Some(v) => {
            assert(marker_of(value) == v.len() as u32);
            let m2 = m.insert(key, (vpos as u64, v.len() as u32));
            assert(scan_from(t, t.len() as int, m2) == (m2, t.len() as int));
            assert(t.subrange(s.len() + 8int, vpos as int) == key);
        },
        None => {
            let m2 = m.remove(key);
            assert(scan_from(t, t.len() as int, m2) == (m2, t.len() as int));
            assert(t.subrange(s.len() + 8int, vpos as int) == key);
        },
    }
}

pub proof fn lemma_scan_bounds(s: Seq<u8>, p: int, m: Map<Seq<u8>, (u64, u32)>)
    requires
        0 <= p <= s.len(),
    ensures
        p <= scan_from(s, p, m).1 <= s.len(),
    decreases s.len() - p,
{
    if p + 8 <= s.len() {
        let vpos = p + 8 + read_u32(s, p) as int;
        let marker = read_u32(s, p + 4);
        if vpos <= s.len() {
            if is_length(marker) {
                if vpos + marker as int <= s.len() {
                    lemma_scan_bounds(
                        s,
                        vpos + marker as int,
                        m.insert(s.subrange(p + 8, vpos), (vpos as u64, marker)),
                    );
                }
            } else {
                lemma_scan_bounds(s, vpos, m.remove(s.subrange(p + 8, vpos)));
            }
        }
    }
}

/// Scanning only the clean part of a log gives what scanning all of it gives.
pub proof fn lemma_scan_prefix(s: Seq<u8>, p: int, m: Map<Seq<u8>, (u64, u32)>)
    requires
        0 <= p <= s.len(),
    ensures
        scan_from(s.take(scan_from(s, p, m).1), p, m) == scan_from(s, p, m),
    decreases s.len() - p,
{
    lemma_scan_bounds(s, p, m);
    let n = scan_from(s, p, m).1;
    let u = s.take(n);
    if p + 8 <= s.len() {
        let vpos = p + 8 + read_u32(s, p) as int;
        let marker = read_u32(s, p + 4);
        if vpos <= s.len() {
            if is_length(marker) {
                if vpos + marker as int <= s.len() {
                    let m2 = m.insert(s.subrange(p + 8, vpos), (vpos as u64, marker));
                    lemma_scan_prefix(s, vpos + marker as int, m2);
                    assert(read_u32(u, p) == read_u32(s, p));
                    assert(read_u32(u, p + 4) == read_u32(s, p + 4));
                    assert(u.subrange(p + 8, vpos) =~= s.subrange(p + 8, vpos));
                }
            } else {
                let m2 = m.remove(s.subrange(p + 8, vpos));
                lemma_scan_prefix(s, vpos, m2);
                assert(read_u32(u, p) == read_u32(s, p));
                assert(read_u32(u, p + 4) == read_u32(s, p + 4));
                assert(u.subrange(p + 8, vpos) =~= s.subrange(p + 8, vpos));
            }
        }
    }
}

/// Builds the index from the bytes of a log, and says how long the clean part is: the
/// bytes from the first incomplete entry on are to be cut off.
pub fn build_keydir(data: &[u8]) -> (r: (KeyDir, u64))
    ensures
        r.0.wf(),
        (r.0@, r.1 as int) == scan_log(data@),
        r.1 <= data@.len(),
        r.0.live() <= r.1,
        within(r.0@, r.1 as int),
        rewritable(r.0@),
{
    let ghost s = data@;
    let len = data.len();
    let mut keydir = KeyDir::new();
    let mut pos: usize = 0;
    proof {
        crate::keydir::lemma_live_nonneg(keydir.locs());
    }
    loop
        invariant
            len == s.len(),
            s == data@,
            pos <= len,
            keydir.wf(),
            scan_log(s) == scan_from(s, pos as int, keydir@),
            keydir.live() <= pos,
            within(keydir@, pos as int),
            rewritable(keydir@),
        ensures
            pos <= len,
            keydir.wf(),
            scan_log(s) == (keydir@, pos as int),
            keydir.live() <= pos,
            within(keydir@, pos as int),
            rewritable(keydir@),
        decreases len - pos,
    {
        if len - pos < 8 {
            break;
        }
        let key_len = decode_u32(data, pos) as usize;
        let marker = decode_u32(data, pos + 4);
        if key_len > len - pos - 8 {
            break;
        }
        let vpos = pos + 8 + key_len;
        let key = vstd::slice::slice_to_vec(slice_range(data, pos + 8, vpos));
        if marker < 0x8000_0000 {
            if marker as usize > len - vpos {
                break;
            }
            let ghost before = keydir@;
            keydir.insert(key, vpos as u64, marker);
            proof {
                assert forall|k: Seq<u8>| #[trigger] keydir@.contains_key(k) implies keydir@[k].0
                    + keydir@[k].1 <= vpos + marker by {
                    if k != key@ {
                        assert(before.contains_key(k));
                    }
                }
                assert forall|k: Seq<u8>| #[trigger] keydir@.contains_key(k) implies k.len()
                    <= MAX_KEY_LEN && keydir@[k].1 <= MAX_VALUE_LEN by {
                    if k != key@ {
                        assert(before.contains_key(k));
                    }
                }
            }
            pos = vpos + marker as usize;
        } else {
            let ghost before = keydir@;
            keydir.remove(key.as_slice());
            proof {
                assert forall|k: Seq<u8>| #[trigger] keydir@.contains_key(k) implies keydir@[k].0
                    + keydir@[k].1 <= vpos by {
                    assert(before.contains_key(k));
                }
                assert forall|k: Seq<u8>| #[trigger] keydir@.contains_key(k) implies k.len()
                    <= MAX_KEY_LEN && keydir@[k].1 <= MAX_VALUE_LEN by {
                    assert(before.contains_key(k));
                }
            }
            pos = vpos;
        }
    }
    (keydir, pos as u64)
}

/// The bytes from `start` up to `end`.
fn slice_range(data: &[u8], start: usize, end: usize) -> (r: &[u8])
    requires
        start <= end <= data@.len(),
    ensures
        r@ == data@.subrange(start as int, end as int),
{
    let r = data.split_at(end).0.split_at(start).1;
    r
}

} // verus!
