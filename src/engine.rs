use vstd::prelude::*;

use crate::entry::{
    encode_entry, entry_bytes, lemma_entry_layout, storable, MAX_KEY_LEN, MAX_VALUE_LEN,
};
use crate::keydir::{
    entry_size, in_range, lemma_lex_irreflexive, lemma_live_concat, lemma_live_nonneg,
    lemma_loc_map_at, live_of, loc_index, loc_map, sorted, KeyBound, KeyDir, Loc, Slot,
};
use crate::recovery::{
    build_keydir, lemma_scan_entry, lemma_scan_extend, lemma_scan_prefix, rewritable, scan_log,
    values_at, within,
};

verus! {

/// The bytes a compacted log holds: one entry per listed key, in the listed order.
pub open spec fn image_of(locs: Seq<Loc>, values: Seq<Seq<u8>>) -> Seq<u8>
    decreases locs.len(),
{
    if locs.len() == 0 || values.len() < locs.len() {
        Seq::empty()
    } else {
        image_of(locs.drop_last(), values) + entry_bytes(
            locs.last().0,
            Some(values[locs.len() - 1]),
        )
    }
}

/// `next` holds what `prev` holds with the garbage left out: the same keys and live
/// size, and a log no longer than the live size.
pub open spec fn compaction_of(prev: BitCask, next: BitCask) -> bool {
    &&& next.wf()
    &&& next.index().dom() == prev.index().dom()
    &&& next.live() == prev.live()
    &&& next.log().len() == next.live()
}

/// The in-memory half of a BitCask database: the index of the log, and the log's length.
/// The bytes of the log live in a file that the caller reads and appends to; `log()` is
/// what they are.
pub struct BitCask {
    keydir: KeyDir,
    log_len: u64,
    log: Ghost<Seq<u8>>,
}

impl BitCask {
    /// The bytes of the log file.
    pub closed spec fn log(&self) -> Seq<u8> {
        self.log@
    }

    /// Each live key with the offset and length of its latest value in the log.
    pub closed spec fn index(&self) -> Map<Seq<u8>, (u64, u32)> {
        self.keydir@
    }

    /// The index as a list in ascending key order.
    pub closed spec fn locations(&self) -> Seq<Loc> {
        self.keydir.locs()
    }

    /// Sum over the live keys of the size of their entry, were it written once.
    pub closed spec fn live(&self) -> int {
        self.keydir.live()
    }

    /// The stored pairs: each live key with the bytes at its value's location.
    pub open spec fn view(&self) -> Map<Seq<u8>, Seq<u8>> {
        values_at(self.log(), self.index())
    }

    pub closed spec fn consistent(&self) -> bool {
        &&& self.keydir.wf()
        &&& self.log@.len() == self.log_len
    }

    pub open spec fn wf(&self) -> bool {
        &&& self.consistent()
        &&& sorted(self.locations())
        &&& loc_map(self.locations()) == self.index()
        &&& self.live() == live_of(self.locations())
        &&& scan_log(self.log()) == (self.index(), self.log().len() as int)
        &&& self.live() <= self.log().len() <= u64::MAX
        &&& within(self.index(), self.log().len() as int)
        &&& rewritable(self.index())
    }

    /// An entry for this key and value can be appended: the lengths fit the format and
    /// the log stays within u64.
    pub open spec fn appendable(&self, key: Seq<u8>, value: Option<Seq<u8>>) -> bool {
        storable(key, value) && self.log().len() + entry_bytes(key, value).len() <= u64::MAX
    }

    /// An empty database.
    pub fn new() -> (r: BitCask)
        ensures
            r.wf(),
            r.log() == Seq::<u8>::empty(),
            r.index() == Map::<Seq<u8>, (u64, u32)>::empty(),
            r.live() == 0,
    {
        let keydir = KeyDir::new();
        let r = BitCask { keydir, log_len: 0, log: Ghost(Seq::empty()) };
        assert(r.view() =~= Map::<Seq<u8>, Seq<u8>>::empty());
        r
    }

    /// Opens a database from the bytes of its log file. The log keeps its longest clean
    /// prefix; what follows it is an incomplete entry, which the caller cuts off the file.
    pub fn recover(data: &[u8]) -> (r: BitCask)
        ensures
            r.wf(),
            r.log() == data@.take(scan_log(data@).1),
            r.index() == scan_log(data@).0,
    {
        let (keydir, end) = build_keydir(data);
        proof {
            lemma_scan_prefix(data@, 0, Map::empty());
        }
        BitCask { keydir, log_len: end, log: Ghost(data@.take(end as int)) }
    }

    /// Length of the log in bytes.
    pub fn log_len(&self) -> (r: u64)
        requires
            self.wf(),
        ensures
            r == self.log().len(),
    {
        self.log_len
    }

    /// Whether an entry for this key and value (`None`: a tombstone) can be appended.
    pub fn can_append(&self, key: &[u8], value: Option<&[u8]>) -> (r: bool)
        requires
            self.wf(),
        ensures
            r == self.appendable(key@, crate::entry::value_view(value)),
    {
        let v: usize = match value {
            Some(v) => v.len(),
            None => 0,
        };
        let ok = key.len() <= MAX_KEY_LEN && match value {
            Some(v) => v.len() <= MAX_VALUE_LEN,
            None => true,
        };
        if !ok {
            return false;
        }
        proof {
            lemma_entry_layout(key@, crate::entry::value_view(value), Seq::empty());
            assert(Seq::<u8>::empty() + entry_bytes(key@, crate::entry::value_view(value))
                =~= entry_bytes(key@, crate::entry::value_view(value)));
        }
        let size: u64 = 8 + key.len() as u64 + v as u64;
        self.log_len <= u64::MAX - size
    }

    /// Records a value that the caller has appended to the log file as
    /// `encode_entry(key, Some(value))`.
    pub fn commit_set(&mut self, key: &[u8], value: &[u8])
        requires
            old(self).wf(),
            old(self).appendable(key@, Some(value@)),
        ensures
            final(self).wf(),
            final(self).log() == old(self).log() + entry_bytes(key@, Some(value@)),
            final(self).index() == old(self).index().insert(
                key@,
                ((old(self).log().len() + 8 + key@.len()) as u64, value@.len() as u32),
            ),
            final(self)@ == old(self)@.insert(key@, value@),
            final(self).live() == old(self).live() + entry_size(key@.len() as int, value@.len() as int)
                - (if old(self).index().contains_key(key@) {
                entry_size(key@.len() as int, old(self).index()[key@].1 as int)
            } else {
                0
            }),
    {
        let ghost s = self.log@;
        let ghost e = entry_bytes(key@, Some(value@));
        let ghost t = s + e;
        let ghost before = self.keydir@;
        proof {
            lemma_entry_layout(key@, Some(value@), s);
            lemma_scan_extend(s, e, 0, Map::empty());
            lemma_scan_entry(s, key@, Some(value@), before);
        }
        let vpos: u64 = self.log_len + 8 + key.len() as u64;
        let ghost old_live = self.keydir.live();
        self.keydir.insert(vstd::slice::slice_to_vec(key), vpos, value.len() as u32);
        self.log_len = vpos + value.len() as u64;
        self.log = Ghost(t);
        proof {
            if before.contains_key(key@) {
                assert(entry_size(key@.len() as int, before[key@].1 as int) >= 0);
            }
            assert forall|k: Seq<u8>| #[trigger] self.keydir@.contains_key(k) implies self.keydir@[k].0
                + self.keydir@[k].1 <= t.len() && k.len() <= MAX_KEY_LEN && self.keydir@[k].1
                <= MAX_VALUE_LEN by {
                if k != key@ {
                    assert(before.contains_key(k));
                }
            }
            assert forall|k: Seq<u8>| #[trigger] self@.contains_key(k) implies self@[k] == old(self)@.insert(key@, value@)[k] by {
                if k != key@ {
                    assert(before.contains_key(k));
                    assert(t.subrange(before[k].0 as int, before[k].0 + before[k].1) =~= s.subrange(
                        before[k].0 as int,
                        before[k].0 + before[k].1,
                    ));
                }
            }
            assert(self@ =~= old(self)@.insert(key@, value@));
        }
    }

    /// Records a tombstone that the caller has appended to the log file as
    /// `encode_entry(key, None)`.
    pub fn commit_delete(&mut self, key: &[u8])
        requires
            old(self).wf(),
            old(self).appendable(key@, None),
        ensures
            final(self).wf(),
            final(self).log() == old(self).log() + entry_bytes(key@, None),
            final(self).index() == old(self).index().remove(key@),
            final(self)@ == old(self)@.remove(key@),
            final(self).live() == old(self).live() - (if old(self).index().contains_key(key@) {
                entry_size(key@.len() as int, old(self).index()[key@].1 as int)
            } else {
                0
            }),
    {
        let ghost s = self.log@;
        let ghost e = entry_bytes(key@, None);
        let ghost t = s + e;
        let ghost before = self.keydir@;
        proof {
            lemma_entry_layout(key@, None, s);
            lemma_scan_extend(s, e, 0, Map::empty());
            lemma_scan_entry(s, key@, None, before);
        }
        self.keydir.remove(key);
        self.log_len = self.log_len + 8 + key.len() as u64;
        self.log = Ghost(t);
        proof {
            assert forall|k: Seq<u8>| #[trigger] self.keydir@.contains_key(k) implies self.keydir@[k].0
                + self.keydir@[k].1 <= t.len() && k.len() <= MAX_KEY_LEN && self.keydir@[k].1
                <= MAX_VALUE_LEN by {
                assert(before.contains_key(k));
            }
            assert forall|k: Seq<u8>| #[trigger] self@.contains_key(k) implies self@[k] == old(self)@.remove(key@)[k] by {
                assert(before.contains_key(k));
                assert(t.subrange(before[k].0 as int, before[k].0 + before[k].1) =~= s.subrange(
                    before[k].0 as int,
                    before[k].0 + before[k].1,
                ));
            }
            assert(self@ =~= old(self)@.remove(key@));
        }
    }

    /// Where the value of `key` lies in the log, if the key is live.
    pub fn locate(&self, key: &[u8]) -> (r: Option<(u64, u32)>)
        requires
            self.wf(),
        ensures
            r is Some <==> self@.contains_key(key@),
            r matches Some((pos, len)) ==> pos + len <= self.log().len() && self.log().subrange(
                pos as int,
                pos + len,
            ) == self@[key@] && self.index()[key@] == (pos, len),
    {
        self.keydir.get(key)
    }

    /// Live and total size: the sum of the live keys' entry sizes, and the log's length.
    pub fn compute_sizes(&self) -> (r: (u64, u64))
        requires
            self.wf(),
        ensures
            r == (self.live() as u64, self.log().len() as u64),
    {
        (self.keydir.live_size(), self.log_len)
    }

    /// The keys within the range with their value locations, in ascending key order.
    pub fn scan(&self, lo: &KeyBound, hi: &KeyBound) -> (r: Vec<Slot>)
        requires
            self.wf(),
        ensures
            r@.map_values(|s: Slot| s.loc()) == self.locations().filter(
                |l: Loc| in_range(l.0, *lo, *hi),
            ),
    {
        self.keydir.range(lo, hi)
    }

    /// The keys within the range with their value locations, in descending key order.
    pub fn scan_rev(&self, lo: &KeyBound, hi: &KeyBound) -> (r: Vec<Slot>)
        requires
            self.wf(),
        ensures
            r@.map_values(|s: Slot| s.loc()) == self.locations().filter(
                |l: Loc| in_range(l.0, *lo, *hi),
            ).reverse(),
    {
        let mut fwd = self.keydir.range(lo, hi);
        let ghost all = fwd@.map_values(|s: Slot| s.loc());
        let mut out: Vec<Slot> = Vec::new();
        while fwd.len() > 0
            invariant
                all == fwd@.map_values(|s: Slot| s.loc()) + out@.map_values(|s: Slot| s.loc()).reverse(),
            decreases fwd.len(),
        {
            let ghost f0 = fwd@;
            let ghost o0 = out@;
            let x = fwd.pop().unwrap();
            out.push(x);
            assert(f0 =~= fwd@.push(x));
            assert(out@.map_values(|s: Slot| s.loc()).reverse() =~= seq![x.loc()] + o0.map_values(|s: Slot| s.loc()).reverse());
            assert(all =~= fwd@.map_values(|s: Slot| s.loc()) + out@.map_values(|s: Slot| s.loc()).reverse());
        }
        assert(all =~= out@.map_values(|s: Slot| s.loc()).reverse());
        assert(out@.map_values(|s: Slot| s.loc()) =~= all.reverse());
        out
    }

    /// A compacted copy: a new log holding one entry per live key, in ascending key
    /// order, with `values[i]` as the value of the i-th key; and the new log's bytes.
    #[verifier::rlimit(50)]
    pub fn compacted(&self, values: &Vec<Vec<u8>>) -> (r: (BitCask, Vec<u8>))
        requires
            self.wf(),
            values@.len() == self.locations().len(),
            forall|i: int| 0 <= i < values@.len() ==> #[trigger] values@[i]@.len() == self.locations()[i].2,
        ensures
            r.0.wf(),
            compaction_of(*self, r.0),
            r.1@ == r.0.log(),
            r.0.log() == image_of(self.locations(), values@.map_values(|v: Vec<u8>| v@)),
            r.0.log().len() == r.0.live(),
            r.0.live() == self.live(),
            r.0.index().dom() == self.index().dom(),
            forall|i: int| 0 <= i < values@.len() ==> r.0@[#[trigger] self.locations()[i].0] == values@[i]@,
            (forall|i: int| 0 <= i < values@.len() ==> #[trigger] values@[i]@ == self@[self.locations()[i].0])
                ==> r.0@ == self@,
    {
        let ghost locs = self.locations();
        let ghost vals = values@.map_values(|v: Vec<u8>| v@);
        let slots = self.keydir.entries();
        let mut next = BitCask::new();
        let mut out: Vec<u8> = Vec::new();
        let mut i: usize = 0;
        proof {
            assert(locs.take(0) =~= Seq::<Loc>::empty());
            lemma_live_nonneg(locs);
        }
        while i < self.keydir.len()
            invariant
                self.wf(),
                locs == self.locations(),
                slots@.map_values(|s: Slot| s.loc()) == locs,
                vals == values@.map_values(|v: Vec<u8>| v@),
                values@.len() == locs.len(),
                forall|j: int| 0 <= j < values@.len() ==> #[trigger] values@[j]@.len() == locs[j].2,
                i <= locs.len(),
                next.wf(),
                next.log() == out@,
                out@ == image_of(locs.take(i as int), vals),
                next.live() == live_of(locs.take(i as int)),
                next.log().len() == next.live(),
                forall|k: Seq<u8>| #[trigger] next.index().contains_key(k) <==> exists|j: int| 0 <= j < i && locs[j].0 == k,
                forall|j: int| 0 <= j < i ==> next@[#[trigger] locs[j].0] == vals[j],
            decreases locs.len() - i,
        {
            let key = slots[i].key.as_slice();
            let value = values[i].as_slice();
            proof {
                assert(slots@[i as int].loc() == locs[i as int]);
                lemma_loc_map_at(locs, i as int);
                assert(self.index().contains_key(locs[i as int].0));
                assert(locs.take(i + 1).drop_last() =~= locs.take(i as int));
                assert(locs =~= locs.take(i + 1) + locs.skip(i + 1));
                lemma_live_concat(locs.take(i + 1), locs.skip(i + 1));
                lemma_live_nonneg(locs.skip(i + 1));
                lemma_entry_layout(key@, Some(value@), next.log());
                if next.index().contains_key(key@) {
                    let j = choose|j: int| 0 <= j < i && locs[j].0 == key@;
                    assert(crate::keydir::lex_lt(locs[j].0, locs[i as int].0));
                    lemma_lex_irreflexive(key@);
                }
                assert(vals[i as int] == value@);
                assert(image_of(locs.take(i + 1), vals) =~= image_of(locs.take(i as int), vals) + entry_bytes(key@, Some(value@)));
            }
            let bytes = encode_entry(key, Some(value));
            let ghost prev = next@;
            next.commit_set(key, value);
            let ghost o0 = out@;
            crate::entry::push_all(&mut out, &bytes);
            proof {
                assert forall|k: Seq<u8>| #[trigger] next.index().contains_key(k) <==> exists|j: int| 0 <= j < i + 1 && locs[j].0 == k by {
                    if k == key@ {
                        assert(locs[i as int].0 == k);
                    }
                }
                assert forall|j: int| 0 <= j < i + 1 implies next@[#[trigger] locs[j].0] == vals[j] by {
                    if j < i {
                        if locs[j].0 == key@ {
                            assert(crate::keydir::lex_lt(locs[j].0, locs[i as int].0));
                            lemma_lex_irreflexive(key@);
                        }
                        assert(prev.contains_key(locs[j].0));
                    }
                }
            }
            i += 1;
        }
        proof {
            assert(locs.take(locs.len() as int) =~= locs);
            assert forall|k: Seq<u8>| #[trigger] next.index().contains_key(k) <==> self.index().contains_key(k) by {
                if self.index().contains_key(k) {
                    let j = loc_index(locs, k);
                    assert(locs[j].0 == k);
                }
                if next.index().contains_key(k) {
                    let j = choose|j: int| 0 <= j < locs.len() && locs[j].0 == k;
                    lemma_loc_map_at(locs, j);
                }
            }
            assert(next.index().dom() =~= self.index().dom());
            if forall|j: int| 0 <= j < values@.len() ==> #[trigger] values@[j]@ == self@[self.locations()[j].0] {
                assert forall|k: Seq<u8>| #[trigger] next@.contains_key(k) implies next@[k] == self@[k] by {
                    let j = loc_index(locs, k);
                    assert(self.index().contains_key(k));
                    assert(locs[j].0 == k);
                    assert(values@[j]@ == self@[locs[j].0]);
                }
                assert(next@ =~= self@);
            }
        }
        (next, out)
    }
}

} // verus!
