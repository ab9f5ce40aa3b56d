use vstd::prelude::*;

use crate::engine::{compaction_of, BitCask};
use crate::entry::{entry_bytes, lemma_entry_layout, read_u32, storable};
use crate::keydir::{in_range, lemma_loc_map_at, lex_lt, loc_map, sorted, KeyBound, Loc};
use crate::recovery::{
    lemma_scan_entry, lemma_scan_extend, scan_from, scan_log, values_at, within,
};

verus! {

/// A write: a key with the value it is set to, or `None` for a delete.
pub type Write = (Seq<u8>, Option<Seq<u8>>);

/// The log that a sequence of writes appends, starting from an empty file.
pub open spec fn log_of(ops: Seq<Write>) -> Seq<u8>
    decreases ops.len(),
{
    if ops.len() == 0 {
        Seq::empty()
    } else {
        log_of(ops.drop_last()) + entry_bytes(ops.last().0, ops.last().1)
    }
}

/// The stored pairs after a sequence of writes: each key with its latest value, unless
/// a delete came after it.
pub open spec fn apply_writes(ops: Seq<Write>) -> Map<Seq<u8>, Seq<u8>>
    decreases ops.len(),
{
    if ops.len() == 0 {
        Map::empty()
    } else {
        let m = apply_writes(ops.drop_last());
        match ops.last().1 {
            Some(v) => m.insert(ops.last().0, v),
            None => m.remove(ops.last().0),
        }
    }
}

pub open spec fn all_storable(ops: Seq<Write>) -> bool {
    forall|i: int| 0 <= i < ops.len() ==> storable(#[trigger] ops[i].0, ops[i].1)
}

/// How many of the writes lie wholly within the first `m` bytes of their log.
pub open spec fn complete_prefix(ops: Seq<Write>, m: int) -> int
    decreases ops.len(),
{
    if log_of(ops).len() <= m || ops.len() == 0 {
        ops.len() as int
    } else {
        complete_prefix(ops.drop_last(), m)
    }
}

proof fn lemma_append_values(
    s: Seq<u8>,
    key: Seq<u8>,
    value: Option<Seq<u8>>,
    idx: Map<Seq<u8>, (u64, u32)>,
)
    requires
        storable(key, value),
        within(idx, s.len() as int),
        (s + entry_bytes(key, value)).len() <= u64::MAX,
    ensures
        ({
            let t = s + entry_bytes(key, value);
            let next = match value {
                Some(v) => idx.insert(key, ((s.len() + 8 + key.len()) as u64, v.len() as u32)),
                None => idx.remove(key),
            };
            &&& within(next, t.len() as int)
            &&& values_at(t, next) == match value {
                Some(v) => values_at(s, idx).insert(key, v),
                None => values_at(s, idx).remove(key),
            }
        }),
{
    lemma_entry_layout(key, value, s);
    let t = s + entry_bytes(key, value);
    let next = match value {
        Some(v) => idx.insert(key, ((s.len() + 8 + key.len()) as u64, v.len() as u32)),
        None => idx.remove(key),
    };
    let want = match value {
        Some(v) => values_at(s, idx).insert(key, v),
        None => values_at(s, idx).remove(key),
    };
    assert forall|k: Seq<u8>| #[trigger] next.contains_key(k) implies next[k].0 + next[k].1
        <= t.len() by {
        if k != key {
            assert(idx.contains_key(k));
        }
    }
    assert forall|k: Seq<u8>| #[trigger] values_at(t, next).contains_key(k) implies values_at(
        t,
        next,
    )[k] == want[k] by {
        if k != key {
            assert(idx.contains_key(k));
            assert(t.subrange(idx[k].0 as int, idx[k].0 + idx[k].1) =~= s.subrange(
                idx[k].0 as int,
                idx[k].0 + idx[k].1,
            ));
        }
    }
    assert(values_at(t, next).dom() =~= want.dom());
    assert(values_at(t, next) =~= want);
}

/// Replaying a log written from empty gives back every write: the whole log is clean,
/// and the stored pairs are those the writes leave.
pub proof fn lemma_replay(ops: Seq<Write>)
    requires
        all_storable(ops),
        log_of(ops).len() <= u64::MAX,
    ensures
        scan_log(log_of(ops)).1 == log_of(ops).len(),
        within(scan_log(log_of(ops)).0, log_of(ops).len() as int),
        values_at(log_of(ops), scan_log(log_of(ops)).0) == apply_writes(ops),
    decreases ops.len(),
{
    if ops.len() == 0 {
        assert(values_at(Seq::empty(), Map::empty()) =~= Map::<Seq<u8>, Seq<u8>>::empty());
    } else {
        let p = ops.drop_last();
        let (key, value) = ops.last();
        assert(storable(ops[ops.len() - 1].0, ops[ops.len() - 1].1));
        let s = log_of(p);
        let e = entry_bytes(key, value);
        assert(all_storable(p)) by {
            assert forall|i: int| 0 <= i < p.len() implies storable(#[trigger] p[i].0, p[i].1) by {
                assert(p[i] == ops[i]);
            }
        }
        lemma_replay(p);
        lemma_scan_extend(s, e, 0, Map::empty());
        lemma_scan_entry(s, key, value, scan_log(s).0);
        lemma_append_values(s, key, value, scan_log(s).0);
    }
}

proof fn lemma_scan_stops(
    s: Seq<u8>,
    key: Seq<u8>,
    value: Option<Seq<u8>>,
    m: int,
    acc: Map<Seq<u8>, (u64, u32)>,
)
    requires
        storable(key, value),
        s.len() <= m < (s + entry_bytes(key, value)).len(),
    ensures
        scan_from((s + entry_bytes(key, value)).take(m), s.len() as int, acc) == (acc, s.len() as int),
{
    lemma_entry_layout(key, value, s);
    let u = s + entry_bytes(key, value);
    let t = u.take(m);
    let p = s.len() as int;
    if p + 8 <= m {
        assert(read_u32(t, p) == read_u32(u, p));
        assert(read_u32(t, p + 4) == read_u32(u, p + 4));
    }
}

/// Torn-tail recovery: opening the log of a sequence of writes, cut to any length `m`,
/// keeps exactly the writes that lie wholly within the first `m` bytes.
pub proof fn lemma_torn_tail(ops: Seq<Write>, m: int)
    requires
        all_storable(ops),
        log_of(ops).len() <= u64::MAX,
        0 <= m <= log_of(ops).len(),
    ensures
        0 <= complete_prefix(ops, m) <= ops.len(),
        log_of(ops.take(complete_prefix(ops, m))).len() <= m,
        complete_prefix(ops, m) < ops.len() ==> log_of(ops.take(complete_prefix(ops, m) + 1)).len() > m,
        scan_log(log_of(ops).take(m)).1 == log_of(ops.take(complete_prefix(ops, m))).len(),
        values_at(
            log_of(ops).take(m).take(scan_log(log_of(ops).take(m)).1),
            scan_log(log_of(ops).take(m)).0,
        ) == apply_writes(ops.take(complete_prefix(ops, m))),
    decreases ops.len(),
{
    let full = log_of(ops);
    if full.len() <= m || ops.len() == 0 {
        assert(ops.take(ops.len() as int) =~= ops);
        assert(full.take(m) =~= full);
        assert(full.take(full.len() as int) =~= full);
        lemma_replay(ops);
    } else {
        let p = ops.drop_last();
        let (key, value) = ops.last();
        assert(storable(ops[ops.len() - 1].0, ops[ops.len() - 1].1));
        let s = log_of(p);
        let e = entry_bytes(key, value);
        assert(all_storable(p)) by {
            assert forall|i: int| 0 <= i < p.len() implies storable(#[trigger] p[i].0, p[i].1) by {
                assert(p[i] == ops[i]);
            }
        }
        assert(ops.take(ops.len() - 1) =~= p);
        if m <= s.len() {
            lemma_torn_tail(p, m);
            let n = complete_prefix(p, m);
            assert(full.take(m) =~= s.take(m));
            assert(p.take(n) =~= ops.take(n));
            if n < p.len() {
                assert(p.take(n + 1) =~= ops.take(n + 1));
            } else {
                assert(ops.take(n + 1) =~= ops);
            }
        } else {
            lemma_replay(p);
            assert(complete_prefix(p, m) == p.len());
            assert(ops.take(p.len() + 1int) =~= ops);
            let t = full.take(m);
            assert(t =~= s + e.take(m - s.len()));
            lemma_scan_extend(s, e.take(m - s.len()), 0, Map::empty());
            lemma_scan_stops(s, key, value, m, scan_log(s).0);
            assert(t.take(s.len() as int) =~= s);
        }
    }
}

proof fn lemma_filter_sorted(s: Seq<Loc>, f: spec_fn(Loc) -> bool)
    requires
        sorted(s),
    ensures
        sorted(s.filter(f)),
    decreases s.len(),
{
    reveal_with_fuel(Seq::<_>::filter, 1);
    if s.len() > 0 {
        let d = s.drop_last();
        assert(sorted(d)) by {
            assert forall|i: int, j: int| 0 <= i < j < d.len() implies lex_lt(#[trigger] d[i].0, #[trigger] d[j].0) by {
                assert(d[i] == s[i] && d[j] == s[j]);
            }
        }
        lemma_filter_sorted(d, f);
        let r = d.filter(f);
        if f(s.last()) {
            assert forall|i: int, j: int| 0 <= i < j < r.len() + 1 implies lex_lt(#[trigger] r.push(s.last())[i].0, #[trigger] r.push(s.last())[j].0) by {
                if j == r.len() {
                    assert(r.contains(r[i]));
                    d.lemma_filter_contains_rev(f, r[i]);
                    let a = choose|a: int| 0 <= a < d.len() && d[a] == r[i];
                    assert(s[a] == r[i]);
                    assert(lex_lt(s[a].0, s[s.len() - 1].0));
                } else {
                    assert(r.push(s.last())[i] == r[i]);
                    assert(r.push(s.last())[j] == r[j]);
                }
            }
        }
    }
}

/// Whatever sequence of writes produced a database's log, the database holds each key's
/// latest written value, and no key whose latest write is a delete.
pub proof fn lemma_state_of_writes(e: BitCask, ops: Seq<Write>)
    requires
        e.wf(),
        e.log() == log_of(ops),
        all_storable(ops),
    ensures
        e@ == apply_writes(ops),
{
    lemma_replay(ops);
}

/// A scan yields exactly the stored keys within the range, each once, in ascending
/// order, each with the location of its value; its reverse yields them in descending
/// order.
pub proof fn lemma_scan_exact(e: BitCask, lo: KeyBound, hi: KeyBound)
    requires
        e.wf(),
    ensures
        ({
            let r = e.locations().filter(|l: Loc| in_range(l.0, lo, hi));
            &&& sorted(r)
            &&& forall|i: int, j: int| 0 <= i < j < r.len() ==> lex_lt(#[trigger] r.reverse()[j].0, #[trigger] r.reverse()[i].0)
            &&& forall|k: Seq<u8>| #[trigger] loc_map(r).contains_key(k) <==> (e@.contains_key(k) && in_range(k, lo, hi))
            &&& forall|i: int| 0 <= i < r.len() ==> e.index()[#[trigger] r[i].0] == (r[i].1, r[i].2)
        }),
{
    let s = e.locations();
    let f = |l: Loc| in_range(l.0, lo, hi);
    let r = s.filter(f);
    lemma_filter_sorted(s, f);
    assert forall|i: int, j: int| 0 <= i < j < r.len() implies lex_lt(#[trigger] r.reverse()[j].0, #[trigger] r.reverse()[i].0) by {
        assert(r.reverse()[j] == r[r.len() - 1 - j]);
        assert(r.reverse()[i] == r[r.len() - 1 - i]);
    }
    assert forall|k: Seq<u8>| #[trigger] loc_map(r).contains_key(k) <==> (e@.contains_key(k) && in_range(k, lo, hi)) by {
        if loc_map(r).contains_key(k) {
            let i = crate::keydir::loc_index(r, k);
            assert(r.contains(r[i]));
            s.lemma_filter_contains_rev(f, r[i]);
            s.lemma_filter_pred(f, i);
            let a = choose|a: int| 0 <= a < s.len() && s[a] == r[i];
            assert(s[a].0 == k);
            assert(f(r[i]));
        }
        if e@.contains_key(k) && in_range(k, lo, hi) {
            let a = crate::keydir::loc_index(s, k);
            assert(f(s[a]));
            s.lemma_filter_contains(f, a);
            let i = choose|i: int| 0 <= i < r.len() && r[i] == s[a];
            assert(r[i].0 == k);
        }
    }
    assert forall|i: int| 0 <= i < r.len() implies e.index()[#[trigger] r[i].0] == (r[i].1, r[i].2) by {
        assert(r.contains(r[i]));
        s.lemma_filter_contains_rev(f, r[i]);
        let a = choose|a: int| 0 <= a < s.len() && s[a] == r[i];
        lemma_loc_map_at(s, a);
    }
}

/// Reopening: recovering a database from its own log keeps the whole log and gives
/// the same index, hence the same stored pairs.
pub proof fn lemma_reopen(e: BitCask)
    requires
        e.wf(),
    ensures
        scan_log(e.log()).1 == e.log().len(),
        e.log().take(scan_log(e.log()).1) == e.log(),
        scan_log(e.log()).0 == e.index(),
        values_at(e.log().take(scan_log(e.log()).1), scan_log(e.log()).0) == e@,
{
    assert(e.log().take(e.log().len() as int) =~= e.log());
}

/// After compaction the live size equals the total size.
pub proof fn lemma_compaction_exact(prev: BitCask, next: BitCask)
    requires
        compaction_of(prev, next),
    ensures
        next.live() == next.log().len(),
{
}

/// Compacting a compacted database again leaves the length of its log unchanged.
pub proof fn lemma_compaction_idempotent(a: BitCask, b: BitCask, c: BitCask)
    requires
        compaction_of(a, b),
        compaction_of(b, c),
    ensures
        c.log().len() == b.log().len(),
{
}

} // verus!
