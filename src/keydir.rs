use vstd::prelude::*;

verus! {

/// Byte-wise (unsigned) lexicographic order on keys: a proper prefix sorts first.
pub open spec fn lex_lt(a: Seq<u8>, b: Seq<u8>) -> bool
    decreases a.len(),
{
    if a.len() == 0 {
        b.len() > 0
    } else if b.len() == 0 {
        false
    } else if a[0] != b[0] {
        a[0] < b[0]
    } else {
        lex_lt(a.drop_first(), b.drop_first())
    }
}

pub proof fn lemma_lex_irreflexive(a: Seq<u8>)
    ensures
        !lex_lt(a, a),
    decreases a.len(),
{
    if a.len() > 0 {
        lemma_lex_irreflexive(a.drop_first());
    }
}

pub proof fn lemma_lex_transitive(a: Seq<u8>, b: Seq<u8>, c: Seq<u8>)
    requires
        lex_lt(a, b),
        lex_lt(b, c),
    ensures
        lex_lt(a, c),
    decreases a.len(),
{
    if a.len() > 0 && b.len() > 0 && c.len() > 0 && a[0] == b[0] && b[0] == c[0] {
        lemma_lex_transitive(a.drop_first(), b.drop_first(), c.drop_first());
    }
}

pub proof fn lemma_lex_total(a: Seq<u8>, b: Seq<u8>)
    ensures
        a == b || lex_lt(a, b) || lex_lt(b, a),
    decreases a.len(),
{
    if a.len() == 0 && b.len() == 0 {
        assert(a =~= b);
    } else if a.len() > 0 && b.len() > 0 && a[0] == b[0] {
        lemma_lex_total(a.drop_first(), b.drop_first());
        if a.drop_first() == b.drop_first() {
            assert(a.drop_first().len() == b.drop_first().len());
            assert forall|i: int| 0 <= i < a.len() implies a[i] == b[i] by {
                if i > 0 {
                    assert(a[i] == a.drop_first()[i - 1]);
                    assert(b[i] == b.drop_first()[i - 1]);
                }
            }
            assert(a =~= b);
        }
    }
}

pub proof fn lemma_lex_asymmetric(a: Seq<u8>, b: Seq<u8>)
    requires
        lex_lt(a, b),
    ensures
        !lex_lt(b, a),
{
    if lex_lt(b, a) {
        lemma_lex_transitive(a, b, a);
        lemma_lex_irreflexive(a);
    }
}

/// Compares two keys in byte-wise lexicographic order.
pub fn key_lt(a: &[u8], b: &[u8]) -> (r: bool)
    ensures
        r == lex_lt(a@, b@),
{
    let mut i: usize = 0;
    assert(a@.skip(0) =~= a@);
    assert(b@.skip(0) =~= b@);
    while i < a.len() && i < b.len()
        invariant
            i <= a.len(),
            i <= b.len(),
            lex_lt(a@, b@) == lex_lt(a@.skip(i as int), b@.skip(i as int)),
        decreases a.len() - i,
    {
        assert(a@.skip(i as int)[0] == a[i as int]);
        assert(b@.skip(i as int)[0] == b[i as int]);
        if a[i] != b[i] {
            return a[i] < b[i];
        }
        assert(a@.skip(i as int).drop_first() =~= a@.skip(i + 1));
        assert(b@.skip(i as int).drop_first() =~= b@.skip(i + 1));
        i += 1;
    }
    i == a.len() && i < b.len()
}

/// One end of a key range.
pub enum KeyBound {
    Included(Vec<u8>),
    Excluded(Vec<u8>),
    Unbounded,
}

/// The key is not below the lower end `lo`.
pub open spec fn above(k: Seq<u8>, lo: KeyBound) -> bool {
    match lo {
        KeyBound::Included(b) => b@ == k || lex_lt(b@, k),
        KeyBound::Excluded(b) => lex_lt(b@, k),
        KeyBound::Unbounded => true,
    }
}

/// The key is not above the upper end `hi`.
pub open spec fn below(k: Seq<u8>, hi: KeyBound) -> bool {
    match hi {
        KeyBound::Included(b) => b@ == k || lex_lt(k, b@),
        KeyBound::Excluded(b) => lex_lt(k, b@),
        KeyBound::Unbounded => true,
    }
}

pub open spec fn in_range(k: Seq<u8>, lo: KeyBound, hi: KeyBound) -> bool {
    above(k, lo) && below(k, hi)
}

/// A key and where its latest value lies in the log: (key, value offset, value length).
pub type Loc = (Seq<u8>, u64, u32);

/// Bytes that the entry holding this key and value length takes in the log.
pub open spec fn entry_size(key_len: int, value_len: int) -> int {
    8 + key_len + value_len
}

/// Strictly ascending keys, hence no key twice.
pub open spec fn sorted(s: Seq<Loc>) -> bool {
    forall|i: int, j: int| 0 <= i < j < s.len() ==> lex_lt(#[trigger] s[i].0, #[trigger] s[j].0)
}

/// The mapping from key to (value offset, value length) that a list of locations holds.
pub open spec fn loc_map(s: Seq<Loc>) -> Map<Seq<u8>, (u64, u32)> {
    Map::new(
        |k: Seq<u8>| exists|i: int| 0 <= i < s.len() && s[i].0 == k,
        |k: Seq<u8>| (s[loc_index(s, k)].1, s[loc_index(s, k)].2),
    )
}

/// A position in the list at which the key stands, if any.
pub open spec fn loc_index(s: Seq<Loc>, k: Seq<u8>) -> int {
    choose|i: int| 0 <= i < s.len() && s[i].0 == k
}

/// Sum of the canonical entry sizes of the listed keys.
pub open spec fn live_of(s: Seq<Loc>) -> int
    decreases s.len(),
{
    if s.len() == 0 {
        0
    } else {
        live_of(s.drop_last()) + entry_size(s.last().0.len() as int, s.last().2 as int)
    }
}

pub proof fn lemma_loc_map_at(s: Seq<Loc>, j: int)
    requires
        sorted(s),
        0 <= j < s.len(),
    ensures
        loc_map(s).contains_key(s[j].0),
        loc_map(s)[s[j].0] == (s[j].1, s[j].2),
{
    let k = s[j].0;
    assert(loc_map(s).contains_key(k));
    let i = loc_index(s, k);
    if i < j {
        assert(lex_lt(s[i].0, s[j].0));
        lemma_lex_irreflexive(k);
    } else if i > j {
        assert(lex_lt(s[j].0, s[i].0));
        lemma_lex_irreflexive(k);
    }
}

pub proof fn lemma_live_concat(a: Seq<Loc>, b: Seq<Loc>)
    ensures
        live_of(a + b) == live_of(a) + live_of(b),
    decreases b.len(),
{
    if b.len() == 0 {
        assert(a + b =~= a);
    } else {
        lemma_live_concat(a, b.drop_last());
        assert((a + b).drop_last() =~= a + b.drop_last());
    }
}

pub proof fn lemma_live_single(x: Loc)
    ensures
        live_of(seq![x]) == entry_size(x.0.len() as int, x.2 as int),
{
    assert(seq![x].drop_last() =~= Seq::<Loc>::empty());
    assert(live_of(Seq::<Loc>::empty()) == 0);
}

pub proof fn lemma_live_nonneg(s: Seq<Loc>)
    ensures
        live_of(s) >= 0,
    decreases s.len(),
{
    if s.len() > 0 {
        lemma_live_nonneg(s.drop_last());
    }
}

proof fn lemma_insert_new(s: Seq<Loc>, i: int, x: Loc)
    requires
        sorted(s),
        0 <= i <= s.len(),
        forall|j: int| 0 <= j < i ==> lex_lt(#[trigger] s[j].0, x.0),
        forall|j: int| i <= j < s.len() ==> lex_lt(x.0, #[trigger] s[j].0),
    ensures
        sorted(s.insert(i, x)),
        loc_map(s.insert(i, x)) == loc_map(s).insert(x.0, (x.1, x.2)),
        !loc_map(s).contains_key(x.0),
        live_of(s.insert(i, x)) == live_of(s) + entry_size(x.0.len() as int, x.2 as int),
{
    let t = s.insert(i, x);
    assert forall|a: int, b: int| 0 <= a < b < t.len() implies lex_lt(#[trigger] t[a].0, #[trigger] t[b].0) by {
        if b < i {
        } else if b == i {
        } else if a < i {
            lemma_lex_transitive(s[a].0, x.0, s[b - 1].0);
        } else if a == i {
        } else {
            assert(lex_lt(s[a - 1].0, s[b - 1].0));
        }
    }
    if loc_map(s).contains_key(x.0) {
        let j = loc_index(s, x.0);
        lemma_lex_irreflexive(x.0);
    }
    assert forall|k: Seq<u8>| #[trigger] loc_map(t).contains_key(k) == loc_map(s).insert(x.0, (x.1, x.2)).contains_key(k) by {
        if loc_map(s).contains_key(k) {
            let j = loc_index(s, k);
            if j < i {
                assert(t[j] == s[j]);
            } else {
                assert(t[j + 1] == s[j]);
            }
        }
        if k == x.0 {
            assert(t[i] == x);
        }
        if loc_map(t).contains_key(k) {
            let j = loc_index(t, k);
            if j < i {
                assert(s[j] == t[j]);
            } else if j > i {
                assert(s[j - 1] == t[j]);
            }
        }
    }
    assert forall|k: Seq<u8>| #[trigger] loc_map(t).contains_key(k) implies loc_map(t)[k] == loc_map(s).insert(x.0, (x.1, x.2))[k] by {
        let j = loc_index(t, k);
        lemma_loc_map_at(t, j);
        if j < i {
            assert(s[j] == t[j]);
            lemma_loc_map_at(s, j);
        } else if j > i {
            assert(s[j - 1] == t[j]);
            lemma_loc_map_at(s, j - 1);
        }
    }
    assert(loc_map(t) =~= loc_map(s).insert(x.0, (x.1, x.2)));
    assert(s =~= s.take(i) + s.skip(i));
    assert(t =~= s.take(i) + (seq![x] + s.skip(i)));
    lemma_live_concat(s.take(i), s.skip(i));
    lemma_live_concat(s.take(i), seq![x] + s.skip(i));
    lemma_live_concat(seq![x], s.skip(i));
    lemma_live_single(x);
}

proof fn lemma_update_at(s: Seq<Loc>, i: int, x: Loc)
    requires
        sorted(s),
        0 <= i < s.len(),
        x.0 == s[i].0,
    ensures
        sorted(s.update(i, x)),
        loc_map(s.update(i, x)) == loc_map(s).insert(x.0, (x.1, x.2)),
        live_of(s.update(i, x)) == live_of(s) - entry_size(s[i].0.len() as int, s[i].2 as int)
            + entry_size(x.0.len() as int, x.2 as int),
{
    let t = s.update(i, x);
    assert forall|a: int, b: int| 0 <= a < b < t.len() implies lex_lt(#[trigger] t[a].0, #[trigger] t[b].0) by {
        assert(lex_lt(s[a].0, s[b].0));
    }
    assert forall|k: Seq<u8>| #[trigger] loc_map(t).contains_key(k) == loc_map(s).insert(x.0, (x.1, x.2)).contains_key(k) by {
        if loc_map(s).contains_key(k) {
            let j = loc_index(s, k);
            assert(t[j].0 == s[j].0);
        }
        if k == x.0 {
            assert(t[i] == x);
        }
        if loc_map(t).contains_key(k) {
            let j = loc_index(t, k);
            assert(t[j].0 == s[j].0);
        }
    }
    assert forall|k: Seq<u8>| #[trigger] loc_map(t).contains_key(k) implies loc_map(t)[k] == loc_map(s).insert(x.0, (x.1, x.2))[k] by {
        let j = loc_index(t, k);
        lemma_loc_map_at(t, j);
        if j != i {
            assert(t[j] == s[j]);
            lemma_loc_map_at(s, j);
            if j < i {
                assert(lex_lt(t[j].0, t[i].0));
            } else {
                assert(lex_lt(t[i].0, t[j].0));
            }
            lemma_lex_irreflexive(k);
        }
    }
    assert(loc_map(t) =~= loc_map(s).insert(x.0, (x.1, x.2)));
    assert(s =~= s.take(i) + (seq![s[i]] + s.skip(i + 1)));
    assert(t =~= s.take(i) + (seq![x] + s.skip(i + 1)));
    lemma_live_concat(s.take(i), seq![s[i]] + s.skip(i + 1));
    lemma_live_concat(s.take(i), seq![x] + s.skip(i + 1));
    lemma_live_concat(seq![x], s.skip(i + 1));
    lemma_live_concat(seq![s[i]], s.skip(i + 1));
    lemma_live_single(x);
    lemma_live_single(s[i]);
}

proof fn lemma_remove_at(s: Seq<Loc>, i: int)
    requires
        sorted(s),
        0 <= i < s.len(),
    ensures
        sorted(s.remove(i)),
        loc_map(s.remove(i)) == loc_map(s).remove(s[i].0),
        live_of(s.remove(i)) == live_of(s) - entry_size(s[i].0.len() as int, s[i].2 as int),
{
    let t = s.remove(i);
    let x = s[i];
    assert forall|a: int, b: int| 0 <= a < b < t.len() implies lex_lt(#[trigger] t[a].0, #[trigger] t[b].0) by {
        if b < i {
            assert(lex_lt(s[a].0, s[b].0));
        } else if a < i {
            assert(lex_lt(s[a].0, s[b + 1].0));
        } else {
            assert(lex_lt(s[a + 1].0, s[b + 1].0));
        }
    }
    assert forall|k: Seq<u8>| #[trigger] loc_map(t).contains_key(k) == loc_map(s).remove(x.0).contains_key(k) by {
        if loc_map(s).contains_key(k) && k != x.0 {
            let j = loc_index(s, k);
            if j < i {
                assert(t[j] == s[j]);
            } else {
                assert(t[j - 1] == s[j]);
            }
        }
        if loc_map(t).contains_key(k) {
            let j = loc_index(t, k);
            if j < i {
                assert(s[j] == t[j]);
                assert(lex_lt(s[j].0, s[i].0));
            } else {
                assert(s[j + 1] == t[j]);
                assert(lex_lt(s[i].0, s[j + 1].0));
            }
            lemma_lex_irreflexive(k);
        }
    }
    assert forall|k: Seq<u8>| #[trigger] loc_map(t).contains_key(k) implies loc_map(t)[k] == loc_map(s).remove(x.0)[k] by {
        let j = loc_index(t, k);
        lemma_loc_map_at(t, j);
        if j < i {
            assert(s[j] == t[j]);
            lemma_loc_map_at(s, j);
        } else {
            assert(s[j + 1] == t[j]);
            lemma_loc_map_at(s, j + 1);
        }
    }
    assert(loc_map(t) =~= loc_map(s).remove(x.0));
    assert(s =~= s.take(i) + (seq![x] + s.skip(i + 1)));
    assert(t =~= s.take(i) + s.skip(i + 1));
    lemma_live_concat(s.take(i), seq![x] + s.skip(i + 1));
    lemma_live_concat(s.take(i), s.skip(i + 1));
    lemma_live_concat(seq![x], s.skip(i + 1));
    lemma_live_single(x);
}

pub struct Slot {
    pub key: Vec<u8>,
    pub pos: u64,
    pub len: u32,
}

impl Slot {
    pub open spec fn loc(&self) -> Loc {
        (self.key@, self.pos, self.len)
    }
}

/// The in-memory index: each live key with the offset and length of its latest value,
/// held in ascending key order.
pub struct KeyDir {
    slots: Vec<Slot>,
}

impl KeyDir {
    /// The index as a list of locations, in ascending key order.
    pub closed spec fn locs(&self) -> Seq<Loc> {
        self.slots@.map_values(|s: Slot| s.loc())
    }

    pub open spec fn wf(&self) -> bool {
        sorted(self.locs())
    }

    pub open spec fn view(&self) -> Map<Seq<u8>, (u64, u32)> {
        loc_map(self.locs())
    }

    /// Sum over the keys of the canonical size of their entries.
    pub open spec fn live(&self) -> int {
        live_of(self.locs())
    }

    pub fn new() -> (r: KeyDir)
        ensures
            r.wf(),
            r.locs() == Seq::<Loc>::empty(),
            r@ == Map::<Seq<u8>, (u64, u32)>::empty(),
            r.live() == 0,
    {
        let r = KeyDir { slots: Vec::new() };
        assert(r.locs() =~= Seq::<Loc>::empty());
        assert(r@ =~= Map::<Seq<u8>, (u64, u32)>::empty());
        r
    }

    pub fn len(&self) -> (r: usize)
        ensures
            r == self.locs().len(),
    {
        self.slots.len()
    }

    /// The index of the first slot whose key is not below `key`, and whether it equals `key`.
    fn search(&self, key: &[u8]) -> (r: (usize, bool))
        requires
            self.wf(),
        ensures
            r.0 <= self.locs().len(),
            forall|j: int| 0 <= j < r.0 ==> lex_lt(#[trigger] self.locs()[j].0, key@),
            r.1 ==> r.0 < self.locs().len() && self.locs()[r.0 as int].0 == key@,
            !r.1 ==> forall|j: int|
                r.0 <= j < self.locs().len() ==> lex_lt(key@, #[trigger] self.locs()[j].0),
    {
        let ghost s = self.locs();
        let mut lo: usize = 0;
        let mut hi: usize = self.slots.len();
        while lo < hi
            invariant
                s == self.locs(),
                sorted(s),
                lo <= hi <= s.len(),
                forall|j: int| 0 <= j < lo ==> lex_lt(#[trigger] s[j].0, key@),
                forall|j: int| hi <= j < s.len() ==> !lex_lt(#[trigger] s[j].0, key@),
            decreases hi - lo,
        {
            let mid = lo + (hi - lo) / 2;
            assert(s[mid as int].0 == self.slots[mid as int].key@);
            if key_lt(self.slots[mid].key.as_slice(), key) {
                assert forall|j: int| 0 <= j < mid + 1 implies lex_lt(#[trigger] s[j].0, key@) by {
                    if j < mid {
                        lemma_lex_transitive(s[j].0, s[mid as int].0, key@);
                    }
                }
                lo = mid + 1;
            } else {
                assert forall|j: int| mid <= j < s.len() implies !lex_lt(#[trigger] s[j].0, key@) by {
                    if j > mid && lex_lt(s[j].0, key@) {
                        lemma_lex_transitive(s[mid as int].0, s[j].0, key@);
                    }
                }
                hi = mid;
            }
        }
        if lo < self.slots.len() {
            assert(s[lo as int].0 == self.slots[lo as int].key@);
            if key_lt(key, self.slots[lo].key.as_slice()) {
                assert forall|j: int| lo <= j < s.len() implies lex_lt(key@, #[trigger] s[j].0) by {
                    if j > lo {
                        lemma_lex_transitive(key@, s[lo as int].0, s[j].0);
                    }
                }
                (lo, false)
            } else {
                proof {
                    lemma_lex_total(key@, s[lo as int].0);
                }
                (lo, true)
            }
        } else {
            (lo, false)
        }
    }

    /// Where the latest value of `key` lies, if the key is live.
    pub fn get(&self, key: &[u8]) -> (r: Option<(u64, u32)>)
        requires
            self.wf(),
        ensures
            r == (if self@.contains_key(key@) { Some(self@[key@]) } else { None::<(u64, u32)> }),
    {
        let (i, found) = self.search(key);
        if found {
            proof {
                lemma_loc_map_at(self.locs(), i as int);
            }
            Some((self.slots[i].pos, self.slots[i].len))
        } else {
            proof {
                if self@.contains_key(key@) {
                    let j = loc_index(self.locs(), key@);
                    assert(self.locs()[j].0 == key@);
                    lemma_lex_irreflexive(key@);
                }
            }
            None
        }
    }
    /// Points `key` at a new value location, replacing any earlier one.
    pub fn insert(&mut self, key: Vec<u8>, pos: u64, len: u32)
        requires
            old(self).wf(),
        ensures
            final(self).wf(),
            final(self)@ == old(self)@.insert(key@, (pos, len)),
            final(self).live() == old(self).live() + entry_size(key@.len() as int, len as int) - (
            if old(self)@.contains_key(key@) {
                entry_size(key@.len() as int, old(self)@[key@].1 as int)
            } else {
                0
            }),
    {
        let ghost s = self.locs();
        let (i, found) = self.search(key.as_slice());
        let ghost x: Loc = (key@, pos, len);
        let slot = Slot { key, pos, len };
        if found {
            proof {
                lemma_update_at(s, i as int, x);
                lemma_loc_map_at(s, i as int);
            }
            self.slots.set(i, slot);
            assert(self.locs() =~= s.update(i as int, x));
        } else {
            proof {
                lemma_insert_new(s, i as int, x);
            }
            self.slots.insert(i, slot);
            assert(self.locs() =~= s.insert(i as int, x));
        }
    }

    /// Forgets `key`; a key that is not there is left alone.
    pub fn remove(&mut self, key: &[u8])
        requires
            old(self).wf(),
        ensures
            final(self).wf(),
            final(self)@ == old(self)@.remove(key@),
            final(self).live() == old(self).live() - (if old(self)@.contains_key(key@) {
                entry_size(key@.len() as int, old(self)@[key@].1 as int)
            } else {
                0
            }),
    {
        let ghost s = self.locs();
        let (i, found) = self.search(key);
        if found {
            proof {
                lemma_remove_at(s, i as int);
                lemma_loc_map_at(s, i as int);
            }
            self.slots.remove(i);
            assert(self.locs() =~= s.remove(i as int));
        } else {
            proof {
                if loc_map(s).contains_key(key@) {
                    let j = loc_index(s, key@);
                    assert(s[j].0 == key@);
                    lemma_lex_irreflexive(key@);
                }
                assert(loc_map(s) =~= loc_map(s).remove(key@));
            }
        }
    }

    /// The locations of the keys within the range, in ascending key order.
    pub fn range(&self, lo: &KeyBound, hi: &KeyBound) -> (r: Vec<Slot>)
        requires
            self.wf(),
        ensures
            r@.map_values(|s: Slot| s.loc()) == self.locs().filter(|l: Loc| in_range(l.0, *lo, *hi)),
    {
        let ghost s = self.locs();
        let ghost f = |l: Loc| in_range(l.0, *lo, *hi);
        let mut out: Vec<Slot> = Vec::new();
        let mut i: usize = 0;
        while i < self.slots.len()
            invariant
                s == self.locs(),
                f == (|l: Loc| in_range(l.0, *lo, *hi)),
                i <= s.len(),
                out@.map_values(|s: Slot| s.loc()) == s.take(i as int).filter(f),
            decreases s.len() - i,
        {
            let k = self.slots[i].key.as_slice();
            assert(s.take(i + 1).drop_last() =~= s.take(i as int));
            assert(s[i as int] == self.slots[i as int].loc());
            proof {
                reveal_with_fuel(Seq::<_>::filter, 1);
            }
            assert(s.take(i + 1).filter(f) == (if f(s[i as int]) {
                s.take(i as int).filter(f).push(s[i as int])
            } else {
                s.take(i as int).filter(f)
            }));
            if key_in_range(k, lo, hi) {
                let slot = Slot { key: vstd::slice::slice_to_vec(k), pos: self.slots[i].pos, len: self.slots[i].len };
                out.push(slot);
                assert(out@.map_values(|s: Slot| s.loc()) =~= s.take(i as int).filter(f).push(s[i as int]));
            }
            i += 1;
        }
        assert(s.take(s.len() as int) =~= s);
        out
    }

    /// Sum over the keys of the canonical size of their entries.
    pub fn live_size(&self) -> (r: u64)
        requires
            self.live() <= u64::MAX,
        ensures
            r == self.live(),
    {
        let ghost s = self.locs();
        let mut total: u64 = 0;
        let mut i: usize = 0;
        while i < self.slots.len()
            invariant
                s == self.locs(),
                i <= s.len(),
                live_of(s) <= u64::MAX,
                total == live_of(s.take(i as int)),
            decreases s.len() - i,
        {
            proof {
                assert(s.take(i + 1).drop_last() =~= s.take(i as int));
                assert(s[i as int] == self.slots[i as int].loc());
                assert(s =~= s.take(i + 1) + s.skip(i + 1));
                lemma_live_concat(s.take(i + 1), s.skip(i + 1));
                lemma_live_nonneg(s.skip(i + 1));
            }
            total = total + 8 + self.slots[i].key.len() as u64 + self.slots[i].len as u64;
            i += 1;
        }
        assert(s.take(s.len() as int) =~= s);
        total
    }

    /// Every key with its location, in ascending key order.
    pub fn entries(&self) -> (r: Vec<Slot>)
        requires
            self.wf(),
        ensures
            r@.map_values(|s: Slot| s.loc()) == self.locs(),
    {
        let ghost s = self.locs();
        let mut out: Vec<Slot> = Vec::new();
        let mut i: usize = 0;
        while i < self.slots.len()
            invariant
                s == self.locs(),
                i <= s.len(),
                out@.map_values(|s: Slot| s.loc()) == s.take(i as int),
            decreases s.len() - i,
        {
            let k = self.slots[i].key.as_slice();
            let slot = Slot { key: vstd::slice::slice_to_vec(k), pos: self.slots[i].pos, len: self.slots[i].len };
            assert(s[i as int] == self.slots[i as int].loc());
            assert(slot.loc() == s[i as int]);
            let ghost prev = out@;
            out.push(slot);
            assert(out@.map_values(|s: Slot| s.loc()) =~= prev.map_values(|s: Slot| s.loc()).push(s[i as int]));
            assert(s.take(i + 1) =~= s.take(i as int).push(s[i as int]));
            i += 1;
        }
        assert(s.take(s.len() as int) =~= s);
        out
    }
}

/// Whether `k` lies in the range from `lo` to `hi`.
pub fn key_in_range(k: &[u8], lo: &KeyBound, hi: &KeyBound) -> (r: bool)
    ensures
        r == in_range(k@, *lo, *hi),
{
    let a = match lo {
        KeyBound::Included(b) => {
            proof {
                lemma_lex_total(b@, k@);
                if lex_lt(k@, b@) {
                    lemma_lex_asymmetric(k@, b@);
                    lemma_lex_irreflexive(k@);
                }
            }
            !key_lt(k, b.as_slice())
        },
        KeyBound::Excluded(b) => key_lt(b.as_slice(), k),
        KeyBound::Unbounded => true,
    };
    let z = match hi {
        KeyBound::Included(b) => {
            proof {
                lemma_lex_total(b@, k@);
                if lex_lt(b@, k@) {
                    lemma_lex_asymmetric(b@, k@);
                    lemma_lex_irreflexive(k@);
                }
            }
            !key_lt(b.as_slice(), k)
        },
        KeyBound::Excluded(b) => key_lt(k, b.as_slice()),
        KeyBound::Unbounded => true,
    };
    a && z
}

} // verus!
