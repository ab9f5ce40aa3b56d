use vstd::prelude::*;

verus! {

/// Largest value length that an entry can hold (the value marker is a signed i32).
pub const MAX_VALUE_LEN: usize = 0x7fff_ffff;

/// Largest key length that an entry can hold (the key length is a u32).
pub const MAX_KEY_LEN: usize = 0xffff_ffff;

/// The value marker of a tombstone: -1 as a big-endian i32.
pub const TOMBSTONE: u32 = 0xffff_ffff;

/// The four big-endian bytes of `n`.
pub open spec fn be32(n: u32) -> Seq<u8> {
    seq![(n >> 24u32) as u8, (n >> 16u32) as u8, (n >> 8u32) as u8, n as u8]
}

/// The big-endian u32 that starts at `i`.
pub open spec fn read_u32(s: Seq<u8>, i: int) -> u32 {
    ((s[i] as u32) << 24u32) | ((s[i + 1] as u32) << 16u32) | ((s[i + 2] as u32) << 8u32) | (
    s[i + 3] as u32)
}

/// A value marker that stands for a value length (it is not negative as an i32).
pub open spec fn is_length(marker: u32) -> bool {
    marker < 0x8000_0000
}

pub open spec fn marker_of(value: Option<Seq<u8>>) -> u32 {
    match value {
        Some(v) => v.len() as u32,
        None => TOMBSTONE,
    }
}

pub open spec fn body_of(value: Option<Seq<u8>>) -> Seq<u8> {
    match value {
        Some(v) => v,
        None => Seq::empty(),
    }
}

/// The bytes of one log entry: key length, value marker, key, and the value unless it
/// is a tombstone.
pub open spec fn entry_bytes(key: Seq<u8>, value: Option<Seq<u8>>) -> Seq<u8> {
    be32(key.len() as u32) + be32(marker_of(value)) + key + body_of(value)
}

/// Key and value lengths that an entry can hold.
pub open spec fn storable(key: Seq<u8>, value: Option<Seq<u8>>) -> bool {
    key.len() <= MAX_KEY_LEN && match value {
        Some(v) => v.len() <= MAX_VALUE_LEN,
        None => true,
    }
}

pub proof fn lemma_be32_round_trip(n: u32)
    ensures
        read_u32(be32(n), 0) == n,
{
    let s = be32(n);
    assert(s[0] == (n >> 24u32) as u8);
    assert(s[1] == (n >> 16u32) as u8);
    assert(s[2] == (n >> 8u32) as u8);
    assert(s[3] == n as u8);
    assert((((((n >> 24u32) as u8) as u32) << 24u32) | ((((n >> 16u32) as u8) as u32) << 16u32) | (
    (((n >> 8u32) as u8) as u32) << 8u32) | ((n as u8) as u32)) == n) by (bit_vector);
}

pub proof fn lemma_entry_layout(key: Seq<u8>, value: Option<Seq<u8>>, s: Seq<u8>)
    requires
        storable(key, value),
    ensures
        ({
            let t = s + entry_bytes(key, value);
            let p = s.len() as int;
            &&& t.len() == s.len() + 8 + key.len() + body_of(value).len()
            &&& read_u32(t, p) == key.len()
            &&& read_u32(t, p + 4) == marker_of(value)
            &&& t.subrange(p + 8, p + 8 + key.len()) == key
            &&& t.subrange(p + 8 + key.len(), t.len() as int) == body_of(value)
            &&& t.subrange(0, p) == s
            &&& (is_length(marker_of(value)) <==> value is Some)
        }),
{
    let t = s + entry_bytes(key, value);
    let p = s.len() as int;
    let k = be32(key.len() as u32);
    let m = be32(marker_of(value));
    lemma_be32_round_trip(key.len() as u32);
    lemma_be32_round_trip(marker_of(value));
    assert(t.subrange(p, p + 4) =~= k);
    assert(t.subrange(p + 4, p + 8) =~= m);
    assert(read_u32(t, p) == read_u32(k, 0));
    assert(read_u32(t, p + 4) == read_u32(m, 0));
    assert(t.subrange(p + 8, p + 8 + key.len()) =~= key);
    assert(t.subrange(p + 8 + key.len(), t.len() as int) =~= body_of(value));
    assert(t.subrange(0, p) =~= s);
}

/// The value of an entry as a sequence; `None` for a tombstone.
pub open spec fn value_view(value: Option<&[u8]>) -> Option<Seq<u8>> {
    match value {
        Some(v) => Some(v@),
        None => None,
    }
}

/// Appends the four big-endian bytes of `n`.
fn push_be32(out: &mut Vec<u8>, n: u32)
    ensures
        final(out)@ == old(out)@ + be32(n),
{
    out.push((n >> 24u32) as u8);
    out.push((n >> 16u32) as u8);
    out.push((n >> 8u32) as u8);
    out.push(n as u8);
    assert(final(out)@ =~= old(out)@ + be32(n));
}

/// Appends the bytes of `b`.
pub fn push_bytes(out: &mut Vec<u8>, b: &[u8])
    ensures
        final(out)@ == old(out)@ + b@,
{
    let ghost start = out@;
    let mut i: usize = 0;
    while i < b.len()
        invariant
            i <= b.len(),
            out@ == start + b@.take(i as int),
        decreases b.len() - i,
    {
        out.push(b[i]);
        assert(b@.take(i + 1) =~= b@.take(i as int).push(b[i as int]));
        assert(out@ =~= start + b@.take(i + 1));
        i += 1;
    }
    assert(b@.take(b.len() as int) =~= b@);
}

/// Appends the bytes of `b`.
pub fn push_all(out: &mut Vec<u8>, b: &Vec<u8>)
    ensures
        final(out)@ == old(out)@ + b@,
{
    push_bytes(out, b.as_slice());
}

/// Encodes one log entry; `None` writes a tombstone.
pub fn encode_entry(key: &[u8], value: Option<&[u8]>) -> (r: Vec<u8>)
    requires
        storable(key@, value_view(value)),
    ensures
        r@ == entry_bytes(key@, value_view(value)),
{
    let mut out: Vec<u8> = Vec::new();
    push_be32(&mut out, key.len() as u32);
    match value {
        Some(v) => push_be32(&mut out, v.len() as u32),
        None => push_be32(&mut out, TOMBSTONE),
    }
    push_bytes(&mut out, key);
    match value {
        Some(v) => push_bytes(&mut out, v),
        None => {},
    }
    assert(out@ =~= entry_bytes(key@, value_view(value)));
    out
}

/// Reads the big-endian u32 at `i`.
pub fn decode_u32(s: &[u8], i: usize) -> (r: u32)
    requires
        i + 4 <= s@.len(),
    ensures
        r == read_u32(s@, i as int),
{
    ((s[i] as u32) << 24u32) | ((s[i + 1] as u32) << 16u32) | ((s[i + 2] as u32) << 8u32) | (s[i
        + 3] as u32)
}

} // verus!
