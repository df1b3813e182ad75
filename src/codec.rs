//! Byte encodings: little-endian integers and the length-prefixed record
//! that holds one key/value pair.
use vstd::prelude::*;

verus! {

/// The eight little-endian bytes of `n`.
#[verifier::opaque]
pub open spec fn le_bytes(n: u64) -> Seq<u8> {
    seq![
        n as u8,
        (n >> 8u64) as u8,
        (n >> 16u64) as u8,
        (n >> 24u64) as u8,
        (n >> 32u64) as u8,
        (n >> 40u64) as u8,
        (n >> 48u64) as u8,
        (n >> 56u64) as u8,
    ]
}

/// The integer whose little-endian bytes are the first eight of `b`.
#[verifier::opaque]
pub open spec fn le_value(b: Seq<u8>) -> u64 {
    (b[0] as u64) | ((b[1] as u64) << 8u64) | ((b[2] as u64) << 16u64) | ((b[3] as u64) << 24u64)
        | ((b[4] as u64) << 32u64) | ((b[5] as u64) << 40u64) | ((b[6] as u64) << 48u64)
        | ((b[7] as u64) << 56u64)
}

/// Decoding the little-endian bytes of an integer gives the integer back.
pub proof fn lemma_le_round_trip(n: u64)
    ensures
        le_bytes(n).len() == 8,
        le_value(le_bytes(n)) == n,
{
    reveal(le_bytes);
    reveal(le_value);
    assert(((n as u8) as u64) | (((n >> 8u64) as u8 as u64) << 8u64) | (((n >> 16u64) as u8
        as u64) << 16u64) | (((n >> 24u64) as u8 as u64) << 24u64) | (((n >> 32u64) as u8 as u64)
        << 32u64) | (((n >> 40u64) as u8 as u64) << 40u64) | (((n >> 48u64) as u8 as u64)
        << 48u64) | (((n >> 56u64) as u8 as u64) << 56u64) == n) by (bit_vector);
}

/// Only the first eight bytes take part in `le_value`.
pub proof fn lemma_le_value_prefix(a: Seq<u8>, b: Seq<u8>)
    requires
        a.len() >= 8,
        b.len() >= 8,
        forall|i: int| 0 <= i < 8 ==> a[i] == b[i],
    ensures
        le_value(a) == le_value(b),
{
    reveal(le_value);
    assert(a[0] == b[0] && a[1] == b[1] && a[2] == b[2] && a[3] == b[3]);
    assert(a[4] == b[4] && a[5] == b[5] && a[6] == b[6] && a[7] == b[7]);
}

/// Length in bytes of the record of a pair with a key of `key_len` bytes and
/// a value of `value_len` bytes.
pub open spec fn record_len(key_len: int, value_len: int) -> int {
    16 + key_len + value_len
}

/// The record of a pair: the key's length, the key, the value's length and
/// the value, each length as eight little-endian bytes.
pub open spec fn encode_pair(key: Seq<u8>, value: Seq<u8>) -> Seq<u8> {
    le_bytes(key.len() as u64) + key + le_bytes(value.len() as u64) + value
}

/// The key that a record holds, read through its length prefix.
pub open spec fn record_key(r: Seq<u8>) -> Seq<u8> {
    r.subrange(8, 8 + le_value(r) as int)
}

/// The value that a record holds, read through its length prefix.
pub open spec fn record_value(r: Seq<u8>) -> Seq<u8> {
    let k = le_value(r) as int;
    r.subrange(16 + k, 16 + k + le_value(r.subrange(8 + k, 16 + k)) as int)
}

/// `r` is the record of the pair that it decodes to.
pub open spec fn is_record(r: Seq<u8>) -> bool {
    r == encode_pair(record_key(r), record_value(r))
}

/// Decoding the record of a pair gives the same key and value back.
pub proof fn lemma_decode_encode(key: Seq<u8>, value: Seq<u8>)
    requires
        key.len() <= u64::MAX,
        value.len() <= u64::MAX,
    ensures
        encode_pair(key, value).len() == record_len(key.len() as int, value.len() as int),
        record_key(encode_pair(key, value)) == key,
        record_value(encode_pair(key, value)) == value,
        is_record(encode_pair(key, value)),
{
    let r = encode_pair(key, value);
    let k = key.len() as int;
    lemma_le_round_trip(key.len() as u64);
    lemma_le_round_trip(value.len() as u64);
    assert(r.subrange(0, 8) =~= le_bytes(key.len() as u64));
    lemma_le_value_prefix(r, le_bytes(key.len() as u64));
    assert(r.subrange(8, 8 + k) =~= key);
    assert(r.subrange(8 + k, 16 + k) =~= le_bytes(value.len() as u64));
    assert(r.subrange(16 + k, 16 + k + value.len()) =~= value);
}

/// Writes the record of the pair `key`, `value`.
pub fn encode_record(key: &[u8], value: &[u8]) -> (r: Vec<u8>)
    ensures
        r@ == encode_pair(key@, value@),
{
    let mut out = u64_to_le(key.len() as u64);
    let mut k = vstd::slice::slice_to_vec(key);
    out.append(&mut k);
    let mut vl = u64_to_le(value.len() as u64);
    out.append(&mut vl);
    let mut v = vstd::slice::slice_to_vec(value);
    out.append(&mut v);
    out
}

/// A key and its value.
pub struct Pair {
    pub key: Vec<u8>,
    pub value: Vec<u8>,
}

impl Pair {
    /// The pair's record.
    pub fn to_bytes(&self) -> (r: Vec<u8>)
        ensures
            r@ == encode_pair(self.key@, self.value@),
    {
        encode_record(self.key.as_slice(), self.value.as_slice())
    }

    /// Reads the key and the value out of a record.
    pub fn from_bytes(r: &[u8]) -> (res: Pair)
        requires
            is_record(r@),
        ensures
            res.key@ == record_key(r@),
            res.value@ == record_value(r@),
    {
        let n = r.len();
        let ghost key = record_key(r@);
        let ghost value = record_value(r@);
        proof {
            lemma_le_round_trip(key.len() as u64);
            lemma_le_round_trip(value.len() as u64);
            assert(r@ == encode_pair(key, value));
            assert(r@.len() == 16 + key.len() + value.len());
            assert(r@.len() <= usize::MAX);
            lemma_decode_encode(key, value);
        }
        let kl = u64_from_le(vstd::slice::slice_subrange(r, 0, 8));
        assert(r@.subrange(0, 8) =~= le_bytes(key.len() as u64));
        assert(kl == le_value(le_bytes(key.len() as u64)));
        assert(kl as int == key.len());
        let key_end = 8 + kl as usize;
        let vl = u64_from_le(vstd::slice::slice_subrange(r, key_end, key_end + 8));
        assert(r@.subrange(key_end as int, key_end + 8) =~= le_bytes(value.len() as u64));
        let value_end = key_end + 8 + vl as usize;
        let k = vstd::slice::slice_to_vec(vstd::slice::slice_subrange(r, 8, key_end));
        let v = vstd::slice::slice_to_vec(vstd::slice::slice_subrange(r, key_end + 8, value_end));
        Pair { key: k, value: v }
    }
}

/// Relies on zerocopy's `U64<LittleEndian>::new` and its conversion to
/// `[u8; 8]`: the value's bytes, least significant first.
#[verifier::external_body]
pub(crate) fn u64_to_le(n: u64) -> (r: Vec<u8>)
    ensures
        r@ == le_bytes(n),
{
    let bytes: [u8; 8] = zerocopy::byteorder::U64::<zerocopy::byteorder::LittleEndian>::new(
        n,
    ).into();
    bytes.to_vec()
}

/// Relies on zerocopy's `FromBytes::read_from` for `U64<LittleEndian>`, which
/// succeeds on exactly eight bytes, and on `U64::get`, which reads them as a
/// little-endian integer.
#[verifier::external_body]
pub(crate) fn u64_from_le(b: &[u8]) -> (r: u64)
    requires
        b@.len() == 8,
    ensures
        r == le_value(b@),
{
    let v = <zerocopy::byteorder::U64<
        zerocopy::byteorder::LittleEndian,
    > as zerocopy::FromBytes>::read_from(b).unwrap();
    v.get()
}

} // verus!
