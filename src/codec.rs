//! Payload encoding: values and buffers of `u64` to bytes and back, through
//! bincode's default encoding (fixed-width little-endian integers, a buffer
//! preceded by its length).
use vstd::prelude::*;

verus! {

/// Why a collective could not complete on this rank.
#[derive(Clone, Copy, Debug, PartialEq, Eq, Structural)]
pub enum CommError {
    /// A payload did not decode into the type the receiver expected.
    Decode,
}

/// The eight bytes of `v`, least significant first.
pub open spec fn le_bytes(v: u64) -> Seq<u8> {
    seq![
        v as u8,
        (v >> 8u64) as u8,
        (v >> 16u64) as u8,
        (v >> 24u64) as u8,
        (v >> 32u64) as u8,
        (v >> 40u64) as u8,
        (v >> 48u64) as u8,
        (v >> 56u64) as u8,
    ]
}

/// The value whose little-endian bytes start `b` (which holds at least eight).
pub open spec fn le_value(b: Seq<u8>) -> u64 {
    le_join(b[0], b[1], b[2], b[3], b[4], b[5], b[6], b[7])
}

/// The `u64` whose bytes, least significant first, are `b0` to `b7`.
pub open spec fn le_join(b0: u8, b1: u8, b2: u8, b3: u8, b4: u8, b5: u8, b6: u8, b7: u8) -> u64 {
    (b0 as u64) | ((b1 as u64) << 8u64) | ((b2 as u64) << 16u64) | ((b3 as u64) << 24u64) | ((
    b4 as u64) << 32u64) | ((b5 as u64) << 40u64) | ((b6 as u64) << 48u64) | ((b7 as u64)
        << 56u64)
}

/// The encoding of the items of `s`, one after the other, without a length.
pub open spec fn items_bytes(s: Seq<u64>) -> Seq<u8>
    decreases s.len(),
{
    if s.len() == 0 {
        Seq::empty()
    } else {
        items_bytes(s.drop_last()) + le_bytes(s.last())
    }
}

/// The encoding of a buffer: its length, then its items.
pub open spec fn buffer_bytes(s: Seq<u64>) -> Seq<u8> {
    le_bytes(s.len() as u64) + items_bytes(s)
}

/// The `count` items encoded at the start of `b`.
pub open spec fn items_at(b: Seq<u8>, count: nat) -> Seq<u64> {
    Seq::new(count, |i: int| le_value(b.subrange(8 * i, 8 * i + 8)))
}

/// Whether `b` holds a whole encoded buffer at its start.
pub open spec fn holds_buffer(b: Seq<u8>) -> bool {
    b.len() >= 8 && 8 + 8 * (le_value(b) as int) <= b.len()
}

/// Relies on bincode::serialize: a `u64` is written as its eight bytes, least
/// significant first; writing into a `Vec` does not fail.
#[verifier::external_body]
fn bincode_encode_u64(v: u64) -> (r: Vec<u8>)
    ensures
        r@ == le_bytes(v),
{
    match bincode::serialize(&v) {
        Ok(b) => b,
        Err(_) => Vec::new(),
    }
}

/// Relies on bincode::deserialize: a `u64` is read from the first eight bytes,
/// least significant first; fewer bytes are an error and later bytes are ignored.
#[verifier::external_body]
fn bincode_decode_u64(b: &[u8]) -> (r: Option<u64>)
    ensures
        b@.len() >= 8 ==> r == Some(le_value(b@)),
        b@.len() < 8 ==> r is None,
{
    bincode::deserialize::<u64>(b).ok()
}

/// Relies on bincode::serialize: a sequence of `u64` is written as its length
/// (as a `u64`) followed by its items, each as eight little-endian bytes.
#[verifier::external_body]
fn bincode_encode_items(v: &[u64]) -> (r: Vec<u8>)
    ensures
        r@ == buffer_bytes(v@),
{
    match bincode::serialize(v) {
        Ok(b) => b,
        Err(_) => Vec::new(),
    }
}

/// Relies on bincode::deserialize: a `Vec<u64>` is read as a length followed by
/// that many items; too few bytes are an error and later bytes are ignored.
#[verifier::external_body]
fn bincode_decode_items(b: &[u8]) -> (r: Option<Vec<u64>>)
    ensures
        r is Some == holds_buffer(b@),
        r is Some ==> r->Some_0@ == items_at(b@.skip(8), le_value(b@) as nat),
{
    bincode::deserialize::<Vec<u64>>(b).ok()
}

/// The payload that carries `v`.
pub fn encode_value(v: u64) -> (r: Vec<u8>)
    ensures
        r@ == le_bytes(v),
{
    bincode_encode_u64(v)
}

/// The value a payload carries; a payload of fewer than eight bytes does not decode.
pub fn decode_value(b: &[u8]) -> (r: Result<u64, CommError>)
    ensures
        b@.len() >= 8 ==> r == Ok::<u64, CommError>(le_value(b@)),
        b@.len() < 8 ==> r == Err::<u64, CommError>(CommError::Decode),
{
    match bincode_decode_u64(b) {
        Some(v) => Ok(v),
        None => Err(CommError::Decode),
    }
}

/// The payload that carries the buffer `v`.
pub fn encode_items(v: &[u64]) -> (r: Vec<u8>)
    ensures
        r@ == buffer_bytes(v@),
{
    bincode_encode_items(v)
}

/// The buffer a payload carries; a payload shorter than its length prefix
/// announces does not decode.
pub fn decode_items(b: &[u8]) -> (r: Result<Vec<u64>, CommError>)
    ensures
        r is Ok == holds_buffer(b@),
        r is Ok ==> r->Ok_0@ == items_at(b@.skip(8), le_value(b@) as nat),
        r is Err ==> r->Err_0 == CommError::Decode,
{
    match bincode_decode_items(b) {
        Some(v) => Ok(v),
        None => Err(CommError::Decode),
    }
}

/// The bytes of a value read back give the value.
pub proof fn lemma_value_round_trip(v: u64)
    ensures
        le_value(le_bytes(v)) == v,
{
    let b = le_bytes(v);
    assert(v == le_join(
        v as u8,
        (v >> 8u64) as u8,
        (v >> 16u64) as u8,
        (v >> 24u64) as u8,
        (v >> 32u64) as u8,
        (v >> 40u64) as u8,
        (v >> 48u64) as u8,
        (v >> 56u64) as u8,
    )) by (bit_vector);
}


proof fn lemma_items_bytes(s: Seq<u64>)
    ensures
        items_bytes(s).len() == 8 * s.len(),
        forall|i: int|
            0 <= i < s.len() ==> #[trigger] items_bytes(s).subrange(8 * i, 8 * i + 8) == le_bytes(
                s[i],
            ),
    decreases s.len(),
{
    if s.len() > 0 {
        let t = s.drop_last();
        lemma_items_bytes(t);
        assert forall|i: int| 0 <= i < s.len() implies #[trigger] items_bytes(s).subrange(
            8 * i,
            8 * i + 8,
        ) == le_bytes(s[i]) by {
            if i < t.len() {
                assert(items_bytes(s).subrange(8 * i, 8 * i + 8) =~= items_bytes(t).subrange(
                    8 * i,
                    8 * i + 8,
                ));
            } else {
                assert(items_bytes(s).subrange(8 * i, 8 * i + 8) =~= le_bytes(s.last()));
            }
        }
    }
}

/// The encoding of a buffer read back gives the buffer.
pub proof fn lemma_buffer_round_trip(s: Seq<u64>)
    requires
        s.len() <= u64::MAX,
    ensures
        holds_buffer(buffer_bytes(s)),
        items_at(buffer_bytes(s).skip(8), le_value(buffer_bytes(s)) as nat) == s,
{
    let b = buffer_bytes(s);
    lemma_value_round_trip(s.len() as u64);
    lemma_items_bytes(s);
    assert(b.subrange(0, 8) =~= le_bytes(s.len() as u64));
    assert(le_value(b) == le_value(le_bytes(s.len() as u64)));
    assert(b.skip(8) =~= items_bytes(s));
    assert forall|i: int| 0 <= i < s.len() implies #[trigger] items_at(b.skip(8), s.len())[i]
        == s[i] by {
        lemma_value_round_trip(s[i]);
        assert(b.skip(8).subrange(8 * i, 8 * i + 8) == le_bytes(s[i]));
    }
    assert(items_at(b.skip(8), s.len()) =~= s);
}

} // verus!
