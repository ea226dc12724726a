//! The entry codec: every key/value record and the file header go through
//! bincode's legacy configuration (fixed-width integers, little endian,
//! trailing bytes ignored). The calls into bincode stand behind trusted
//! wrappers; everything else in the crate is proved against their contracts.

use vstd::prelude::*;

verus! {

/// The bytes that bincode produces for one `(key, value)` record: an
/// eight-byte length, the key's UTF-8 bytes, then the value as eight
/// little-endian bytes. The exact byte sequence depends on the key and the
/// value alone; it is left abstract here and pinned only by the wrappers
/// below.
pub uninterp spec fn entry_bytes(key: Seq<char>, value: u64) -> Seq<u8>;

/// The eight little-endian bytes of a 64-bit integer: how bincode's legacy
/// configuration lays out a `u64`, used for the header that counts appended
/// entries.
pub open spec fn u64_le_bytes(x: u64) -> Seq<u8> {
    seq![
        (x & 0xff) as u8,
        ((x >> 8) & 0xff) as u8,
        ((x >> 16) & 0xff) as u8,
        ((x >> 24) & 0xff) as u8,
        ((x >> 32) & 0xff) as u8,
        ((x >> 40) & 0xff) as u8,
        ((x >> 48) & 0xff) as u8,
        ((x >> 56) & 0xff) as u8,
    ]
}

/// Two integers with the same little-endian bytes are the same integer.
pub proof fn lemma_u64_le_bytes_injective(x: u64, y: u64)
    requires
        u64_le_bytes(x) == u64_le_bytes(y),
    ensures
        x == y,
{
    assert(u64_le_bytes(x)[0] == u64_le_bytes(y)[0]);
    assert(u64_le_bytes(x)[1] == u64_le_bytes(y)[1]);
    assert(u64_le_bytes(x)[2] == u64_le_bytes(y)[2]);
    assert(u64_le_bytes(x)[3] == u64_le_bytes(y)[3]);
    assert(u64_le_bytes(x)[4] == u64_le_bytes(y)[4]);
    assert(u64_le_bytes(x)[5] == u64_le_bytes(y)[5]);
    assert(u64_le_bytes(x)[6] == u64_le_bytes(y)[6]);
    assert(u64_le_bytes(x)[7] == u64_le_bytes(y)[7]);
    assert(x == y) by (bit_vector)
        requires
            (x & 0xff) as u8 == (y & 0xff) as u8,
            ((x >> 8) & 0xff) as u8 == ((y >> 8) & 0xff) as u8,
            ((x >> 16) & 0xff) as u8 == ((y >> 16) & 0xff) as u8,
            ((x >> 24) & 0xff) as u8 == ((y >> 24) & 0xff) as u8,
            ((x >> 32) & 0xff) as u8 == ((y >> 32) & 0xff) as u8,
            ((x >> 40) & 0xff) as u8 == ((y >> 40) & 0xff) as u8,
            ((x >> 48) & 0xff) as u8 == ((y >> 48) & 0xff) as u8,
            ((x >> 56) & 0xff) as u8 == ((y >> 56) & 0xff) as u8,
    ;
}

/// Relies on `bincode::serialize` for a `(String, u64)` pair: the result is a
/// function of the pair alone, and is at least sixteen bytes (the eight-byte
/// length prefix and the eight-byte value). Serializing a string and an
/// integer into a growable buffer with no size limit cannot fail, so the
/// unwrap never fires.
#[verifier::external_body]
pub(crate) fn encode_entry(key: &String, value: u64) -> (r: Vec<u8>)
    ensures
        r@ == entry_bytes(key@, value),
        r@.len() >= 16,
{
    bincode::serialize(&(key, value)).unwrap()
}

/// Relies on `bincode::serialized_size` for a `(String, u64)` pair: the byte
/// length that `bincode::serialize` would produce for the same pair. With no
/// size limit it cannot fail, so the unwrap never fires.
#[verifier::external_body]
pub(crate) fn entry_size(key: &String, value: u64) -> (r: u64)
    ensures
        r as nat == entry_bytes(key@, value).len(),
        r >= 16,
{
    bincode::serialized_size(&(key, value)).unwrap()
}

/// Relies on `bincode::deserialize` for a `(String, u64)` pair: it succeeds
/// exactly when a valid encoding of some pair starts the input (bytes after
/// that encoding are ignored), it returns that pair, and what it consumed
/// re-encodes to the same bytes.
#[verifier::external_body]
pub(crate) fn decode_entry(bytes: &[u8]) -> (r: Option<(String, u64)>)
    ensures
        r is None ==> forall|k: Seq<char>, v: u64| !entry_bytes(k, v).is_prefix_of(bytes@),
        r matches Some(p) ==> forall|k: Seq<char>, v: u64|
            entry_bytes(k, v).is_prefix_of(bytes@) ==> p.0@ == k && p.1 == v,
        r matches Some(p) ==> entry_bytes(p.0@, p.1).is_prefix_of(bytes@),
{
    bincode::deserialize::<(String, u64)>(bytes).ok()
}

/// Relies on `bincode::serialize` for a `u64`: eight little-endian bytes.
/// Serializing an integer into a growable buffer with no size limit cannot
/// fail, so the unwrap never fires.
#[verifier::external_body]
pub(crate) fn encode_u64(x: u64) -> (r: Vec<u8>)
    ensures
        r@ == u64_le_bytes(x),
{
    bincode::serialize(&x).unwrap()
}

/// Relies on `bincode::deserialize` for a `u64`: it reads the first eight
/// bytes as a little-endian integer, ignores the rest, and fails exactly when
/// fewer than eight bytes are given.
#[verifier::external_body]
pub(crate) fn decode_u64_prefix(bytes: &[u8]) -> (r: Option<u64>)
    ensures
        r is Some <==> bytes@.len() >= 8,
        r matches Some(x) ==> bytes@.take(8) == u64_le_bytes(x),
{
    bincode::deserialize::<u64>(bytes).ok()
}

} // verus!
