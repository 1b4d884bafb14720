//! MessagePack framing of log records, through `rmp_serde`.
//!
//! A record is stored as the MessagePack value `(tag, fields)`: a small
//! integer tag and a list of strings.

use vstd::prelude::*;

verus! {

#[verifier::external_type_specification]
#[verifier::external_body]
pub struct ExEncodeError(rmp_serde::encode::Error);

#[verifier::external_type_specification]
#[verifier::external_body]
pub struct ExDecodeError(rmp_serde::decode::Error);

/// The bytes that `rmp_serde::to_vec` produces for the pair `(tag, fields)`.
pub uninterp spec fn msgpack_of(tag: u8, fields: Seq<Seq<char>>) -> Seq<u8>;

/// What `rmp_serde` reads as a pair `(tag, fields)` from the front of `bytes`:
/// the pair and the number of bytes it consumed, or `None` where it fails.
pub uninterp spec fn msgpack_read(bytes: Seq<u8>) -> Option<(u8, Seq<Seq<char>>, nat)>;

/// The bound on the number of characters in a field, and on the number of
/// fields: under it a field's UTF-8 length fits the 32-bit length that
/// MessagePack writes.
pub const FIELD_LIMIT: usize = 0x4000_0000;

/// Every field, and the number of fields, is under `FIELD_LIMIT`.
pub open spec fn fields_fit(fields: Seq<Seq<char>>) -> bool {
    &&& fields.len() < FIELD_LIMIT
    &&& forall|i: int| 0 <= i < fields.len() ==> #[trigger] fields[i].len() < FIELD_LIMIT
}

/// The views of a list of strings.
pub open spec fn views(v: Seq<String>) -> Seq<Seq<char>> {
    v.map_values(|s: String| s@)
}

/// `b` is read back as `(tag, fields)`, consuming all of `b` and nothing
/// after it, whatever follows.
pub open spec fn reads_back(b: Seq<u8>, tag: u8, fields: Seq<Seq<char>>) -> bool {
    forall|rest: Seq<u8>| #[trigger] msgpack_read(b + rest) == Some((tag, fields, b.len()))
}

/// Relies on `rmp_serde::to_vec` on a `(u8, Vec<String>)`, which fails only
/// where its `Vec` cannot grow. With every length under 2^32 bytes the bytes
/// are a self-delimiting MessagePack array: the decoder reads them back to the
/// same pair, consuming exactly those bytes whatever follows, and reaches the
/// end of input on any proper prefix of them.
#[verifier::external_body]
pub(crate) fn encode_pair(tag: u8, fields: Vec<String>) -> (r: Result<Vec<u8>, rmp_serde::encode::Error>)
    requires
        fields_fit(views(fields@)),
    ensures
        r is Ok,
        r matches Ok(b) ==> b@ == msgpack_of(tag, views(fields@)),
        r matches Ok(b) ==> b@.len() > 0,
        r matches Ok(b) ==> reads_back(b@, tag, views(fields@)),
        r matches Ok(b) ==> forall|j: int|
            0 <= j < b@.len() ==> #[trigger] msgpack_read(b@.subrange(0, j)) is None,
{
    rmp_serde::to_vec(&(tag, fields))
}

/// Relies on `rmp_serde::Deserializer` over a `Cursor` on `bytes[start..]`,
/// reading a `(u8, Vec<String>)`: on success the cursor's position is the
/// number of bytes consumed, at least the one marker byte, and the value
/// depends on those bytes alone.
#[verifier::external_body]
pub(crate) fn decode_pair(bytes: &Vec<u8>, start: usize) -> (r: Result<(u8, Vec<String>, usize), rmp_serde::decode::Error>)
    requires
        start <= bytes@.len(),
    ensures
        match r {
            Ok((tag, fields, n)) => {
                &&& msgpack_read(bytes@.subrange(start as int, bytes@.len() as int)) == Some((tag, views(fields@), n as nat))
                &&& 1 <= n <= bytes@.len() - start
                &&& reads_back(bytes@.subrange(start as int, start + n), tag, views(fields@))
            },
            Err(_) => msgpack_read(bytes@.subrange(start as int, bytes@.len() as int)) is None,
        },
{
    let mut de = rmp_serde::Deserializer::new(std::io::Cursor::new(&bytes[start..]));
    match <(u8, Vec<String>) as serde::Deserialize>::deserialize(&mut de) {
        Ok((tag, fields)) => Ok((tag, fields, de.position() as usize)),
        Err(e) => Err(e),
    }
}

} // verus!
