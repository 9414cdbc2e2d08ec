//! From the bytes of a schematic file to its NBT value. Schematic files are
//! usually gzip-compressed NBT; some are stored raw.
use std::io::Read;
use vstd::prelude::*;
use vstd::slice::slice_to_vec;
use crate::parser::{NbtTree, NbtValue, nbt_tree};

verus! {

/// What gzip decoding of `data` gives: the decompressed bytes of its first
/// gzip member, or `None` when `data` is not a valid gzip stream.
pub uninterp spec fn gunzip_result(data: Seq<u8>) -> Option<Seq<u8>>;

/// What NBT decoding of `bytes` gives: the tree of the value they hold, or
/// `None` when they are not a valid uncompressed NBT value.
pub uninterp spec fn nbt_decode(bytes: Seq<u8>) -> Option<NbtTree>;

/// The NBT bytes of a schematic file's content: its gzip decompression when
/// the content is gzip data, the content itself otherwise.
pub open spec fn schematic_bytes(raw: Seq<u8>) -> Seq<u8> {
    match gunzip_result(raw) {
        Some(d) => d,
        None => raw,
    }
}

/// `fastnbt`'s decoded value, opaque here: it only passes from
/// `fastnbt::from_bytes` to `nbt_value_of`.
#[verifier::external_type_specification]
#[verifier::external_body]
pub struct ExNbtTag(fastnbt::Value);

/// Decodes `data` with `flate2::read::GzDecoder` and `Read::read_to_end`.
/// Trusted: the result is `gunzip_result(data)`, the bytes on success and
/// `None` when decoding reports an error; partial output before an error is
/// dropped.
#[verifier::external_body]
fn gunzip(data: &[u8]) -> (r: Option<Vec<u8>>)
    ensures
        match r {
            Some(v) => gunzip_result(data@) == Some(v@),
            None => gunzip_result(data@) is None,
        },
{
    let mut out: Vec<u8> = Vec::new();
    match flate2::read::GzDecoder::new(data).read_to_end(&mut out) {
        Ok(_) => Some(out),
        Err(_) => None,
    }
}

/// Decodes `bytes` with `fastnbt::from_bytes` into a `fastnbt::Value` and
/// converts it with `nbt_value_of`. Trusted: on success the tree of the
/// result is `nbt_decode(bytes)`; when `from_bytes` reports an error the
/// result is `None` and so is `nbt_decode(bytes)`. The order of a compound's
/// entries is the order in which fastnbt's map yields them, which nothing
/// here states.
#[verifier::external_body]
fn decode_nbt(bytes: &[u8]) -> (r: Option<NbtValue>)
    ensures
        match r {
            Some(v) => nbt_decode(bytes@) == Some(nbt_tree(v)),
            None => nbt_decode(bytes@) is None,
        },
{
    match fastnbt::from_bytes::<fastnbt::Value>(bytes) {
        Ok(v) => Some(nbt_value_of(v)),
        Err(_) => None,
    }
}

/// Converts a `fastnbt::Value`, variant by variant, into an `NbtValue`:
/// `Short`, `Int` and `ByteArray` keep their contents, a compound's map
/// becomes its list of entries, each value converted in turn, and every
/// other tag becomes `Other`. Trusted through `decode_nbt`, its only caller.
#[verifier::external_body]
fn nbt_value_of(v: fastnbt::Value) -> NbtValue {
    match v {
        fastnbt::Value::Short(s) => NbtValue::Short(s),
        fastnbt::Value::Int(i) => NbtValue::Int(i),
        fastnbt::Value::ByteArray(a) => NbtValue::ByteArray(a.into_inner()),
        fastnbt::Value::Compound(m) => NbtValue::Compound(
            m.into_iter().map(|(k, e)| (k, nbt_value_of(e))).collect(),
        ),
        _ => NbtValue::Other,
    }
}

/// The NBT bytes of a schematic file's content: its gzip decompression
/// when the content is gzip data, the content itself otherwise.
pub fn unpack_schematic_bytes(raw: &[u8]) -> (r: Vec<u8>)
    ensures
        r@ == schematic_bytes(raw@),
{
    match gunzip(raw) {
        Some(v) => v,
        None => slice_to_vec(raw),
    }
}

/// The NBT value of a schematic file's content: the content is unpacked as
/// `unpack_schematic_bytes` does and then decoded; `None` when the unpacked
/// bytes are not a valid NBT value.
pub fn load_schematic_bytes(raw: &[u8]) -> (r: Option<NbtValue>)
    ensures
        match r {
            Some(v) => nbt_decode(schematic_bytes(raw@)) == Some(nbt_tree(v)),
            None => nbt_decode(schematic_bytes(raw@)) is None,
        },
{
    let bytes = unpack_schematic_bytes(raw);
    decode_nbt(bytes.as_slice())
}

} // verus!
