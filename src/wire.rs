//! The persisted form of an index, written and read with bincode.
use vstd::prelude::*;

verus! {

/// One index entry as plain values: the key's type tag, its declared width,
/// its encoding, and the (page, cell) pairs listed for it.
pub type WireEntry = (u8, u8, Vec<u8>, Vec<(u64, u16)>);

pub type WireModel = (u8, u8, Seq<u8>, Seq<(u64, u16)>);

pub open spec fn wire_view(entries: Seq<WireEntry>) -> Seq<WireModel> {
    entries.map_values(|e: WireEntry| (e.0, e.1, e.2@, e.3@))
}

/// The most memory, in bytes, that decoding may reserve.
pub const DECODE_LIMIT: usize = 1 << 28;

/// A bound on what decoding the entries reserves: each entry, its key bytes
/// and its pairs, with room for lengths and padding.
pub open spec fn wire_footprint(entries: Seq<WireModel>) -> nat
    decreases entries.len(),
{
    if entries.len() == 0 {
        16
    } else {
        let e = entries.last();
        wire_footprint(entries.drop_last()) + 128 + e.2.len() + 32 * e.3.len()
    }
}

/// The bytes bincode's standard little-endian configuration gives for a list
/// of entries.
pub uninterp spec fn bincode_bytes(entries: Seq<WireModel>) -> Seq<u8>;

/// Relies on `bincode::encode_to_vec` with `config::standard().with_little_endian()`:
/// the bytes depend on the entries alone, and writing them to a `Vec` cannot
/// fail for these types.
#[verifier::external_body]
pub(crate) fn encode_entries(entries: &Vec<WireEntry>) -> (r: Option<Vec<u8>>)
    ensures
        r is Some,
        r matches Some(b) ==> b@ == bincode_bytes(wire_view(entries@)),
{
    let config = bincode::config::standard().with_little_endian();
    bincode::encode_to_vec(entries, config).ok()
}

/// Relies on `bincode::decode_from_slice` with the same configuration and a
/// limit of `DECODE_LIMIT` bytes, so that a length read from corrupted bytes
/// makes it fail instead of reserving memory: it reads back what
/// `encode_to_vec` wrote, whenever that stays within the limit.
#[verifier::external_body]
pub(crate) fn decode_entries(bytes: &[u8]) -> (r: Option<Vec<WireEntry>>)
    ensures
        forall|x: Seq<WireModel>|
            #[trigger] bincode_bytes(x) == bytes@ && wire_footprint(x) <= DECODE_LIMIT ==> r is Some
                && wire_view(r->Some_0@) == x,
{
    let config = bincode::config::standard().with_little_endian().with_limit::<DECODE_LIMIT>();
    match bincode::decode_from_slice::<Vec<WireEntry>, _>(bytes, config) {
        Ok((entries, _)) => Some(entries),
        Err(_) => None,
    }
}

} // verus!
