use crate::codec::{encode_record, record_fits, FieldKind, FieldModel};
use crate::frame::join;
use vstd::bytes::*;
use vstd::prelude::*;

verus! {

/// The header at offset 0: the record count as a little-endian `u64`.
pub const HEADER_SIZE: u64 = 8;

/// Every record has the schema's shape.
pub open spec fn all_fit(kinds: Seq<FieldKind>, recs: Seq<Seq<FieldModel>>) -> bool {
    forall|i: int| 0 <= i < recs.len() ==> record_fits(kinds, #[trigger] recs[i])
}

/// The encoded records, one slot after the other.
pub open spec fn encoded_records(kinds: Seq<FieldKind>, recs: Seq<Seq<FieldModel>>) -> Seq<u8> {
    join(recs.map_values(|r: Seq<FieldModel>| encode_record(kinds, r)))
}

/// The whole file that holds these records: the header, then the records.
pub open spec fn file_image(kinds: Seq<FieldKind>, recs: Seq<Seq<FieldModel>>) -> Seq<u8> {
    spec_u64_to_le_bytes(recs.len() as u64) + encoded_records(kinds, recs)
}

/// The file offset of record `i`.
pub open spec fn record_pos(size: nat, i: nat) -> nat {
    (HEADER_SIZE + i * size) as nat
}

/// The 8 header bytes that state a record count.
pub fn encode_header(count: u64) -> (r: Vec<u8>)
    ensures
        r@ == spec_u64_to_le_bytes(count),
        r@.len() == HEADER_SIZE,
{
    u64_to_le_bytes(count)
}

} // verus!
