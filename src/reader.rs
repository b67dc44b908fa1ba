use crate::codec::{
    decode_outcome, decode_record, record_size, CodecError, FieldKind, FieldModel,
    Record, Schema,
};
use crate::codec::{encode_record, lemma_decode_encode_record};
use crate::frame::{join, lemma_join_slice};
use crate::layout::{all_fit, encoded_records, file_image, record_pos, HEADER_SIZE};
use vstd::bytes::*;
use vstd::prelude::*;
use vstd::slice::slice_subrange;

verus! {

/// Why a read failed.
#[derive(Clone, Copy, Debug, PartialEq, Eq, Structural)]
pub enum ReadError {
    /// The range is not within `[0, count)` of the stored records, or starts after it ends.
    RangeOutOfBounds { start: u64, end: u64, count: u64 },
    /// Fewer bytes are there than the header promises.
    TruncatedFile,
    /// The slot of the record at this file index holds no record.
    Codec { index: u64, error: CodecError },
}

/// The slot of the `i`-th of the records laid out from the start of `b`.
pub open spec fn slot(kinds: Seq<FieldKind>, b: Seq<u8>, i: int) -> Seq<u8> {
    b.subrange(i * record_size(kinds), (i + 1) * record_size(kinds))
}

pub open spec fn slot_holds_record(kinds: Seq<FieldKind>, b: Seq<u8>, i: int) -> bool {
    decode_record(kinds, slot(kinds, b, i)) is Some
}

pub open spec fn records_result(r: Result<Vec<Record>, ReadError>) -> Result<
    Seq<Seq<FieldModel>>,
    ReadError,
> {
    match r {
        Ok(v) => Ok(v@.map_values(|x: Record| x@)),
        Err(e) => Err(e),
    }
}

/// What decoding `n` consecutive records from the start of `b` gives, where the
/// first of them has file index `first`: the records, a truncation when `b`
/// is too short, or the first slot that holds no record.
pub open spec fn records_outcome(
    kinds: Seq<FieldKind>,
    b: Seq<u8>,
    n: nat,
    first: nat,
    r: Result<Seq<Seq<FieldModel>>, ReadError>,
) -> bool {
    if b.len() < n * record_size(kinds) {
        r == Err::<Seq<Seq<FieldModel>>, ReadError>(ReadError::TruncatedFile)
    } else if forall|i: int| 0 <= i < n ==> #[trigger] slot_holds_record(kinds, b, i) {
        r == Ok::<Seq<Seq<FieldModel>>, ReadError>(
            Seq::new(n, |i: int| decode_record(kinds, slot(kinds, b, i))->Some_0),
        )
    } else {
        r matches Err(ReadError::Codec { index, error }) && first <= index < first + n && {
            let i = index - first;
            &&& !slot_holds_record(kinds, b, i)
            &&& decode_outcome(kinds, slot(kinds, b, i), Err(error))
            &&& forall|j: int| 0 <= j < i ==> #[trigger] slot_holds_record(kinds, b, j)
        }
    }
}

/// The record count that a file's first bytes state.
pub open spec fn stored_count(img: Seq<u8>) -> nat {
    spec_u64_from_le_bytes(img.subrange(0, HEADER_SIZE as int)) as nat
}

/// What reading records `[start, end)` of a file image gives: a truncation
/// when the header is cut short, a bounds error when the range is not
/// within the stored count, else the records that their slots hold.
pub open spec fn read_outcome(
    kinds: Seq<FieldKind>,
    img: Seq<u8>,
    start: nat,
    end: nat,
    r: Result<Seq<Seq<FieldModel>>, ReadError>,
) -> bool {
    if img.len() < HEADER_SIZE {
        r == Err::<Seq<Seq<FieldModel>>, ReadError>(ReadError::TruncatedFile)
    } else if start > end || end > stored_count(img) {
        r == Err::<Seq<Seq<FieldModel>>, ReadError>(
            ReadError::RangeOutOfBounds {
                start: start as u64,
                end: end as u64,
                count: stored_count(img) as u64,
            },
        )
    } else if img.len() < record_pos(record_size(kinds), end) {
        r == Err::<Seq<Seq<FieldModel>>, ReadError>(ReadError::TruncatedFile)
    } else {
        records_outcome(
            kinds,
            img.subrange(
                record_pos(record_size(kinds), start) as int,
                record_pos(record_size(kinds), end) as int,
            ),
            (end - start) as nat,
            start,
            r,
        )
    }
}

/// The record count stated by the header at the start of `bytes`.
pub fn decode_header(bytes: &[u8]) -> (r: Result<u64, ReadError>)
    ensures
        bytes@.len() < HEADER_SIZE ==> r == Err::<u64, ReadError>(ReadError::TruncatedFile),
        bytes@.len() >= HEADER_SIZE ==> r == Ok::<u64, ReadError>(stored_count(bytes@) as u64),
{
    if bytes.len() < 8 {
        Err(ReadError::TruncatedFile)
    } else {
        Ok(u64_from_le_bytes(slice_subrange(bytes, 0, 8)))
    }
}

/// Where the records `[start, end)` of a file of `count` records lie: their
/// file offset and their length in bytes. A range outside `[0, count)` is
/// refused; one that no file could hold reads as a truncation.
pub fn range_span(schema: &Schema, count: u64, start: u64, end: u64) -> (r: Result<
    (u64, u64),
    ReadError,
>)
    requires
        schema.wf(),
    ensures
        start > end || end > count ==> r == Err::<(u64, u64), ReadError>(
            ReadError::RangeOutOfBounds { start, end, count },
        ),
        start <= end <= count && record_pos(record_size(schema.kinds@), end as nat) > u64::MAX
            ==> r == Err::<(u64, u64), ReadError>(ReadError::TruncatedFile),
        start <= end <= count && record_pos(record_size(schema.kinds@), end as nat) <= u64::MAX
            ==> r == Ok::<(u64, u64), ReadError>(
            (
                record_pos(record_size(schema.kinds@), start as nat) as u64,
                ((end - start) * record_size(schema.kinds@)) as u64,
            ),
        ),
{
    if start > end || end > count {
        return Err(ReadError::RangeOutOfBounds { start, end, count });
    }
    let size = schema.size as u64;
    let payload = match end.checked_mul(size) {
        Some(p) => p,
        None => {
            proof {
                assert(end * size > u64::MAX);
            }
            return Err(ReadError::TruncatedFile);
        },
    };
    if payload > u64::MAX - 8 {
        return Err(ReadError::TruncatedFile);
    }
    proof {
        assert(start * size <= end * size) by (nonlinear_arith)
            requires
                start <= end,
        ;
        assert((end - start) * size == end * size - start * size) by (nonlinear_arith);
    }
    Ok((8 + start * size, payload - start * size))
}

/// Decodes `n` consecutive records from the start of `bytes`; the first of
/// them has file index `first`, which error reports count from.
pub fn decode_records(schema: &Schema, bytes: &[u8], n: u64, first: u64) -> (r: Result<
    Vec<Record>,
    ReadError,
>)
    requires
        schema.wf(),
        first + n <= u64::MAX,
    ensures
        records_outcome(schema.kinds@, bytes@, n as nat, first as nat, records_result(r)),
{
    let size = schema.size;
    let len = bytes.len();
    match n.checked_mul(size as u64) {
        Some(total) => {
            if total > len as u64 {
                return Err(ReadError::TruncatedFile);
            }
        },
        None => {
            return Err(ReadError::TruncatedFile);
        },
    }
    let mut out: Vec<Record> = Vec::new();
    let mut i: u64 = 0;
    while i < n
        invariant
            schema.wf(),
            size == schema.size,
            len == bytes@.len(),
            n * size <= len,
            first + n <= u64::MAX,
            i <= n,
            out@.len() == i,
            forall|j: int| 0 <= j < i ==> #[trigger] slot_holds_record(schema.kinds@, bytes@, j),
            forall|j: int|
                0 <= j < i ==> (#[trigger] out@[j])@ == decode_record(
                    schema.kinds@,
                    slot(schema.kinds@, bytes@, j),
                )->Some_0,
        decreases n - i,
    {
        proof {
            assert((i + 1) * size <= n * size) by (nonlinear_arith)
                requires
                    i < n,
            ;
            assert((i + 1) * size == i * size + size) by (nonlinear_arith);
        }
        let at = (i * (size as u64)) as usize;
        let rec = schema.decode_at(bytes, at);
        assert(bytes@.subrange(at as int, at + size) == slot(schema.kinds@, bytes@, i as int));
        match rec {
            Ok(x) => {
                out.push(x);
                i = i + 1;
            },
            Err(e) => {
                assert(slot(schema.kinds@, bytes@, i as int).len() == size);
                assert(!slot_holds_record(schema.kinds@, bytes@, i as int));
                return Err(ReadError::Codec { index: first + i, error: e });
            },
        }
    }
    let ghost want = Seq::new(
        n as nat,
        |j: int| decode_record(schema.kinds@, slot(schema.kinds@, bytes@, j))->Some_0,
    );
    assert(out@.map_values(|x: Record| x@) =~= want);
    Ok(out)
}

/// Reads records `[start, end)` out of a whole file image.
pub fn read_range_image(schema: &Schema, image: &[u8], start: u64, end: u64) -> (r: Result<
    Vec<Record>,
    ReadError,
>)
    requires
        schema.wf(),
    ensures
        read_outcome(schema.kinds@, image@, start as nat, end as nat, records_result(r)),
{
    let ilen: usize = image.len();
    let count = match decode_header(image) {
        Ok(c) => c,
        Err(e) => {
            return Err(e);
        },
    };
    let (offset, len) = match range_span(schema, count, start, end) {
        Ok(span) => span,
        Err(e) => {
            return Err(e);
        },
    };
    proof {
        let size = record_size(schema.kinds@);
        assert(start * size + (end - start) * size == end * size) by (nonlinear_arith)
            requires
                start <= end,
        ;
    }
    if offset > image.len() as u64 || len > image.len() as u64 - offset {
        return Err(ReadError::TruncatedFile);
    }
    let body = slice_subrange(image, offset as usize, (offset + len) as usize);
    decode_records(schema, body, end - start, start)
}

/// Reads every record of a whole file image.
pub fn read_all_image(schema: &Schema, image: &[u8]) -> (r: Result<Vec<Record>, ReadError>)
    requires
        schema.wf(),
    ensures
        image@.len() < HEADER_SIZE ==> r == Err::<Vec<Record>, ReadError>(ReadError::TruncatedFile),
        image@.len() >= HEADER_SIZE ==> read_outcome(
            schema.kinds@,
            image@,
            0,
            stored_count(image@),
            records_result(r),
        ),
{
    match decode_header(image) {
        Ok(count) => read_range_image(schema, image, 0, count),
        Err(e) => Err(e),
    }
}

/// The header of the file that holds `recs` states their count.
pub proof fn lemma_file_image_count(kinds: Seq<FieldKind>, recs: Seq<Seq<FieldModel>>)
    requires
        all_fit(kinds, recs),
        recs.len() <= u64::MAX,
    ensures
        file_image(kinds, recs).len() == record_pos(record_size(kinds), recs.len()),
        stored_count(file_image(kinds, recs)) == recs.len(),
{
    lemma_auto_spec_u64_to_from_le_bytes();
    let img = file_image(kinds, recs);
    let parts = recs.map_values(|r: Seq<FieldModel>| encode_record(kinds, r));
    assert forall|i: int| 0 <= i < parts.len() implies (#[trigger] parts[i]).len() == record_size(
        kinds,
    ) by {
        lemma_decode_encode_record(kinds, recs[i]);
    }
    lemma_join_slice(parts, record_size(kinds), 0, 0);
    assert(img.subrange(0, HEADER_SIZE as int) =~= spec_u64_to_le_bytes(recs.len() as u64));
}

/// The encoded records `[start, end)` sit at their file offsets in the file
/// that holds `recs`.
pub proof fn lemma_file_image_range(
    kinds: Seq<FieldKind>,
    recs: Seq<Seq<FieldModel>>,
    start: nat,
    end: nat,
)
    requires
        all_fit(kinds, recs),
        recs.len() <= u64::MAX,
        start <= end <= recs.len(),
    ensures
        file_image(kinds, recs).subrange(
            record_pos(record_size(kinds), start) as int,
            record_pos(record_size(kinds), end) as int,
        ) == encoded_records(kinds, recs.subrange(start as int, end as int)),
{
    lemma_auto_spec_u64_to_from_le_bytes();
    let size = record_size(kinds);
    let parts = recs.map_values(|r: Seq<FieldModel>| encode_record(kinds, r));
    assert forall|i: int| 0 <= i < parts.len() implies (#[trigger] parts[i]).len() == size by {
        lemma_decode_encode_record(kinds, recs[i]);
    }
    lemma_join_slice(parts, size, start as int, end as int);
    assert(start * size <= end * size <= recs.len() * size) by (nonlinear_arith)
        requires
            start <= end <= recs.len(),
    ;
    assert(parts.subrange(start as int, end as int) =~= recs.subrange(
        start as int,
        end as int,
    ).map_values(|r: Seq<FieldModel>| encode_record(kinds, r)));
    assert(file_image(kinds, recs).subrange(
        record_pos(size, start) as int,
        record_pos(size, end) as int,
    ) =~= join(parts).subrange((start * size) as int, (end * size) as int));
}

/// Reading records `[start, end)` of the file that holds `recs`, for any
/// `start <= end <= recs.len()`, gives exactly `recs[start..end]`.
pub proof fn lemma_read_range_of_written(
    kinds: Seq<FieldKind>,
    recs: Seq<Seq<FieldModel>>,
    start: nat,
    end: nat,
    r: Result<Seq<Seq<FieldModel>>, ReadError>,
)
    requires
        all_fit(kinds, recs),
        recs.len() <= u64::MAX,
        start <= end <= recs.len(),
        read_outcome(kinds, file_image(kinds, recs), start, end, r),
    ensures
        r == Ok::<Seq<Seq<FieldModel>>, ReadError>(recs.subrange(start as int, end as int)),
{
    let size = record_size(kinds);
    let img = file_image(kinds, recs);
    lemma_file_image_count(kinds, recs);
    lemma_file_image_range(kinds, recs, start, end);
    assert(start * size <= end * size <= recs.len() * size) by (nonlinear_arith)
        requires
            start <= end <= recs.len(),
    ;
    let sub = recs.subrange(start as int, end as int);
    let n = (end - start) as nat;
    let parts = sub.map_values(|x: Seq<FieldModel>| encode_record(kinds, x));
    assert forall|i: int| 0 <= i < parts.len() implies (#[trigger] parts[i]).len() == size by {
        lemma_decode_encode_record(kinds, sub[i]);
    }
    let b = img.subrange(record_pos(size, start) as int, record_pos(size, end) as int);
    assert(b == join(parts));
    lemma_join_slice(parts, size, 0, n as int);
    assert forall|i: int| 0 <= i < n implies #[trigger] slot(kinds, b, i) == encode_record(
        kinds,
        sub[i],
    ) by {
        lemma_join_slice(parts, size, i, i + 1);
        assert(parts.subrange(i, i + 1) =~= seq![parts[i]]);
        assert(seq![parts[i]].drop_last() =~= Seq::<Seq<u8>>::empty());
        assert(join(Seq::<Seq<u8>>::empty()) == Seq::<u8>::empty());
        assert(join(seq![parts[i]]) =~= parts[i]);
    }
    assert forall|i: int| 0 <= i < n implies slot_holds_record(kinds, b, i) && decode_record(
        kinds,
        #[trigger] slot(kinds, b, i),
    ) == Some(sub[i]) by {
        assert(slot(kinds, b, i) == encode_record(kinds, sub[i]));
        lemma_decode_encode_record(kinds, sub[i]);
    }
    assert(b.len() >= n * size) by (nonlinear_arith)
        requires
            b.len() == parts.len() * size,
            parts.len() == n,
    ;
    assert(Seq::new(n, |i: int| decode_record(kinds, slot(kinds, b, i))->Some_0) =~= sub);
}

/// Reading the whole file that holds `recs` gives `recs` back.
pub proof fn lemma_read_all_of_written(
    kinds: Seq<FieldKind>,
    recs: Seq<Seq<FieldModel>>,
    r: Result<Seq<Seq<FieldModel>>, ReadError>,
)
    requires
        all_fit(kinds, recs),
        recs.len() <= u64::MAX,
        read_outcome(kinds, file_image(kinds, recs), 0, stored_count(file_image(kinds, recs)), r),
    ensures
        r == Ok::<Seq<Seq<FieldModel>>, ReadError>(recs),
{
    lemma_file_image_count(kinds, recs);
    lemma_read_range_of_written(kinds, recs, 0, recs.len(), r);
    assert(recs.subrange(0, recs.len() as int) =~= recs);
}

/// A range that ends past the stored count is refused with a bounds error
/// before any record is read.
pub proof fn lemma_read_past_count_refused(
    kinds: Seq<FieldKind>,
    recs: Seq<Seq<FieldModel>>,
    r: Result<Seq<Seq<FieldModel>>, ReadError>,
)
    requires
        all_fit(kinds, recs),
        recs.len() < u64::MAX,
        read_outcome(kinds, file_image(kinds, recs), 0, recs.len() + 1, r),
    ensures
        r == Err::<Seq<Seq<FieldModel>>, ReadError>(
            ReadError::RangeOutOfBounds {
                start: 0,
                end: (recs.len() + 1) as u64,
                count: recs.len() as u64,
            },
        ),
{
    lemma_file_image_count(kinds, recs);
}

} // verus!
