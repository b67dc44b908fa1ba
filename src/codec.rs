use vstd::bytes::*;
use vstd::prelude::*;
use vstd::slice::slice_subrange;
use vstd::utf8::{
    decode_utf8, decode_utf8_encode_utf8, encode_utf8, encode_utf8_decode_utf8,
    encode_utf8_valid_utf8, valid_utf8,
};

verus! {

/// The shape of one field of a record, which fixes the width of its slot.
#[derive(Clone, Copy, Debug, PartialEq, Eq, Structural)]
pub enum FieldKind {
    /// A signed 64-bit integer, 8 bytes little-endian.
    Int64,
    /// A signed 32-bit integer, 4 bytes little-endian.
    Int32,
    /// A 64-bit float held as its IEEE-754 bit pattern, 8 bytes little-endian.
    Float64,
    /// A boolean, one byte that is 0 or 1.
    Bool,
    /// Text whose UTF-8 encoding has at most the given number of bytes: a
    /// 2-byte length prefix and a slot of that many bytes, zero-padded.
    Text(u16),
}

/// One field value of a record.
#[derive(Clone, Debug, PartialEq)]
pub enum FieldValue {
    Int64(i64),
    Int32(i32),
    /// The IEEE-754 bit pattern of a 64-bit float.
    Float64(u64),
    Bool(bool),
    Text(String),
}

/// What a field value is, with text as a sequence of characters.
pub enum FieldModel {
    Int64(i64),
    Int32(i32),
    Float64(u64),
    Bool(bool),
    Text(Seq<char>),
}

impl View for FieldValue {
    type V = FieldModel;

    open spec fn view(&self) -> FieldModel {
        match self {
            FieldValue::Int64(x) => FieldModel::Int64(*x),
            FieldValue::Int32(x) => FieldModel::Int32(*x),
            FieldValue::Float64(b) => FieldModel::Float64(*b),
            FieldValue::Bool(b) => FieldModel::Bool(*b),
            FieldValue::Text(t) => FieldModel::Text(t@),
        }
    }
}

/// One record: its field values in schema order.
#[derive(Clone, Debug, PartialEq)]
pub struct Record {
    pub fields: Vec<FieldValue>,
}

impl View for Record {
    type V = Seq<FieldModel>;

    open spec fn view(&self) -> Seq<FieldModel> {
        self.fields@.map_values(|v: FieldValue| v@)
    }
}

/// The models of a sequence of records.
pub open spec fn records_view(rs: Seq<Record>) -> Seq<Seq<FieldModel>> {
    rs.map_values(|r: Record| r@)
}

/// Why a record could not be encoded or decoded.
#[derive(Clone, Copy, Debug, PartialEq, Eq, Structural)]
pub enum CodecError {
    /// A span handed to the decoder is not exactly one record long.
    LengthMismatch { expected: u64, actual: u64 },
    /// The record's field count differs from the schema's.
    FieldCountMismatch { expected: u64, actual: u64 },
    /// The field at this index does not have the schema's kind, or its text
    /// is longer than the slot.
    FieldMismatch { index: u64 },
    /// The slot of the field at this index holds no value of its kind (a
    /// boolean byte other than 0 or 1, a text length beyond the slot).
    InvalidField { index: u64 },
}

pub open spec fn field_width(k: FieldKind) -> nat {
    match k {
        FieldKind::Int64 => 8,
        FieldKind::Int32 => 4,
        FieldKind::Float64 => 8,
        FieldKind::Bool => 1,
        FieldKind::Text(m) => (2 + m) as nat,
    }
}

/// The number of bytes that one record of these field kinds occupies.
pub open spec fn record_size(kinds: Seq<FieldKind>) -> nat
    decreases kinds.len(),
{
    if kinds.len() == 0 {
        0
    } else {
        record_size(kinds.drop_last()) + field_width(kinds.last())
    }
}

/// Where the slot of field `i` starts within a record.
pub open spec fn field_offset(kinds: Seq<FieldKind>, i: int) -> nat {
    record_size(kinds.subrange(0, i))
}

/// The maximum text length of a kind, and 0 for the other kinds.
pub open spec fn text_limit(k: FieldKind) -> nat {
    match k {
        FieldKind::Text(m) => m as nat,
        _ => 0,
    }
}

pub open spec fn field_fits(k: FieldKind, v: FieldModel) -> bool {
    match k {
        FieldKind::Int64 => v is Int64,
        FieldKind::Int32 => v is Int32,
        FieldKind::Float64 => v is Float64,
        FieldKind::Bool => v is Bool,
        FieldKind::Text(m) => v is Text && encode_utf8(v->Text_0).len() <= m,
    }
}

/// A record has the schema's shape: one value per field kind, each of its
/// kind, no text longer than its slot.
pub open spec fn record_fits(kinds: Seq<FieldKind>, r: Seq<FieldModel>) -> bool {
    &&& r.len() == kinds.len()
    &&& forall|i: int| 0 <= i < kinds.len() ==> #[trigger] field_fits(kinds[i], r[i])
}

pub open spec fn zeros(n: nat) -> Seq<u8> {
    Seq::new(n, |i: int| 0u8)
}

/// The slot bytes of one field value.
pub open spec fn encode_field(k: FieldKind, v: FieldModel) -> Seq<u8> {
    match v {
        FieldModel::Int64(x) => spec_u64_to_le_bytes(x as u64),
        FieldModel::Int32(x) => spec_u32_to_le_bytes(x as u32),
        FieldModel::Float64(b) => spec_u64_to_le_bytes(b),
        FieldModel::Bool(b) => seq![if b { 1u8 } else { 0u8 }],
        FieldModel::Text(t) => {
            let b = encode_utf8(t);
            spec_u16_to_le_bytes(b.len() as u16) + b + zeros((text_limit(k) - b.len()) as nat)
        },
    }
}

/// The slots of the first `n` fields, one after the other.
pub open spec fn encode_fields(kinds: Seq<FieldKind>, r: Seq<FieldModel>, n: nat) -> Seq<u8>
    decreases n,
{
    if n == 0 {
        Seq::empty()
    } else {
        encode_fields(kinds, r, (n - 1) as nat) + encode_field(kinds[n - 1], r[n - 1])
    }
}

/// The bytes of one record.
pub open spec fn encode_record(kinds: Seq<FieldKind>, r: Seq<FieldModel>) -> Seq<u8> {
    encode_fields(kinds, r, kinds.len())
}

/// The value held by one slot, if the slot holds one.
pub open spec fn decode_field(k: FieldKind, b: Seq<u8>) -> Option<FieldModel> {
    match k {
        FieldKind::Int64 => Some(FieldModel::Int64(spec_u64_from_le_bytes(b) as i64)),
        FieldKind::Int32 => Some(FieldModel::Int32(spec_u32_from_le_bytes(b) as i32)),
        FieldKind::Float64 => Some(FieldModel::Float64(spec_u64_from_le_bytes(b))),
        FieldKind::Bool => if b[0] == 0 {
            Some(FieldModel::Bool(false))
        } else if b[0] == 1 {
            Some(FieldModel::Bool(true))
        } else {
            None
        },
        FieldKind::Text(m) => {
            let n = spec_u16_from_le_bytes(b.subrange(0, 2));
            if n <= m && valid_utf8(b.subrange(2, 2 + n)) {
                Some(FieldModel::Text(decode_utf8(b.subrange(2, 2 + n))))
            } else {
                None
            }
        },
    }
}

/// The bytes of the slot of field `i` within a record's bytes.
pub open spec fn field_slot(kinds: Seq<FieldKind>, b: Seq<u8>, i: int) -> Seq<u8> {
    b.subrange(field_offset(kinds, i) as int, field_offset(kinds, i + 1) as int)
}

pub open spec fn slot_decodes(kinds: Seq<FieldKind>, b: Seq<u8>, i: int) -> bool {
    decode_field(kinds[i], field_slot(kinds, b, i)) is Some
}

/// The record held by a span of bytes: present when the span is one record
/// long and every slot holds a value of its kind.
pub open spec fn decode_record(kinds: Seq<FieldKind>, b: Seq<u8>) -> Option<Seq<FieldModel>> {
    if b.len() == record_size(kinds) && forall|i: int|
        0 <= i < kinds.len() ==> #[trigger] slot_decodes(kinds, b, i) {
        Some(Seq::new(kinds.len(), |i: int| decode_field(kinds[i], field_slot(kinds, b, i))->Some_0))
    } else {
        None
    }
}

pub proof fn lemma_record_size_prefix(kinds: Seq<FieldKind>, i: int)
    requires
        0 < i <= kinds.len(),
    ensures
        field_offset(kinds, i) == field_offset(kinds, i - 1) + field_width(kinds[i - 1]),
{
    assert(kinds.subrange(0, i).drop_last() =~= kinds.subrange(0, i - 1));
}

pub proof fn lemma_offsets_grow(kinds: Seq<FieldKind>, i: int, j: int)
    requires
        0 <= i <= j <= kinds.len(),
    ensures
        field_offset(kinds, i) <= field_offset(kinds, j),
        field_offset(kinds, kinds.len() as int) == record_size(kinds),
    decreases j - i,
{
    assert(kinds.subrange(0, kinds.len() as int) =~= kinds);
    if i < j {
        lemma_record_size_prefix(kinds, j);
        lemma_offsets_grow(kinds, i, j - 1);
    }
}

pub proof fn lemma_encode_fields_len(kinds: Seq<FieldKind>, r: Seq<FieldModel>, n: nat)
    requires
        record_fits(kinds, r),
        n <= kinds.len(),
    ensures
        encode_fields(kinds, r, n).len() == field_offset(kinds, n as int),
    decreases n,
{
    if n == 0 {
        assert(kinds.subrange(0, 0).len() == 0);
    } else {
        lemma_encode_fields_len(kinds, r, (n - 1) as nat);
        lemma_record_size_prefix(kinds, n as int);
        lemma_auto_spec_u64_to_from_le_bytes();
        lemma_auto_spec_u32_to_from_le_bytes();
        lemma_auto_spec_u16_to_from_le_bytes();
        assert(field_fits(kinds[n - 1], r[n - 1]));
    }
}

pub proof fn lemma_encode_fields_slot(kinds: Seq<FieldKind>, r: Seq<FieldModel>, n: nat, i: int)
    requires
        record_fits(kinds, r),
        0 <= i < n <= kinds.len(),
    ensures
        encode_fields(kinds, r, n).subrange(
            field_offset(kinds, i) as int,
            field_offset(kinds, i + 1) as int,
        ) == encode_field(kinds[i], r[i]),
    decreases n,
{
    let prev = encode_fields(kinds, r, (n - 1) as nat);
    lemma_encode_fields_len(kinds, r, (n - 1) as nat);
    lemma_encode_fields_len(kinds, r, n);
    lemma_record_size_prefix(kinds, i + 1);
    if i == n - 1 {
        assert(encode_fields(kinds, r, n).subrange(
            field_offset(kinds, i) as int,
            field_offset(kinds, i + 1) as int,
        ) =~= encode_field(kinds[i], r[i]));
    } else {
        lemma_encode_fields_slot(kinds, r, (n - 1) as nat, i);
        lemma_offsets_grow(kinds, i + 1, n - 1);
        assert(encode_fields(kinds, r, n).subrange(
            field_offset(kinds, i) as int,
            field_offset(kinds, i + 1) as int,
        ) =~= prev.subrange(field_offset(kinds, i) as int, field_offset(kinds, i + 1) as int));
    }
}

pub proof fn lemma_decode_encode_field(k: FieldKind, v: FieldModel)
    requires
        field_fits(k, v),
    ensures
        decode_field(k, encode_field(k, v)) == Some(v),
        encode_field(k, v).len() == field_width(k),
{
    lemma_auto_spec_u64_to_from_le_bytes();
    lemma_auto_spec_u32_to_from_le_bytes();
    lemma_auto_spec_u16_to_from_le_bytes();
    match v {
        FieldModel::Int64(x) => {
            let u = x as u64;
            assert(u as i64 == x) by (bit_vector)
                requires
                    u == x as u64,
            ;
        },
        FieldModel::Int32(x) => {
            let u = x as u32;
            assert(u as i32 == x) by (bit_vector)
                requires
                    u == x as u32,
            ;
            assert(encode_field(k, v) == spec_u32_to_le_bytes(u));
            assert(spec_u32_from_le_bytes(spec_u32_to_le_bytes(u)) == u);
        },
        FieldModel::Text(t) => {
            let e = encode_field(k, v);
            let b = encode_utf8(t);
            let len = b.len() as u16;
            assert(len == b.len());
            assert(e.subrange(0, 2) =~= spec_u16_to_le_bytes(len));
            assert(e.subrange(2, 2 + b.len() as int) =~= b);
            encode_utf8_valid_utf8(t);
            encode_utf8_decode_utf8(t);
        },
        _ => {},
    }
}

/// Decoding the bytes of a record that has the schema's shape gives the record back.
pub proof fn lemma_decode_encode_record(kinds: Seq<FieldKind>, r: Seq<FieldModel>)
    requires
        record_fits(kinds, r),
    ensures
        encode_record(kinds, r).len() == record_size(kinds),
        decode_record(kinds, encode_record(kinds, r)) == Some(r),
{
    let b = encode_record(kinds, r);
    lemma_encode_fields_len(kinds, r, kinds.len());
    lemma_offsets_grow(kinds, 0, kinds.len() as int);
    assert forall|i: int| 0 <= i < kinds.len() implies decode_field(
        kinds[i],
        field_slot(kinds, b, i),
    ) == Some(r[i]) by {
        lemma_encode_fields_slot(kinds, r, kinds.len(), i);
        lemma_decode_encode_field(kinds[i], r[i]);
    }
    assert forall|i: int| 0 <= i < kinds.len() implies #[trigger] slot_decodes(kinds, b, i) by {
        assert(decode_field(kinds[i], field_slot(kinds, b, i)) == Some(r[i]));
    }
    assert(Seq::new(kinds.len(), |i: int| decode_field(kinds[i], field_slot(kinds, b, i))->Some_0)
        =~= r);
}

/// A record is no longer than its field count times the widest slot.
pub proof fn lemma_record_size_bound(kinds: Seq<FieldKind>, w: nat)
    requires
        forall|i: int| 0 <= i < kinds.len() ==> field_width(#[trigger] kinds[i]) <= w,
    ensures
        record_size(kinds) <= kinds.len() * w,
    decreases kinds.len(),
{
    if kinds.len() > 0 {
        let rest = kinds.drop_last();
        assert(forall|i: int| 0 <= i < rest.len() ==> rest[i] == kinds[i]);
        lemma_record_size_bound(rest, w);
        assert(field_width(kinds[kinds.len() - 1]) <= w);
        assert(kinds.len() * w == rest.len() * w + w) by (nonlinear_arith)
            requires
                rest.len() == kinds.len() - 1,
        ;
    }
}

/// Whatever a span decodes to has the schema's shape.
pub proof fn lemma_decoded_record_fits(kinds: Seq<FieldKind>, b: Seq<u8>)
    requires
        decode_record(kinds, b) is Some,
    ensures
        record_fits(kinds, decode_record(kinds, b)->Some_0),
{
    broadcast use decode_utf8_encode_utf8;

    let r = decode_record(kinds, b)->Some_0;
    assert forall|i: int| 0 <= i < kinds.len() implies #[trigger] field_fits(kinds[i], r[i]) by {
        assert(slot_decodes(kinds, b, i));
        lemma_offsets_grow(kinds, i, i + 1);
        lemma_offsets_grow(kinds, i + 1, kinds.len() as int);
        lemma_record_size_prefix(kinds, i + 1);
    }
}

/// The field kinds of the records that one file holds, with the size of
/// one encoded record.
pub struct Schema {
    pub kinds: Vec<FieldKind>,
    pub size: usize,
}

impl Schema {
    pub open spec fn wf(&self) -> bool {
        self.size == record_size(self.kinds@)
    }

    /// A schema of these field kinds; `None` when one record would not fit
    /// in the address space.
    pub fn new(kinds: Vec<FieldKind>) -> (r: Option<Schema>)
        ensures
            r is Some <==> record_size(kinds@) <= usize::MAX,
            r matches Some(s) ==> s.wf() && s.kinds@ == kinds@,
    {
        let mut size: usize = 0;
        let mut i: usize = 0;
        while i < kinds.len()
            invariant
                i <= kinds@.len(),
                size == field_offset(kinds@, i as int),
            decreases kinds@.len() - i,
        {
            proof {
                lemma_record_size_prefix(kinds@, i + 1);
            }
            match size.checked_add(kind_width(kinds[i])) {
                Some(n) => size = n,
                None => {
                    proof {
                        lemma_offsets_grow(kinds@, i + 1, kinds@.len() as int);
                    }
                    return None;
                },
            }
            i = i + 1;
        }
        proof {
            lemma_offsets_grow(kinds@, 0, kinds@.len() as int);
        }
        Some(Schema { kinds, size })
    }

    /// The bytes of one record, or the first way in which it does not have
    /// the schema's shape.
    pub fn encode(&self, rec: &Record) -> (r: Result<Vec<u8>, CodecError>)
        requires
            self.wf(),
        ensures
            encode_outcome(self.kinds@, rec@, bytes_result(r)),
    {
        let mut out: Vec<u8> = Vec::new();
        match self.encode_into(rec, &mut out) {
            Ok(()) => {
                assert(out@ =~= encode_record(self.kinds@, rec@));
                Ok(out)
            },
            Err(e) => Err(e),
        }
    }

    /// Appends the bytes of one record to `out`, or leaves `out` as it is and
    /// reports the first way in which the record does not have the schema's shape.
    pub fn encode_into(&self, rec: &Record, out: &mut Vec<u8>) -> (r: Result<(), CodecError>)
        requires
            self.wf(),
        ensures
            encode_outcome(
                self.kinds@,
                rec@,
                match r {
                    Ok(_) => Ok(encode_record(self.kinds@, rec@)),
                    Err(e) => Err(e),
                },
            ),
            r is Ok ==> final(out)@ == old(out)@ + encode_record(self.kinds@, rec@),
            r is Err ==> final(out)@ == old(out)@,
    {
        let n = self.kinds.len();
        if rec.fields.len() != n {
            return Err(
                CodecError::FieldCountMismatch { expected: n as u64, actual: rec.fields.len() as u64 },
            );
        }
        let mut i: usize = 0;
        while i < n
            invariant
                n == self.kinds@.len(),
                rec@.len() == n,
                i <= n,
                forall|j: int| 0 <= j < i ==> #[trigger] field_fits(self.kinds@[j], rec@[j]),
            decreases n - i,
        {
            assert(rec@[i as int] == rec.fields@[i as int]@);
            if !value_fits(self.kinds[i], &rec.fields[i]) {
                return Err(CodecError::FieldMismatch { index: i as u64 });
            }
            i = i + 1;
        }
        let ghost start = out@;
        let mut i: usize = 0;
        while i < n
            invariant
                n == self.kinds@.len(),
                record_fits(self.kinds@, rec@),
                i <= n,
                out@ == start + encode_fields(self.kinds@, rec@, i as nat),
            decreases n - i,
        {
            assert(rec@[i as int] == rec.fields@[i as int]@);
            assert(field_fits(self.kinds@[i as int], rec@[i as int]));
            encode_field_into(out, self.kinds[i], &rec.fields[i]);
            i = i + 1;
            assert(out@ =~= start + encode_fields(self.kinds@, rec@, i as nat));
        }
        Ok(())
    }

    /// The record held by a span that should be exactly one record long.
    pub fn decode(&self, bytes: &[u8]) -> (r: Result<Record, CodecError>)
        requires
            self.wf(),
        ensures
            decode_outcome(self.kinds@, bytes@, record_result(r)),
    {
        if bytes.len() != self.size {
            return Err(
                CodecError::LengthMismatch { expected: self.size as u64, actual: bytes.len() as u64 },
            );
        }
        let r = self.decode_at(bytes, 0);
        assert(bytes@.subrange(0, self.size as int) =~= bytes@);
        r
    }

    /// The record whose slot starts at `start` within `bytes`.
    pub fn decode_at(&self, bytes: &[u8], start: usize) -> (r: Result<Record, CodecError>)
        requires
            self.wf(),
            start + self.size <= bytes@.len(),
        ensures
            decode_outcome(
                self.kinds@,
                bytes@.subrange(start as int, start + self.size),
                record_result(r),
            ),
    {
        let ghost span = bytes@.subrange(start as int, start + self.size);
        let len: usize = bytes.len();
        let n = self.kinds.len();
        let mut fields: Vec<FieldValue> = Vec::new();
        let mut pos: usize = start;
        let mut i: usize = 0;
        proof {
            lemma_offsets_grow(self.kinds@, 0, n as int);
            assert(self.kinds@.subrange(0, 0).len() == 0);
        }
        while i < n
            invariant
                self.wf(),
                len == bytes@.len(),
                n == self.kinds@.len(),
                start + self.size <= bytes@.len(),
                span == bytes@.subrange(start as int, start + self.size),
                i <= n,
                pos == start + field_offset(self.kinds@, i as int),
                fields@.len() == i,
                forall|j: int| 0 <= j < i ==> #[trigger] slot_decodes(self.kinds@, span, j),
                forall|j: int|
                    0 <= j < i ==> Some(#[trigger] fields@[j]@) == decode_field(
                        self.kinds@[j],
                        field_slot(self.kinds@, span, j),
                    ),
            decreases n - i,
        {
            let k = self.kinds[i];
            proof {
                lemma_record_size_prefix(self.kinds@, i + 1);
                lemma_offsets_grow(self.kinds@, i + 1, n as int);
                assert(field_slot(self.kinds@, span, i as int) =~= bytes@.subrange(
                    pos as int,
                    pos + field_width(k),
                ));
            }
            match decode_field_at(k, bytes, pos) {
                Some(v) => {
                    fields.push(v);
                    pos = pos + kind_width(k);
                    i = i + 1;
                },
                None => {
                    assert(!slot_decodes(self.kinds@, span, i as int));
                    return Err(CodecError::InvalidField { index: i as u64 });
                },
            }
        }
        let rec = Record { fields };
        assert(rec@ =~= Seq::new(
            n as nat,
            |j: int| decode_field(self.kinds@[j], field_slot(self.kinds@, span, j))->Some_0,
        ));
        Ok(rec)
    }
}

pub open spec fn bytes_result(r: Result<Vec<u8>, CodecError>) -> Result<Seq<u8>, CodecError> {
    match r {
        Ok(b) => Ok(b@),
        Err(e) => Err(e),
    }
}

pub open spec fn record_result(r: Result<Record, CodecError>) -> Result<Seq<FieldModel>, CodecError> {
    match r {
        Ok(x) => Ok(x@),
        Err(e) => Err(e),
    }
}

/// What encoding a record gives: its bytes when it has the schema's shape,
/// else the first mismatch.
pub open spec fn encode_outcome(
    kinds: Seq<FieldKind>,
    rec: Seq<FieldModel>,
    r: Result<Seq<u8>, CodecError>,
) -> bool {
    if rec.len() != kinds.len() {
        r == Err::<Seq<u8>, CodecError>(
            CodecError::FieldCountMismatch { expected: kinds.len() as u64, actual: rec.len() as u64 },
        )
    } else if record_fits(kinds, rec) {
        r == Ok::<Seq<u8>, CodecError>(encode_record(kinds, rec))
    } else {
        r matches Err(CodecError::FieldMismatch { index }) && index < kinds.len()
            && !field_fits(kinds[index as int], rec[index as int]) && forall|j: int|
            0 <= j < index ==> #[trigger] field_fits(kinds[j], rec[j])
    }
}

/// What decoding a span gives: the record it holds, a length mismatch, or
/// the first slot that holds no value of its kind.
pub open spec fn decode_outcome(
    kinds: Seq<FieldKind>,
    b: Seq<u8>,
    r: Result<Seq<FieldModel>, CodecError>,
) -> bool {
    if b.len() != record_size(kinds) {
        r == Err::<Seq<FieldModel>, CodecError>(
            CodecError::LengthMismatch { expected: record_size(kinds) as u64, actual: b.len() as u64 },
        )
    } else if decode_record(kinds, b) is Some {
        r == Ok::<Seq<FieldModel>, CodecError>(decode_record(kinds, b)->Some_0)
    } else {
        r matches Err(CodecError::InvalidField { index }) && index < kinds.len()
            && !slot_decodes(kinds, b, index as int) && forall|j: int|
            0 <= j < index ==> #[trigger] slot_decodes(kinds, b, j)
    }
}

fn kind_width(k: FieldKind) -> (w: usize)
    ensures
        w == field_width(k),
{
    match k {
        FieldKind::Int64 => 8,
        FieldKind::Int32 => 4,
        FieldKind::Float64 => 8,
        FieldKind::Bool => 1,
        FieldKind::Text(m) => 2 + m as usize,
    }
}

fn value_fits(k: FieldKind, v: &FieldValue) -> (r: bool)
    ensures
        r == field_fits(k, v@),
{
    match k {
        FieldKind::Int64 => matches!(v, FieldValue::Int64(_)),
        FieldKind::Int32 => matches!(v, FieldValue::Int32(_)),
        FieldKind::Float64 => matches!(v, FieldValue::Float64(_)),
        FieldKind::Bool => matches!(v, FieldValue::Bool(_)),
        FieldKind::Text(m) => match v {
            FieldValue::Text(t) => {
                let text = t.as_str().as_bytes();
                text.len() <= m as usize
            },
            _ => false,
        },
    }
}

fn encode_field_into(out: &mut Vec<u8>, k: FieldKind, v: &FieldValue)
    requires
        field_fits(k, v@),
    ensures
        final(out)@ == old(out)@ + encode_field(k, v@),
{
    match v {
        FieldValue::Int64(x) => {
            let mut b = u64_to_le_bytes(*x as u64);
            out.append(&mut b);
        },
        FieldValue::Int32(x) => {
            let mut b = u32_to_le_bytes(*x as u32);
            out.append(&mut b);
        },
        FieldValue::Float64(x) => {
            let mut b = u64_to_le_bytes(*x);
            out.append(&mut b);
        },
        FieldValue::Bool(x) => {
            out.push(if *x { 1u8 } else { 0u8 });
            assert(out@ =~= old(out)@ + encode_field(k, v@));
        },
        FieldValue::Text(t) => {
            let m: usize = match k {
                FieldKind::Text(m) => m as usize,
                _ => 0,
            };
            let text = t.as_str().as_bytes();
            let ghost tb = encode_utf8(t@);
            assert(text@ == tb);
            let ghost head = old(out)@ + spec_u16_to_le_bytes(tb.len() as u16);
            let mut b = u16_to_le_bytes(text.len() as u16);
            out.append(&mut b);
            let mut i: usize = 0;
            while i < text.len()
                invariant
                    text@ == tb,
                    i <= tb.len(),
                    out@ == head + tb.subrange(0, i as int),
                decreases tb.len() - i,
            {
                out.push(text[i]);
                i = i + 1;
                assert(out@ =~= head + tb.subrange(0, i as int));
            }
            assert(tb.subrange(0, tb.len() as int) =~= tb);
            let mut j: usize = text.len();
            while j < m
                invariant
                    tb.len() <= j <= m,
                    m == text_limit(k),
                    out@ == head + tb + zeros((j - tb.len()) as nat),
                decreases m - j,
            {
                out.push(0u8);
                j = j + 1;
                assert(out@ =~= head + tb + zeros((j - tb.len()) as nat));
            }
        },
    }
}

/// Relies on `String::from_utf8`: it succeeds exactly when the bytes are
/// well-formed UTF-8, and the string then holds the characters they encode.
#[verifier::external_body]
fn text_from_utf8(bytes: Vec<u8>) -> (r: Option<String>)
    ensures
        r is Some <==> valid_utf8(bytes@),
        r matches Some(s) ==> s@ == decode_utf8(bytes@),
{
    String::from_utf8(bytes).ok()
}

fn decode_field_at(k: FieldKind, bytes: &[u8], pos: usize) -> (r: Option<FieldValue>)
    requires
        pos + field_width(k) <= bytes@.len(),
    ensures
        r is None <==> decode_field(k, bytes@.subrange(pos as int, pos + field_width(k))) is None,
        r matches Some(v) ==> Some(v@) == decode_field(
            k,
            bytes@.subrange(pos as int, pos + field_width(k)),
        ),
{
    let ghost slot = bytes@.subrange(pos as int, pos + field_width(k));
    let len: usize = bytes.len();
    match k {
        FieldKind::Int64 => {
            let x = u64_from_le_bytes(slice_subrange(bytes, pos, pos + 8));
            Some(FieldValue::Int64(x as i64))
        },
        FieldKind::Int32 => {
            let x = u32_from_le_bytes(slice_subrange(bytes, pos, pos + 4));
            Some(FieldValue::Int32(x as i32))
        },
        FieldKind::Float64 => {
            let x = u64_from_le_bytes(slice_subrange(bytes, pos, pos + 8));
            Some(FieldValue::Float64(x))
        },
        FieldKind::Bool => {
            if bytes[pos] == 0 {
                Some(FieldValue::Bool(false))
            } else if bytes[pos] == 1 {
                Some(FieldValue::Bool(true))
            } else {
                None
            }
        },
        FieldKind::Text(m) => {
            assert(slot.subrange(0, 2) =~= bytes@.subrange(pos as int, pos + 2));
            let n = u16_from_le_bytes(slice_subrange(bytes, pos, pos + 2));
            if n > m {
                return None;
            }
            let raw = vstd::slice::slice_to_vec(
                slice_subrange(bytes, pos + 2, pos + 2 + n as usize),
            );
            assert(slot.subrange(2, 2 + n) =~= raw@);
            match text_from_utf8(raw) {
                Some(t) => Some(FieldValue::Text(t)),
                None => None,
            }
        },
    }
}

} // verus!
