use yohsin::checkpoint::CheckpointTable;
use yohsin::{
    decode_header, encode_header, encode_shard, finish_write, plan_shards, prepare_write,
    range_span, read_all_image, read_range_image, shard_offset, CodecError, FieldKind, FieldValue,
    ReadError, Record, Schema, Shard, WriteError,
};

fn test_schema() -> Schema {
    Schema::new(vec![
        FieldKind::Int64,
        FieldKind::Text(8),
        FieldKind::Bool,
        FieldKind::Float64,
        FieldKind::Int32,
    ])
    .unwrap()
}

fn test_record(i: u64) -> Record {
    Record {
        fields: vec![
            FieldValue::Int64(i as i64 * 1000 - 7),
            FieldValue::Text(format!("r{}", i)),
            FieldValue::Bool(i % 2 == 0),
            FieldValue::Float64((i as f64 * 1.5).to_bits()),
            FieldValue::Int32(-(i as i32)),
        ],
    }
}

fn test_records(n: u64) -> Vec<Record> {
    (0..n).map(test_record).collect()
}

fn place(image: &mut Vec<u8>, offset: u64, bytes: &[u8]) {
    let at = offset as usize;
    image[at..at + bytes.len()].copy_from_slice(bytes);
}

/// Runs the write protocol into an in-memory file: header, then the given
/// shards, each reported to the table once its bytes are placed.
fn run(schema: &Schema, records: &[Record], image: &mut Vec<u8>, table: &mut CheckpointTable, shards: &[Shard]) {
    place(image, 0, &encode_header(records.len() as u64));
    for s in shards {
        let bytes = encode_shard(schema, records, *s);
        place(image, shard_offset(schema, *s), &bytes);
        assert!(table.record_progress(s.id, s.end - 1));
    }
}

fn write_all(schema: &Schema, records: &[Record], parallelism: u64) -> Vec<u8> {
    let len = prepare_write(schema, records).unwrap();
    let mut image = vec![0u8; len as usize];
    let mut table = CheckpointTable::new(records.len() as u64, parallelism);
    let pending = table.pending_shards();
    run(schema, records, &mut image, &mut table, &pending);
    assert_eq!(finish_write(&table), Ok(()));
    image
}

#[test]
fn test_serialize_deserialize() {
    let schema = test_schema();
    let records = test_records(120);
    let image = write_all(&schema, &records, 8);
    let retrieved = read_all_image(&schema, &image).unwrap();
    assert_eq!(records, retrieved, "Original and retrieved data do not match");
}

#[test]
fn test_deserialize_range() {
    let schema = test_schema();
    let records = test_records(120);
    let image = write_all(&schema, &records, 8);
    let range = 50..100;
    let retrieved = read_range_image(&schema, &image, range.start, range.end).unwrap();
    let original_slice = records[50..100].to_vec();
    assert_eq!(original_slice, retrieved, "Original slice and retrieved range data do not match");
}

#[test]
fn record_layout_is_fixed_width() {
    let schema = test_schema();
    assert_eq!(schema.size, 8 + 10 + 1 + 8 + 4);
    let rec = Record {
        fields: vec![
            FieldValue::Int64(-1),
            FieldValue::Text("ab".to_string()),
            FieldValue::Bool(true),
            FieldValue::Float64(0x0102030405060708),
            FieldValue::Int32(258),
        ],
    };
    let bytes = schema.encode(&rec).unwrap();
    let expected: Vec<u8> = vec![
        255, 255, 255, 255, 255, 255, 255, 255, // -1
        2, 0, b'a', b'b', 0, 0, 0, 0, 0, 0, // length 2, padded to 8
        1, // true
        8, 7, 6, 5, 4, 3, 2, 1, // bit pattern, little-endian
        2, 1, 0, 0, // 258
    ];
    assert_eq!(bytes, expected);
    assert_eq!(schema.decode(&bytes), Ok(rec));
}

#[test]
fn encode_rejects_records_of_another_shape() {
    let schema = test_schema();
    let short = Record { fields: vec![FieldValue::Int64(1)] };
    assert_eq!(schema.encode(&short), Err(CodecError::FieldCountMismatch { expected: 5, actual: 1 }));
    let mut long_text = test_record(1);
    long_text.fields[1] = FieldValue::Text("123456789".to_string());
    assert_eq!(schema.encode(&long_text), Err(CodecError::FieldMismatch { index: 1 }));
    let mut wrong_kind = test_record(1);
    wrong_kind.fields[2] = FieldValue::Int32(1);
    assert_eq!(schema.encode(&wrong_kind), Err(CodecError::FieldMismatch { index: 2 }));
    let mut exact = test_record(1);
    exact.fields[1] = FieldValue::Text("12345678".to_string());
    assert!(schema.encode(&exact).is_ok());
}

#[test]
fn decode_rejects_malformed_spans() {
    let schema = test_schema();
    let good = schema.encode(&test_record(3)).unwrap();
    assert_eq!(
        schema.decode(&good[..30]),
        Err(CodecError::LengthMismatch { expected: 31, actual: 30 })
    );
    let mut bad_len = good.clone();
    bad_len[8] = 9;
    assert_eq!(schema.decode(&bad_len), Err(CodecError::InvalidField { index: 1 }));
    let mut not_utf8 = good.clone();
    not_utf8[10] = 0xFF;
    assert_eq!(schema.decode(&not_utf8), Err(CodecError::InvalidField { index: 1 }));
    let mut bad_bool = good.clone();
    bad_bool[18] = 2;
    assert_eq!(schema.decode(&bad_bool), Err(CodecError::InvalidField { index: 2 }));
}

#[test]
fn schema_size_overflow_is_refused() {
    assert!(Schema::new(vec![]).unwrap().size == 0);
    assert_eq!(Schema::new(vec![FieldKind::Text(65535)]).unwrap().size, 65537);
}

#[test]
fn plan_of_a_thousand_records_among_four() {
    let plan = plan_shards(0, 1000, 4);
    let bounds: Vec<(u64, u64, u64)> = plan.iter().map(|s| (s.id, s.start, s.end)).collect();
    assert_eq!(bounds, vec![(0, 0, 250), (1, 250, 500), (2, 500, 750), (3, 750, 1000)]);
}

#[test]
fn plan_edge_cases() {
    assert!(plan_shards(0, 0, 4).is_empty());
    assert!(plan_shards(5, 5, 4).is_empty());
    let small: Vec<(u64, u64)> = plan_shards(0, 3, 4).iter().map(|s| (s.start, s.end)).collect();
    assert_eq!(small, vec![(0, 1), (1, 2), (2, 3)]);
    let single: Vec<(u64, u64)> = plan_shards(0, 10, 0).iter().map(|s| (s.start, s.end)).collect();
    assert_eq!(single, vec![(0, 10)]);
    let uneven: Vec<(u64, u64)> = plan_shards(0, 10, 4).iter().map(|s| (s.start, s.end)).collect();
    assert_eq!(uneven, vec![(0, 3), (3, 6), (6, 9), (9, 10)]);
    let offset: Vec<(u64, u64)> = plan_shards(250, 1000, 4).iter().map(|s| (s.start, s.end)).collect();
    assert_eq!(offset, vec![(250, 438), (438, 626), (626, 814), (814, 1000)]);
    assert_eq!(plan_shards(0, 1000, 4), plan_shards(0, 1000, 4));
}

#[test]
fn progress_never_moves_backward() {
    let mut table = CheckpointTable::new(1000, 4);
    assert!(table.record_progress(0, 200));
    assert!(table.record_progress(0, 249));
    assert!(!table.record_progress(0, 100));
    assert_eq!(table.progress[0], Some(249));
    assert!(table.record_progress(0, 249));
    assert_eq!(table.progress[0], Some(249));
}

#[test]
fn progress_outside_the_plan_is_refused() {
    let mut table = CheckpointTable::new(1000, 4);
    assert!(!table.record_progress(4, 999));
    assert!(!table.record_progress(1, 100));
    assert!(!table.record_progress(1, 500));
    assert_eq!(table.progress, vec![None, None, None, None]);
}

#[test]
fn completion_needs_every_shard() {
    let mut table = CheckpointTable::new(1000, 4);
    assert!(!table.is_complete());
    for (id, last) in [(0, 249), (1, 499), (2, 749)] {
        assert!(table.record_progress(id, last));
    }
    assert!(!table.is_complete());
    assert_eq!(finish_write(&table), Err(WriteError::PartialWrite { incomplete: vec![3] }));
    assert!(table.record_progress(3, 998));
    assert!(!table.is_complete());
    assert!(table.record_progress(3, 999));
    assert!(table.is_complete());
    assert_eq!(finish_write(&table), Ok(()));
    assert!(table.pending_shards().is_empty());
    let empty = CheckpointTable::new(0, 4);
    assert!(empty.is_complete());
}

#[test]
fn checkpoint_survives_save_and_load() {
    let mut table = CheckpointTable::new(1000, 4);
    assert!(table.record_progress(0, 249));
    assert!(table.record_progress(2, 600));
    let bytes = table.to_bytes();
    assert_eq!(bytes.len(), 24 + 4 * 9);
    let loaded = CheckpointTable::load(&bytes, 1000, 4);
    assert_eq!(loaded, table);
}

#[test]
fn unusable_checkpoint_starts_over() {
    let mut table = CheckpointTable::new(1000, 4);
    assert!(table.record_progress(0, 249));
    let bytes = table.to_bytes();
    let fresh = CheckpointTable::new(1000, 4);
    assert_eq!(CheckpointTable::load(&[], 1000, 4), fresh);
    assert_eq!(CheckpointTable::load(&bytes[..30], 1000, 4), fresh);
    assert_eq!(CheckpointTable::load(&bytes, 1000, 3), CheckpointTable::new(1000, 3));
    assert_eq!(CheckpointTable::load(&bytes, 999, 4), CheckpointTable::new(999, 4));
    let mut bad_flag = bytes.clone();
    bad_flag[24] = 7;
    assert_eq!(CheckpointTable::load(&bad_flag, 1000, 4), fresh);
    let mut outside = bytes.clone();
    outside[25] = 0xff;
    outside[26] = 0x01;
    assert_eq!(CheckpointTable::load(&outside, 1000, 4), fresh);
}

#[test]
fn interrupted_write_resumes_only_undone_shards() {
    let schema = test_schema();
    let records = test_records(1000);
    let uninterrupted = write_all(&schema, &records, 4);

    let len = prepare_write(&schema, &records).unwrap();
    let mut image = vec![0xAAu8; len as usize];
    let mut table = CheckpointTable::new(1000, 4);
    let plan = plan_shards(0, 1000, 4);
    run(&schema, &records, &mut image, &mut table, &[plan[0], plan[2]]);
    // Shard 1 got half its bytes out before the crash.
    let partial = encode_shard(&schema, &records, plan[1]);
    place(&mut image, shard_offset(&schema, plan[1]), &partial[..partial.len() / 2]);
    let saved = table.to_bytes();

    let mut resumed = CheckpointTable::load(&saved, 1000, 4);
    let pending = resumed.pending_shards();
    let ids: Vec<u64> = pending.iter().map(|s| s.id).collect();
    assert_eq!(ids, vec![1, 3]);
    run(&schema, &records, &mut image, &mut resumed, &pending);
    assert_eq!(finish_write(&resumed), Ok(()));
    assert_eq!(image, uninterrupted);
}

#[test]
fn reads_at_the_end_of_the_file() {
    let schema = test_schema();
    let records = test_records(1000);
    let image = write_all(&schema, &records, 4);
    let last = read_range_image(&schema, &image, 999, 1000).unwrap();
    assert_eq!(last, vec![test_record(999)]);
    assert_eq!(read_range_image(&schema, &image, 1000, 1000), Ok(vec![]));
    assert_eq!(read_range_image(&schema, &image, 0, 0), Ok(vec![]));
}

#[test]
fn reads_past_the_count_are_refused() {
    let schema = test_schema();
    let records = test_records(10);
    let image = write_all(&schema, &records, 4);
    assert_eq!(
        read_range_image(&schema, &image, 0, 11),
        Err(ReadError::RangeOutOfBounds { start: 0, end: 11, count: 10 })
    );
    assert_eq!(
        read_range_image(&schema, &image, 6, 5),
        Err(ReadError::RangeOutOfBounds { start: 6, end: 5, count: 10 })
    );
    assert_eq!(
        read_range_image(&schema, &image, 11, 11),
        Err(ReadError::RangeOutOfBounds { start: 11, end: 11, count: 10 })
    );
}

#[test]
fn short_files_are_truncated() {
    let schema = test_schema();
    let records = test_records(10);
    let image = write_all(&schema, &records, 4);
    assert_eq!(read_all_image(&schema, &image[..5]), Err(ReadError::TruncatedFile));
    assert_eq!(decode_header(&image[..7]), Err(ReadError::TruncatedFile));
    assert_eq!(read_all_image(&schema, &image[..image.len() - 1]), Err(ReadError::TruncatedFile));
    assert_eq!(read_range_image(&schema, &image[..image.len() - 1], 0, 9).unwrap().len(), 9);
}

#[test]
fn corrupt_slots_are_reported_with_their_index() {
    let schema = test_schema();
    let records = test_records(10);
    let mut image = write_all(&schema, &records, 4);
    let at = 8 + 4 * schema.size + 18;
    image[at] = 5;
    assert_eq!(
        read_range_image(&schema, &image, 2, 8),
        Err(ReadError::Codec { index: 4, error: CodecError::InvalidField { index: 2 } })
    );
    assert!(read_range_image(&schema, &image, 5, 10).is_ok());
}

#[test]
fn header_and_spans() {
    let schema = test_schema();
    assert_eq!(encode_header(1000), vec![0xe8, 0x03, 0, 0, 0, 0, 0, 0]);
    assert_eq!(decode_header(&encode_header(1000)), Ok(1000));
    assert_eq!(range_span(&schema, 1000, 999, 1000), Ok((8 + 999 * 31, 31)));
    assert_eq!(range_span(&schema, 1000, 10, 10), Ok((8 + 10 * 31, 0)));
    assert_eq!(
        range_span(&schema, 5, 0, 6),
        Err(ReadError::RangeOutOfBounds { start: 0, end: 6, count: 5 })
    );
    assert_eq!(range_span(&schema, u64::MAX, 0, u64::MAX), Err(ReadError::TruncatedFile));
}

#[test]
fn invalid_records_stop_the_write_before_any_byte() {
    let schema = test_schema();
    let mut records = test_records(5);
    records[3].fields[1] = FieldValue::Text("far too long".to_string());
    assert_eq!(
        prepare_write(&schema, &records),
        Err(WriteError::Codec { index: 3, error: CodecError::FieldMismatch { index: 1 } })
    );
    assert_eq!(prepare_write(&schema, &test_records(5)), Ok(8 + 5 * 31));
    assert_eq!(prepare_write(&schema, &[]), Ok(8));
}

#[test]
fn shard_bytes_go_at_their_offsets() {
    let schema = test_schema();
    let records = test_records(10);
    let s = Shard { id: 1, start: 3, end: 6 };
    assert_eq!(shard_offset(&schema, s), 8 + 3 * 31);
    let bytes = encode_shard(&schema, &records, s);
    assert_eq!(bytes.len(), 3 * 31);
    assert_eq!(&bytes[..31], &schema.encode(&records[3]).unwrap()[..]);
}

#[test]
fn text_limit_counts_utf8_bytes() {
    let schema = Schema::new(vec![FieldKind::Text(4)]).unwrap();
    let two_chars = Record { fields: vec![FieldValue::Text("\u{e9}\u{e9}".to_string())] };
    let bytes = schema.encode(&two_chars).unwrap();
    assert_eq!(bytes, vec![4, 0, 0xC3, 0xA9, 0xC3, 0xA9]);
    assert_eq!(schema.decode(&bytes), Ok(two_chars));
    let three_chars = Record { fields: vec![FieldValue::Text("\u{e9}\u{e9}a".to_string())] };
    assert_eq!(schema.encode(&three_chars), Err(CodecError::FieldMismatch { index: 0 }));
}

#[test]
fn malformed_utf8_text_is_refused() {
    let schema = Schema::new(vec![FieldKind::Text(4)]).unwrap();
    // A cut multi-byte character, an overlong encoding and a surrogate.
    for slot in [[1u8, 0, 0xC3, 0, 0, 0], [2, 0, 0xC0, 0xAF, 0, 0], [3, 0, 0xED, 0xA0, 0x80, 0]] {
        assert_eq!(schema.decode(&slot), Err(CodecError::InvalidField { index: 0 }));
    }
    assert_eq!(
        schema.decode(&[0, 0, 0xFF, 0xFF, 0xFF, 0xFF]),
        Ok(Record { fields: vec![FieldValue::Text(String::new())] })
    );
}
