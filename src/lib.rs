//! A fixed-layout binary record store: records of one schema are encoded
//! into fixed-width slots after an 8-byte count header, written in parallel
//! shards with a per-shard checkpoint so that an interrupted write resumes
//! where it stopped, and read back whole or by index range. A small
//! generator of FlatBuffers schema text from Rust struct definitions rides
//! along.
pub mod blotter;
pub mod checkpoint;
pub mod codec;
pub mod frame;
pub mod layout;
pub mod reader;
pub mod schema_text;
pub mod shard;
pub mod writer;

pub use blotter::DailyBlotterData;
pub use checkpoint::CheckpointTable;
pub use codec::{CodecError, FieldKind, FieldValue, Record, Schema};
pub use layout::encode_header;
pub use reader::{decode_header, decode_records, range_span, read_all_image, read_range_image, ReadError};
pub use schema_text::{fbs_fields, generate_fbs_schema, map_rust_type_to_fbs, scrape_fbs_schemas};
pub use shard::{plan_shards, Shard};
pub use writer::{encode_shard, finish_write, prepare_write, shard_offset, WriteError};
