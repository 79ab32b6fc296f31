//! Bounded, panic-free ingestion of JSON text and key-value IR streams.

pub mod archive_laws;
pub mod archive_metadata;
pub mod archive_options;
pub mod archive_plan;
pub mod archive_record;
pub mod archive_schema;
pub mod array_laws;
pub mod array_text;
pub mod clp_text;
pub mod decimal;
pub mod descriptor_laws;
pub mod document_laws;
pub mod escape_laws;
pub mod event_laws;
pub mod float_laws;
pub mod float_text;
pub mod grammar;
pub mod input_laws;
pub mod json;
pub mod json_laws;
pub mod kv_ir;
pub mod kv_ir_archive;
pub mod kv_ir_owned_event;
pub mod kv_ir_serializer;
pub mod kv_ir_text;
pub mod limit_laws;
pub mod metadata_laws;
pub mod msgpack;
pub mod msgpack_laws;
pub mod ndjson;
pub mod ndjson_laws;
pub mod number;
pub mod number_laws;
pub mod owned_laws;
pub mod owned_options;
pub mod owned_order;
pub mod parse_many;
pub mod parse_many_laws;
pub mod parse_memory;
pub mod parser;
pub mod path_laws;
pub mod prefix_framing;
pub mod probe_table;
pub mod record_laws;
pub mod schema_tree;
pub mod serializer_laws;
pub mod serializer_options;
pub mod sink_laws;
pub mod source_path;
pub mod stage;
pub mod stream_float_laws;
pub mod structured_stream;
pub mod text;
pub mod text_laws;
pub mod timestamp;
pub mod timestamp_laws;
pub mod timestamp_path;
pub mod token_laws;
pub mod view_laws;
pub mod wire_laws;
pub mod word_scan;

use vstd::prelude::*;

verus! {

} // verus!
