# clp_s

Bounded, verified readers and converters for structured log input.

- `src/` is the library. It performs no input or output and uses no floating point: its owner
  supplies bytes, digits and the answers of an archive set.
- `app/` is ordinary Rust around it: `std::io` loops, floating-point digits, native paths, and the
  messages of errors.
- `tests/` run the library with the crates it depends on.

| Subject | Modules |
| --- | --- |
| JSON grammar, parsing and events | `grammar`, `parser`, `number`, `word_scan`, `parse_memory`, `event_laws` |
| Newline-delimited records | `ndjson`, `ndjson_laws` |
| Adjacent objects | `parse_many`, `prefix_framing`, `parse_many_laws` |
| JSON text and numbers | `json`, `json_laws`, `float_text`, `float_laws` |
| Timestamps | `timestamp`, `timestamp_path` |
| Key-value IR values and texts | `kv_ir`, `kv_ir_text`, `clp_text`, `text_laws` |
| Serialization | `kv_ir_serializer`, `msgpack`, `array_text`, `stage`, `schema_tree`, `probe_table`, `serializer_laws` |
| Conversion into archives | `kv_ir_archive`, `archive_plan`, `archive_record`, `archive_schema`, `archive_metadata`, `archive_laws` |
| Owned events | `kv_ir_owned_event`, `owned_order`, `owned_laws` |
| Inputs and filenames | `structured_stream`, `source_path` |

Contracts say what is returned and what is left behind. Whether a request for memory is granted is
left open: a refused one is reported with the resource and the amount that was asked for, and spec
functions say what can be asked for. They say so exactly for readers, texts, schema entries and
owned events, with a bound for what an index asks, and by kind and amount for the parts of a
document, the packets of an entry and the plan of a record. Nothing that shows before the first
request is ever reported as a lack of memory.
The step behind each request takes the answer as an argument and says what follows for both.
