//! Conversion of decoded items into the requests that an archive set is given.

use clp_s::archive_metadata::{MetadataEvent, RangeIndexField, RangeIndexValue};
use clp_s::archive_options::{
    ArchiveSourceContextError, KvIrArchiveErrorKind, KvIrArchiveFailure, KvIrArchiveInvalidData,
    KvIrArchiveLimitResource, KvIrArchiveLimits, KvIrArchiveOptions, KvIrArchiveUnsupported,
};
use clp_s::archive_record::{PlannedRecord, RecordEvent, RecordValue};
use clp_s::kv_ir::{
    KvIrEncodedText, KvIrEncodedVariable, KvIrEncoding, KvIrItem, KvIrLogEvent, KvIrNamespace,
    KvIrNodeType, KvIrPair, KvIrSchemaNode, KvIrStreamEnd, KvIrStreamHeader, KvIrUtcOffsetChange,
    KvIrValueKind,
};
use clp_s::kv_ir_archive::{
    ArchiveAction, ArchiveSetFailure, ConversionError, KvIrArchiveSetSink,
    TimestampedKvIrArchiveSetSink,
};
use clp_s::timestamp::{JsonTimestampError, JsonTimestampScalarKind, KvIrTimestampResolver};

const EXPECTED_JSON: &str = "{\"level\":\"info\",\"seq\":7,\"empty\":{},\"message\":\"task 42 done\",\"none\":null,\"ok\":true,\"ratio\":1.250000}\n";

/// An archive set that keeps its records as lines of JSON.
#[derive(Debug, Default)]
struct Lines {
    json: String,
    source_bytes: u64,
    sources: Vec<Vec<RangeIndexField>>,
    timestamps: Vec<(String, i64, String)>,
}

fn spell(value: RecordValue<'_>, lines: &mut Lines) -> String {
    match value {
        RecordValue::Integer(value) => value.to_string(),
        RecordValue::Float { bits } => format!("{:.6}", f64::from_bits(bits)),
        RecordValue::Boolean(value) => value.to_string(),
        RecordValue::String(value) => {
            let text = std::str::from_utf8(value).expect("UTF-8 string");
            format!("\"{}\"", text.replace('\\', "\\\\"))
        }
        RecordValue::UnstructuredArray(value) => {
            std::str::from_utf8(value).expect("UTF-8 array").to_owned()
        }
        RecordValue::Null => "null".to_owned(),
        RecordValue::Timestamp(timestamp) => {
            lines.timestamps.push((
                timestamp.range_key().to_owned(),
                timestamp.epoch_nanoseconds(),
                timestamp.pattern().to_owned(),
            ));
            std::str::from_utf8(timestamp.lexeme())
                .expect("UTF-8 lexeme")
                .to_owned()
        }
    }
}

fn append_record(lines: &mut Lines, events: &[RecordEvent<'_>]) {
    let mut text = "{".to_owned();
    for event in events {
        if !matches!(event, RecordEvent::ObjectEnd) && !text.ends_with('{') {
            text.push(',');
        }
        match event {
            RecordEvent::ObjectStart { key } => {
                text.push_str(&format!("\"{}\":{{", std::str::from_utf8(key).unwrap()));
            }
            RecordEvent::ObjectEnd => text.push('}'),
            RecordEvent::Value { key, value } => {
                let spelled = spell(*value, lines);
                text.push_str(&format!("\"{}\":{spelled}", std::str::from_utf8(key).unwrap()));
            }
        }
    }
    text.push_str("}\n");
    lines.json.push_str(&text);
}

fn record_events<'a>(record: &PlannedRecord<'a>) -> Vec<RecordEvent<'a>> {
    (0..record.len()).map(|index| record.event(index)).collect()
}

/// What both kinds of sinks do with an item.
trait Adapter {
    fn write(&mut self, item: KvIrItem<'_>) -> Result<ArchiveAction, ConversionError>;
    fn append(&mut self, event: KvIrLogEvent<'_>);
    fn lines(&mut self) -> &mut Lines;
    fn offer(&mut self, rejected: Option<String>) -> Result<ArchiveAction, ConversionError>;
    fn settle_all(&mut self);
}

impl Adapter for KvIrArchiveSetSink<Lines, &'static str> {
    fn write(&mut self, item: KvIrItem<'_>) -> Result<ArchiveAction, ConversionError> {
        self.write_item(item)
    }

    fn append(&mut self, event: KvIrLogEvent<'_>) {
        let mut rendered = Lines::default();
        append_record(&mut rendered, &record_events(&self.record(event)));
        let lines = self.archive_set_mut();
        lines.json.push_str(&rendered.json);
        lines.timestamps.append(&mut rendered.timestamps);
    }

    fn lines(&mut self) -> &mut Lines {
        self.archive_set_mut()
    }

    fn offer(&mut self, rejected: Option<String>) -> Result<ArchiveAction, ConversionError> {
        self.settle_fields(rejected)
    }

    fn settle_all(&mut self) {
        self.settle::<()>(Ok(())).expect("nothing failed");
    }
}

impl Adapter for TimestampedKvIrArchiveSetSink<'_, Lines, &'static str> {
    fn write(&mut self, item: KvIrItem<'_>) -> Result<ArchiveAction, ConversionError> {
        self.write_item(item)
    }

    fn append(&mut self, event: KvIrLogEvent<'_>) {
        let mut rendered = Lines::default();
        append_record(&mut rendered, &record_events(&self.record(event)));
        let lines = self.archive_set_mut();
        lines.json.push_str(&rendered.json);
        lines.timestamps.append(&mut rendered.timestamps);
    }

    fn lines(&mut self) -> &mut Lines {
        self.archive_set_mut()
    }

    fn offer(&mut self, rejected: Option<String>) -> Result<ArchiveAction, ConversionError> {
        self.settle_fields(rejected)
    }

    fn settle_all(&mut self) {
        self.settle::<()>(Ok(())).expect("nothing failed");
    }
}

fn drive<A: Adapter>(adapter: &mut A, items: &[KvIrItem<'_>]) -> Result<(), ConversionError> {
    for item in items {
        match adapter.write(*item)? {
            ArchiveAction::Done => {}
            ArchiveAction::OfferFields { fields } => {
                let rejected = fields
                    .iter()
                    .find(|field| field.name == b"_filename")
                    .map(|field| String::from_utf8(field.name.clone()).expect("UTF-8 name"));
                let ArchiveAction::BeginSource = adapter.offer(rejected)? else {
                    panic!("a source begins once its fields are taken")
                };
                adapter.lines().sources.push(fields);
                adapter.settle_all();
            }
            ArchiveAction::BeginSource => {
                adapter.lines().sources.push(Vec::new());
                adapter.settle_all();
            }
            ArchiveAction::AppendRecord { source_bytes } => {
                let KvIrItem::LogEvent(event) = *item else {
                    panic!("only events are appended")
                };
                adapter.append(event);
                adapter.lines().source_bytes += source_bytes;
                adapter.settle_all();
            }
            ArchiveAction::EndSource { source_bytes }
            | ArchiveAction::AddUncompressedBytes { source_bytes } => {
                adapter.lines().source_bytes += source_bytes;
                adapter.settle_all();
            }
        }
    }
    Ok(())
}

fn header<'a>(metadata: &'a [MetadataEvent<'a>], input_offset: u64) -> KvIrItem<'a> {
    KvIrItem::StreamStart(KvIrStreamHeader { stream_index: 0, input_offset, metadata })
}

fn node<'a>(
    namespace: KvIrNamespace,
    node_id: u32,
    parent_id: u32,
    depth: u64,
    key: &'a [u8],
    node_type: KvIrNodeType,
) -> KvIrItem<'a> {
    KvIrItem::SchemaNode(KvIrSchemaNode {
        namespace,
        node_id,
        parent_id,
        depth,
        key,
        node_type,
        stream_index: 0,
        unit_index: 0,
        input_offset: 30,
    })
}

fn event<'a>(pairs: &'a [KvIrPair<'a>], input_offset: u64, unit_bytes: u64) -> KvIrItem<'a> {
    KvIrItem::LogEvent(KvIrLogEvent {
        pairs,
        auto_schema: &[],
        user_schema: &[],
        utc_offset_millis: 0,
        stream_index: 0,
        unit_index: 9,
        event_index: 0,
        input_offset,
        unit_bytes,
    })
}

fn end<'a>(input_offset: u64) -> KvIrItem<'a> {
    KvIrItem::StreamEnd(KvIrStreamEnd {
        stream_index: 0,
        unit_index: 10,
        input_offset,
        unit_bytes: 1,
    })
}

fn user_pair<'a>(node_id: u32, value: KvIrValueKind<'a>) -> KvIrPair<'a> {
    KvIrPair { namespace: KvIrNamespace::UserGenerated, node_id, value }
}

fn auto_pair<'a>(node_id: u32, value: KvIrValueKind<'a>) -> KvIrPair<'a> {
    KvIrPair { namespace: KvIrNamespace::AutoGenerated, node_id, value }
}

fn ratio(value: f64) -> (u64, String) {
    (value.to_bits(), format!("{value:.9}"))
}

/// The items of a stream with one canonical event, `total` bytes in all.
fn canonical<A: Adapter>(
    encoding: KvIrEncoding,
    total: u64,
    adapter: &mut A,
) -> Result<(), ConversionError> {
    let variables = [match encoding {
        KvIrEncoding::FourByte => KvIrEncodedVariable::FourByte(42),
        KvIrEncoding::EightByte => KvIrEncodedVariable::EightByte(42),
    }];
    let (bits, fixed_nine) = ratio(1.25);
    let message = KvIrEncodedText {
        encoding,
        encoded_variables: &variables,
        dictionary_variables: &[],
        logtype: b"task \x11 done",
    };
    let pairs = [
        auto_pair(1, KvIrValueKind::String(b"info")),
        auto_pair(2, KvIrValueKind::Integer(7)),
        user_pair(1, KvIrValueKind::EmptyObject),
        user_pair(2, KvIrValueKind::EncodedText(message)),
        user_pair(3, KvIrValueKind::Null),
        user_pair(4, KvIrValueKind::Boolean(true)),
        user_pair(5, KvIrValueKind::Float { bits, fixed_nine: fixed_nine.as_bytes() }),
    ];
    let auto = KvIrNamespace::AutoGenerated;
    let user = KvIrNamespace::UserGenerated;
    drive(
        adapter,
        &[
            header(&[], 0),
            KvIrItem::UtcOffsetChange(KvIrUtcOffsetChange {
                stream_index: 0,
                unit_index: 0,
                input_offset: 225,
            }),
            node(auto, 1, 0, 1, b"level", KvIrNodeType::String),
            node(auto, 2, 0, 1, b"seq", KvIrNodeType::Integer),
            node(user, 1, 0, 1, b"empty", KvIrNodeType::Object),
            node(user, 2, 0, 1, b"message", KvIrNodeType::String),
            node(user, 3, 0, 1, b"none", KvIrNodeType::Object),
            node(user, 4, 0, 1, b"ok", KvIrNodeType::Boolean),
            node(user, 5, 0, 1, b"ratio", KvIrNodeType::Float),
            event(&pairs, 300, total - 301),
            end(total - 1),
        ],
    )
}

fn plain_sink(options: KvIrArchiveOptions) -> KvIrArchiveSetSink<Lines, &'static str> {
    KvIrArchiveSetSink::new(Lines::default(), options)
}

#[test]
fn both_cpp_encodings_round_trip_to_the_same_archive_semantics() {
    let mut four = plain_sink(KvIrArchiveOptions::default());
    canonical(KvIrEncoding::FourByte, 345, &mut four).expect("four-byte stream");
    let mut eight = plain_sink(KvIrArchiveOptions::default());
    canonical(KvIrEncoding::EightByte, 349, &mut eight).expect("eight-byte stream");

    assert_eq!(EXPECTED_JSON, four.archive_set().json);
    assert_eq!(EXPECTED_JSON, eight.archive_set().json);
    assert_eq!(1, four.stats().records());
    assert_eq!(1, eight.stats().records());
    assert_eq!(345, four.stats().source_bytes());
    assert_eq!(349, eight.stats().source_bytes());
    assert_eq!(345, four.archive_set().source_bytes);
    assert_eq!(349, eight.archive_set().source_bytes);
}

#[test]
fn namespace_matching_and_utc_offset_units_are_deterministic() {
    let auto = KvIrTimestampResolver::parse("@seq").expect("compile auto path");
    let mut sink = plain_sink(KvIrArchiveOptions::default()).with_timestamp_resolver(&auto);
    canonical(KvIrEncoding::FourByte, 345, &mut sink).expect("auto timestamp");
    assert_eq!(EXPECTED_JSON, sink.archive_set().json);
    assert_eq!(345, sink.stats().source_bytes());
    assert_eq!(
        vec![("@seq".to_owned(), 7_000_000_000, r"\E".to_owned())],
        sink.archive_set().timestamps
    );

    let user = KvIrTimestampResolver::parse("seq").expect("compile user path");
    let mut sink = plain_sink(KvIrArchiveOptions::default()).with_timestamp_resolver(&user);
    canonical(KvIrEncoding::FourByte, 345, &mut sink).expect("unmatched timestamp");
    assert_eq!(345, sink.stats().source_bytes());
    assert!(sink.archive_set().timestamps.is_empty());
}

fn nested_integer<A: Adapter>(adapter: &mut A) -> Result<(), ConversionError> {
    let user = KvIrNamespace::UserGenerated;
    let pairs = [user_pair(2, KvIrValueKind::Integer(7))];
    drive(
        adapter,
        &[
            header(&[], 0),
            node(user, 1, 0, 1, b"a", KvIrNodeType::Object),
            node(user, 2, 1, 2, b"b", KvIrNodeType::Integer),
            event(&pairs, 38, 4),
            end(42),
        ],
    )
}

#[test]
fn nested_kv_timestamp_paths_promote_the_matching_leaf() {
    let resolver = KvIrTimestampResolver::parse("a.b").expect("compile nested path");
    let mut sink = plain_sink(KvIrArchiveOptions::default()).with_timestamp_resolver(&resolver);
    nested_integer(&mut sink).expect("nested timestamp");
    assert_eq!("{\"a\":{\"b\":7}}\n", sink.archive_set().json);
    assert_eq!(1, sink.stats().records());
    assert_eq!(
        vec![("a.b".to_owned(), 7_000_000_000, r"\E".to_owned())],
        sink.archive_set().timestamps
    );
}

#[test]
fn nested_schema_paths_become_balanced_flat_writer_events() {
    let mut sink = plain_sink(KvIrArchiveOptions::default());
    nested_integer(&mut sink).expect("nested record");
    assert_eq!("{\"a\":{\"b\":7}}\n", sink.archive_set().json);
    assert_eq!(1, sink.stats().records());
    assert_eq!(43, sink.stats().source_bytes());
    assert_eq!(43, sink.archive_set().source_bytes);
}

fn float_and_array<A: Adapter>(
    encoding: KvIrEncoding,
    adapter: &mut A,
) -> Result<(), ConversionError> {
    let variables = [match encoding {
        KvIrEncoding::FourByte => KvIrEncodedVariable::FourByte(8_017),
        KvIrEncoding::EightByte => KvIrEncodedVariable::EightByte(32_033),
    }];
    let words = [b"word".to_vec()];
    let text = |encoded_variables, dictionary_variables, logtype| {
        KvIrValueKind::EncodedText(KvIrEncodedText {
            encoding,
            encoded_variables,
            dictionary_variables,
            logtype,
        })
    };
    let user = KvIrNamespace::UserGenerated;
    let pairs = [
        user_pair(1, text(&variables[..], &[][..], &b"\x13"[..])),
        user_pair(2, text(&[], &[], b"[1,2]")),
        user_pair(3, text(&[], &words, b"d=\x12/e=\\\\")),
    ];
    drive(
        adapter,
        &[
            header(&[], 0),
            node(user, 1, 0, 1, b"f", KvIrNodeType::String),
            node(user, 2, 0, 1, b"a", KvIrNodeType::UnstructuredArray),
            node(user, 3, 0, 1, b"m", KvIrNodeType::String),
            event(&pairs, 44, 36),
            end(80),
        ],
    )
}

#[test]
fn encoded_float_text_and_unstructured_arrays_match_in_both_widths() {
    for encoding in [KvIrEncoding::FourByte, KvIrEncoding::EightByte] {
        let mut sink = plain_sink(KvIrArchiveOptions::default());
        float_and_array(encoding, &mut sink).expect("encoded texts");
        assert_eq!(
            "{\"f\":\"1.25\",\"a\":[1,2],\"m\":\"d=word/e=\\\\\"}\n",
            sink.archive_set().json
        );
        assert_eq!(1, sink.stats().records());
        assert_eq!(81, sink.stats().source_bytes());
        assert_eq!(81, sink.archive_set().source_bytes);
    }
}

#[test]
fn unsupported_matching_kinds_remain_ordinary_values() {
    for descriptor in ["ok", "none", "empty"] {
        let resolver = KvIrTimestampResolver::parse(descriptor).expect("compile path");
        let mut sink = plain_sink(KvIrArchiveOptions::default()).with_timestamp_resolver(&resolver);
        canonical(KvIrEncoding::FourByte, 345, &mut sink).expect("ordinary values");
        assert_eq!(EXPECTED_JSON, sink.archive_set().json);
        assert_eq!(1, sink.stats().records());
        assert!(sink.archive_set().timestamps.is_empty());
    }

    let resolver = KvIrTimestampResolver::parse("a").expect("compile path");
    let mut sink = plain_sink(KvIrArchiveOptions::default()).with_timestamp_resolver(&resolver);
    float_and_array(KvIrEncoding::FourByte, &mut sink).expect("ordinary array");
    assert_eq!(
        "{\"f\":\"1.25\",\"a\":[1,2],\"m\":\"d=word/e=\\\\\"}\n",
        sink.archive_set().json
    );
    assert_eq!(1, sink.stats().records());
}

#[test]
fn both_cpp_encodings_promote_all_supported_timestamp_scalars_exactly() {
    let resolver = KvIrTimestampResolver::parse("ts").expect("compile timestamp path");
    for (encoding, total) in [(KvIrEncoding::FourByte, 377), (KvIrEncoding::EightByte, 389)] {
        let mut sink = plain_sink(KvIrArchiveOptions::default()).with_timestamp_resolver(&resolver);
        let user = KvIrNamespace::UserGenerated;
        let encoded = KvIrEncodedText {
            encoding,
            encoded_variables: &[],
            dictionary_variables: &[],
            logtype: b"2023-11-14 22:13:20.126",
        };
        let bits = 1_700_000_000.124_999_046_f64.to_bits();
        let kind = |name: &'static [u8]| user_pair(1, KvIrValueKind::String(name));
        let first = [kind(b"int"), user_pair(2, KvIrValueKind::Integer(1_700_000_000_123))];
        let second = [
            kind(b"float"),
            user_pair(3, KvIrValueKind::Float { bits, fixed_nine: b"1700000000.124999046" }),
        ];
        let third = [kind(b"plain"), user_pair(4, KvIrValueKind::String(b"1700000000125"))];
        let fourth = [kind(b"encoded"), user_pair(4, KvIrValueKind::EncodedText(encoded))];
        let fifth = [kind(b"missing")];
        drive(
            &mut sink,
            &[
                header(&[], 0),
                node(user, 1, 0, 1, b"kind", KvIrNodeType::String),
                node(user, 2, 0, 1, b"ts", KvIrNodeType::Integer),
                node(user, 3, 0, 1, b"ts", KvIrNodeType::Float),
                node(user, 4, 0, 1, b"ts", KvIrNodeType::String),
                event(&first, 200, 20),
                event(&second, 220, 20),
                event(&third, 240, 20),
                event(&fourth, 260, 20),
                event(&fifth, 280, total - 281),
                end(total - 1),
            ],
        )
        .expect("timestamp stream");
        assert_eq!(
            "{\"kind\":\"int\",\"ts\":1700000000123}\n{\"kind\":\"float\",\"ts\":1700000000.124999046}\n{\"kind\":\"plain\",\"ts\":\"1700000000125\"}\n{\"kind\":\"encoded\",\"ts\":\"2023-11-14 22:13:20.126\"}\n{\"kind\":\"missing\"}\n",
            sink.archive_set().json
        );
        assert_eq!(5, sink.stats().records());
        assert_eq!(total, sink.stats().source_bytes());
        let expected: Vec<(String, i64, String)> = [
            (1_700_000_000_123_000_000, r"\L"),
            (1_700_000_000_124_999_046, r"\E.\9"),
            (1_700_000_000_125_000_000, r#""\L""#),
            (1_700_000_000_126_000_000, r#""\Y-\m-\d \H:\M:\S.\3""#),
        ]
        .map(|(epoch, pattern)| ("ts".to_owned(), epoch, pattern.to_owned()))
        .to_vec();
        assert_eq!(expected, sink.archive_set().timestamps);
    }
}

#[test]
fn malformed_matching_timestamp_preserves_only_the_valid_committed_prefix() {
    let resolver = KvIrTimestampResolver::parse("ts").expect("compile timestamp path");
    let mut sink = plain_sink(KvIrArchiveOptions::default()).with_timestamp_resolver(&resolver);
    let user = KvIrNamespace::UserGenerated;
    let bits = 1_700_000_000.124_999_046_f64.to_bits();
    let kind = |name: &'static [u8]| user_pair(1, KvIrValueKind::String(name));
    let first = [kind(b"int"), user_pair(2, KvIrValueKind::Integer(1_700_000_000_123))];
    let second = [
        kind(b"float"),
        user_pair(3, KvIrValueKind::Float { bits, fixed_nine: b"1700000000.124999046" }),
    ];
    let third = [kind(b"plain"), user_pair(4, KvIrValueKind::String(b"not-a-time___"))];
    let error = drive(
        &mut sink,
        &[
            header(&[], 0),
            node(user, 1, 0, 1, b"kind", KvIrNodeType::String),
            node(user, 2, 0, 1, b"ts", KvIrNodeType::Integer),
            node(user, 3, 0, 1, b"ts", KvIrNodeType::Float),
            node(user, 4, 0, 1, b"ts", KvIrNodeType::String),
            event(&first, 230, 20),
            event(&second, 250, 32),
            event(&third, 282, 20),
        ],
    )
    .expect_err("malformed matching timestamp must fail")
    .into_error::<()>();
    assert!(
        matches!(
            error.kind(),
            KvIrArchiveErrorKind::Conversion(KvIrArchiveFailure::Timestamp {
                namespace: KvIrNamespace::UserGenerated,
                node_id: 4,
                source: JsonTimestampError::UnsupportedLexeme {
                    kind: JsonTimestampScalarKind::String,
                },
            })
        ),
        "{:#?}",
        error.kind(),
    );
    assert!(!error.record_committed());
    assert_eq!(2, sink.stats().records());
    assert_eq!(282, sink.accounted_input_bytes());
    assert_eq!(282, sink.stats().source_bytes());
    assert_eq!(
        "{\"kind\":\"int\",\"ts\":1700000000123}\n{\"kind\":\"float\",\"ts\":1700000000.124999046}\n",
        sink.archive_set().json
    );
}

#[test]
fn timestamp_lexeme_uses_the_same_bounded_record_scratch() {
    let limits = KvIrArchiveLimits::new().with_max_reconstructed_value_bytes(0);
    let resolver = KvIrTimestampResolver::parse("a.b").expect("compile timestamp path");
    let mut sink = plain_sink(KvIrArchiveOptions::new().with_limits(limits))
        .with_timestamp_resolver(&resolver);
    let error = nested_integer(&mut sink)
        .expect_err("timestamp lexeme must obey the reconstructed-value limit");
    assert!(matches!(
        error.failure,
        KvIrArchiveFailure::Limit(limit)
            if limit.resource() == KvIrArchiveLimitResource::ReconstructedValueBytes
                && limit.actual() == 1
                && limit.limit() == 0
    ));
    assert_eq!(0, sink.stats().records());
    assert_eq!(0, sink.accounted_input_bytes());
}

#[test]
fn reconstructed_value_limit_is_located_and_atomic() {
    let limits = KvIrArchiveLimits::new().with_max_reconstructed_value_bytes(11);
    let mut sink = plain_sink(KvIrArchiveOptions::new().with_limits(limits));
    let error = canonical(KvIrEncoding::FourByte, 345, &mut sink)
        .expect_err("decoded message exceeds the adapter limit");
    let KvIrArchiveFailure::Limit(limit) = error.failure else {
        panic!("expected adapter limit, got {error:?}")
    };
    assert_eq!(KvIrArchiveLimitResource::ReconstructedValueBytes, limit.resource());
    assert_eq!(12, limit.actual());
    assert_eq!(11, limit.limit());
    assert_eq!(0, sink.stats().records());
    assert_eq!(0, sink.accounted_input_bytes());
}

#[test]
fn malformed_encoded_text_is_structured_and_located_before_append() {
    let mut sink = plain_sink(KvIrArchiveOptions::default());
    let text = KvIrEncodedText {
        encoding: KvIrEncoding::FourByte,
        encoded_variables: &[],
        dictionary_variables: &[],
        logtype: b"\x11",
    };
    let pairs = [user_pair(1, KvIrValueKind::EncodedText(text))];
    let error = drive(
        &mut sink,
        &[
            header(&[], 0),
            node(KvIrNamespace::UserGenerated, 1, 0, 1, b"x", KvIrNodeType::String),
            event(&pairs, 32, 6),
        ],
    )
    .expect_err("missing encoded variable must fail")
    .into_error::<()>();
    assert_eq!(0, error.stream_index());
    assert_eq!(Some(0), error.event_index());
    assert!(error.input_offset() > 0);
    assert!(matches!(
        error.kind(),
        KvIrArchiveErrorKind::Conversion(KvIrArchiveFailure::Unsupported {
            namespace: KvIrNamespace::UserGenerated,
            node_id: 1,
            source: KvIrArchiveUnsupported::MissingEncodedVariable,
        })
    ));
    assert_eq!(0, sink.stats().records());
    assert_eq!(0, sink.accounted_input_bytes());
}

fn number(source: &'static [u8]) -> MetadataEvent<'static> {
    let bits = std::str::from_utf8(source)
        .ok()
        .and_then(|text| text.parse::<f64>().ok())
        .map(f64::to_bits);
    MetadataEvent::Number { source, bits }
}

#[test]
fn user_defined_metadata_is_typed_exactly_in_stats_and_the_range_packet() {
    let metadata = [
        MetadataEvent::ObjectStart,
        MetadataEvent::Key(b"VERSION"),
        MetadataEvent::String(b"0.1.0"),
        MetadataEvent::Key(b"USER_DEFINED_METADATA"),
        MetadataEvent::ObjectStart,
        MetadataEvent::Key(b"array"),
        MetadataEvent::ArrayStart,
        MetadataEvent::Boolean(true),
        number(b"-2"),
        number(b"1.5"),
        MetadataEvent::Null,
        MetadataEvent::ArrayEnd,
        MetadataEvent::Key(b"max"),
        number(b"18446744073709551615"),
        MetadataEvent::Key(b"nested"),
        MetadataEvent::ObjectStart,
        MetadataEvent::Key(b"key"),
        MetadataEvent::String(b"value"),
        MetadataEvent::ObjectEnd,
        MetadataEvent::Key(b"test_key"),
        MetadataEvent::String(b"test_value"),
        MetadataEvent::ObjectEnd,
        MetadataEvent::ObjectEnd,
    ];
    let mut sink = KvIrArchiveSetSink::for_source(
        Lines::default(),
        KvIrArchiveOptions::default(),
        "input.kvir",
        true,
    );
    drive(&mut sink, &[header(&metadata, 0), end(160)]).expect("metadata stream");
    assert_eq!(161, sink.stats().source_bytes());
    assert_eq!(Some(&"input.kvir"), sink.source_context());
    let field = |name: &[u8], value| RangeIndexField { name: name.to_vec(), value };
    assert_eq!(
        vec![vec![
            field(
                b"array",
                RangeIndexValue::Array(vec![
                    RangeIndexValue::Boolean(true),
                    RangeIndexValue::Signed(-2),
                    RangeIndexValue::Float(1.5_f64.to_bits()),
                    RangeIndexValue::Null,
                ])
            ),
            field(b"max", RangeIndexValue::Unsigned(u64::MAX)),
            field(
                b"nested",
                RangeIndexValue::Object(vec![field(
                    b"key",
                    RangeIndexValue::String(b"value".to_vec())
                )])
            ),
            field(b"test_key", RangeIndexValue::String(b"test_value".to_vec())),
        ]],
        sink.archive_set().sources
    );
}

#[test]
fn concatenated_streams_form_adjacent_independent_source_contexts() {
    let metadata = |name: &'static [u8]| {
        [
            MetadataEvent::ObjectStart,
            MetadataEvent::Key(b"USER_DEFINED_METADATA"),
            MetadataEvent::ObjectStart,
            MetadataEvent::Key(b"stream"),
            MetadataEvent::String(name),
            MetadataEvent::ObjectEnd,
            MetadataEvent::ObjectEnd,
        ]
    };
    let mut sink = KvIrArchiveSetSink::for_source(
        Lines::default(),
        KvIrArchiveOptions::default(),
        "input.kvir",
        true,
    );
    let first = metadata(b"first");
    let second = metadata(b"second");
    drive(
        &mut sink,
        &[header(&first, 0), end(70), header(&second, 71), end(142)],
    )
    .expect("two streams");
    assert_eq!(2, sink.stats().streams());
    assert_eq!(143, sink.stats().source_bytes());
    let names: Vec<&RangeIndexValue> = sink
        .archive_set()
        .sources
        .iter()
        .map(|fields| &fields[0].value)
        .collect();
    assert_eq!(
        vec![
            &RangeIndexValue::String(b"first".to_vec()),
            &RangeIndexValue::String(b"second".to_vec())
        ],
        names
    );
}

#[test]
fn items_out_of_place_are_rejected() {
    let failure = |items: &[KvIrItem<'_>]| {
        let mut sink = plain_sink(KvIrArchiveOptions::default());
        drive(&mut sink, items).expect_err("item out of place").failure
    };
    let outside = KvIrArchiveFailure::Invalid(KvIrArchiveInvalidData::ItemOutsideStream);
    let gap = KvIrArchiveFailure::Invalid(KvIrArchiveInvalidData::NonContiguousInput);
    assert_eq!(outside, failure(&[end(3)]));
    assert_eq!(outside, failure(&[event(&[], 3, 4)]));
    assert_eq!(gap, failure(&[header(&[], 5)]));
    assert_eq!(
        KvIrArchiveFailure::Invalid(KvIrArchiveInvalidData::NestedStreamStart),
        failure(&[header(&[], 0), header(&[], 0)])
    );
    assert_eq!(gap, failure(&[header(&[], 0), event(&[], 9, 4), event(&[], 12, 4)]));
    assert_eq!(
        KvIrArchiveFailure::SizeOverflow,
        failure(&[header(&[], 0), event(&[], u64::MAX, 4)])
    );
    let user = KvIrNamespace::UserGenerated;
    assert_eq!(
        KvIrArchiveFailure::Invalid(KvIrArchiveInvalidData::SchemaNodeOutOfSequence {
            namespace: user,
            expected: 1,
            actual: 2,
        }),
        failure(&[header(&[], 0), node(user, 2, 0, 1, b"a", KvIrNodeType::Integer)])
    );
    let missing = [user_pair(1, KvIrValueKind::Null)];
    assert_eq!(
        KvIrArchiveFailure::Invalid(KvIrArchiveInvalidData::MissingSchemaNode {
            namespace: user,
            node_id: 1,
        }),
        failure(&[header(&[], 0), event(&missing, 9, 4)])
    );
    let twice = [user_pair(1, KvIrValueKind::Null), user_pair(1, KvIrValueKind::Null)];
    assert_eq!(
        KvIrArchiveFailure::Invalid(KvIrArchiveInvalidData::DuplicateEventNode {
            namespace: user,
            node_id: 1,
        }),
        failure(&[
            header(&[], 0),
            node(user, 1, 0, 1, b"a", KvIrNodeType::Integer),
            event(&twice, 9, 4)
        ])
    );
    let bits = f64::NAN.to_bits();
    let not_finite = [user_pair(1, KvIrValueKind::Float { bits, fixed_nine: b"NaN" })];
    assert_eq!(
        KvIrArchiveFailure::Unsupported {
            namespace: user,
            node_id: 1,
            source: KvIrArchiveUnsupported::NonFiniteFloat { bits },
        },
        failure(&[
            header(&[], 0),
            node(user, 1, 0, 1, b"a", KvIrNodeType::Float),
            event(&not_finite, 9, 4)
        ])
    );
}

#[test]
fn records_that_failed_after_their_commit_still_count() {
    let mut sink = plain_sink(KvIrArchiveOptions::default());
    drive(&mut sink, &[header(&[], 0)]).expect("start stream");
    for (offset, record_committed, records) in [(10, false, 0), (20, true, 1)] {
        let action = sink.write_item(event(&[], offset, 5)).expect("empty record");
        assert!(matches!(action, ArchiveAction::AppendRecord { .. }));
        let error = sink
            .settle(Err(ArchiveSetFailure { source: "disk full", record_committed }))
            .expect_err("failed request");
        assert_eq!(record_committed, error.record_committed());
        assert_eq!(Some(0), error.event_index());
        assert_eq!(offset, error.input_offset());
        assert_eq!(records, sink.stats().records());
        assert_eq!(if record_committed { 25 } else { 0 }, sink.accounted_input_bytes());
    }
    let sink = sink.into_inner();
    assert!(sink.json.is_empty());
}

#[test]
fn schema_limits_are_exact() {
    let user = KvIrNamespace::UserGenerated;
    let limited = |limits: KvIrArchiveLimits| {
        let mut sink = plain_sink(KvIrArchiveOptions::new().with_limits(limits));
        drive(
            &mut sink,
            &[
                header(&[], 0),
                node(user, 1, 0, 1, b"ab", KvIrNodeType::Object),
                node(user, 2, 1, 2, b"cd", KvIrNodeType::Object),
            ],
        )
        .expect_err("limit exceeded")
        .failure
    };
    for (limits, resource, actual, limit) in [
        (
            KvIrArchiveLimits::new().with_max_schema_nodes_per_namespace(1),
            KvIrArchiveLimitResource::SchemaNodesPerNamespace,
            2,
            1,
        ),
        (
            KvIrArchiveLimits::new().with_max_nesting_depth(1),
            KvIrArchiveLimitResource::NestingDepth,
            2,
            1,
        ),
        (
            KvIrArchiveLimits::new().with_max_schema_key_bytes(3),
            KvIrArchiveLimitResource::SchemaKeyBytes,
            4,
            3,
        ),
    ] {
        let KvIrArchiveFailure::Limit(violation) = limited(limits) else {
            panic!("expected a limit failure")
        };
        assert_eq!(resource, violation.resource());
        assert_eq!(actual, violation.actual());
        assert_eq!(limit, violation.limit());
    }
    let mut sink = plain_sink(
        KvIrArchiveOptions::new().with_limits(KvIrArchiveLimits::new().with_max_record_events(2)),
    );
    let error = nested_integer(&mut sink).expect_err("three events");
    assert!(matches!(
        error.failure,
        KvIrArchiveFailure::Limit(limit)
            if limit.resource() == KvIrArchiveLimitResource::RecordEvents && limit.actual() == 3
    ));
}

#[test]
fn reserved_kv_metadata_is_rejected_before_opening_a_source() {
    let metadata = [
        MetadataEvent::ObjectStart,
        MetadataEvent::Key(b"VERSION"),
        MetadataEvent::String(b"0.1.0"),
        MetadataEvent::Key(b"USER_DEFINED_METADATA"),
        MetadataEvent::ObjectStart,
        MetadataEvent::Key(b"_filename"),
        MetadataEvent::String(b"override"),
        MetadataEvent::ObjectEnd,
        MetadataEvent::ObjectEnd,
    ];
    let mut sink = KvIrArchiveSetSink::for_source(
        Lines::default(),
        KvIrArchiveOptions::default(),
        "input.kvir",
        true,
    );
    let error = drive(&mut sink, &[header(&metadata, 0), end(80)])
        .expect_err("reserved metadata must not replace source identity");
    let error = error.into_error::<()>();
    assert!(matches!(
        error.kind(),
        KvIrArchiveErrorKind::Conversion(KvIrArchiveFailure::SourceContext(
            ArchiveSourceContextError::ReservedField { name }
        )) if name == "_filename"
    ));
    assert_eq!(0, sink.stats().streams());
    assert_eq!(0, sink.accounted_input_bytes());
    assert!(sink.archive_set().sources.is_empty());
}
