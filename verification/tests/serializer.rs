//! Serialization of log events, and the pieces it is made of.

use clp_s::array_text::append_msgpack_string;
use clp_s::float_text::{float_layout, stream_float_text, FloatLayout, FloatText32};
use clp_s::kv_ir::{KvIrEncoding, KvIrNodeType};
use clp_s::kv_ir_serializer::{KvIrSerializer, UserMetadata};
use clp_s::msgpack::{Header, MessagePackReader};
use clp_s::schema_tree::{SchemaTree, LINEAR_SCHEMA_SCAN_LIMIT};
use clp_s::serializer_options::{
    KvIrMessagePackErrorKind, KvIrSerializerError, KvIrSerializerInput,
    KvIrSerializerLimitResource, KvIrSerializerLimitViolation, KvIrSerializerLimits,
    KvIrSerializerOptions, KvIrSerializerStats,
};
use clp_s::stage::{checked_extend, checked_push};

const HEX_DIGITS: &[u8; 16] = b"0123456789abcdef";

fn extend_limited(
    output: &mut Vec<u8>,
    bytes: &[u8],
    limit: u64,
) -> Result<(), KvIrSerializerError> {
    checked_extend(
        output,
        bytes,
        limit,
        KvIrSerializerLimitResource::ScalarBytes,
        "array JSON or CLP logtype",
    )
}

fn stream_spelling(value: f64) -> Vec<u8> {
    let scientific = format!("{value:.5e}");
    let fixed = match float_layout(value.to_bits(), scientific.as_bytes()) {
        FloatLayout::Fixed { places } => format!("{value:.places$}"),
        _ => String::new(),
    };
    stream_float_text(value.to_bits(), scientific.as_bytes(), fixed.as_bytes())
        .expect("spelled float")
        .as_bytes()
        .to_vec()
}

#[test]
fn rounding_decides_the_layout() {
    for (value, expected) in [
        (999_999.7, "1e+06"),
        (999_999.4, "999999"),
        (-999_999.5, "-1e+06"),
        (0.000_099_999_96, "0.0001"),
        (0.000_099_999_4, "9.99994e-05"),
        (9.999_996, "10"),
    ] {
        assert_eq!(expected.as_bytes(), stream_spelling(value), "{value}");
    }
}

#[test]
fn stack_float_formatter_matches_cpp_stream_spellings() {
    let cases = [
        (0.0, "0"),
        (-0.0, "-0"),
        (1.234_567_89, "1.23457"),
        (999_999.0, "999999"),
        (1_000_000.0, "1e+06"),
        (0.000_1, "0.0001"),
        (0.000_099_999_9, "9.99999e-05"),
        (f64::MAX, "1.79769e+308"),
        (f64::from_bits(1), "4.94066e-324"),
        (f64::INFINITY, "inf"),
        (f64::NEG_INFINITY, "-inf"),
        (f64::NAN, "nan"),
        (f64::from_bits(f64::NAN.to_bits() | (1_u64 << 63)), "-nan"),
    ];
    for (value, expected) in cases {
        let formatted = stream_spelling(value);
        assert_eq!(expected.as_bytes(), formatted, "{value:?}");
    }
}

#[test]
fn stack_float_formatter_normalizes_scientific_exponents() {
    for (source, expected) in [
        ("1.00000e6", "1e+06"),
        ("-1.25000e-5", "-1.25e-05"),
        ("9.99999e100", "9.99999e+100"),
    ] {
        let mut buffer = FloatText32::new();
        buffer.write_bytes(source.as_bytes()).expect("source fits");
        buffer.normalize_scientific().expect("normalize exponent");
        assert_eq!(expected.as_bytes(), buffer.as_bytes(), "{source}");
    }
}

#[test]
fn msgpack_string_run_copy_matches_bytewise_escaping() {
    let all_bytes = (u8::MIN..=u8::MAX).collect::<Vec<_>>();
    for value in [
        b"ordinary UTF-8: caf\xc3\xa9".as_slice(),
        all_bytes.as_slice(),
    ] {
        let mut expected = Vec::new();
        checked_push(&mut expected, b'"', u64::MAX, "array JSON").unwrap();
        for byte in value {
            match *byte {
                b'\\' => extend_limited(&mut expected, br"\\", u64::MAX).unwrap(),
                b'"' => extend_limited(&mut expected, br#"\""#, u64::MAX).unwrap(),
                b'/' => extend_limited(&mut expected, br"\/", u64::MAX).unwrap(),
                0x08 => extend_limited(&mut expected, br"\b", u64::MAX).unwrap(),
                0x0c => extend_limited(&mut expected, br"\f", u64::MAX).unwrap(),
                b'\n' => extend_limited(&mut expected, br"\n", u64::MAX).unwrap(),
                b'\r' => extend_limited(&mut expected, br"\r", u64::MAX).unwrap(),
                b'\t' => extend_limited(&mut expected, br"\t", u64::MAX).unwrap(),
                0x00..=0x1f | 0x7f => {
                    extend_limited(
                        &mut expected,
                        &[
                            b'\\',
                            b'u',
                            b'0',
                            b'0',
                            HEX_DIGITS[usize::from(*byte >> 4)],
                            HEX_DIGITS[usize::from(*byte & 0x0f)],
                        ],
                        u64::MAX,
                    )
                    .unwrap();
                }
                byte => checked_push(&mut expected, byte, u64::MAX, "array JSON").unwrap(),
            }
        }
        checked_push(&mut expected, b'"', u64::MAX, "array JSON").unwrap();

        let mut actual = Vec::new();
        append_msgpack_string(&mut actual, value, u64::MAX).unwrap();
        assert_eq!(expected, actual);
    }
}

#[test]
fn expected_type_reader_fast_paths_cover_every_fixed_header() {
    for pairs in 0..=15_u8 {
        let bytes = [0x80 | pairs];
        assert_root_reader_parity(
            &bytes,
            KvIrSerializerLimits::new(),
            &format!("fixed map with {pairs} pair(s)"),
        );
    }

    for length in 0..=31_usize {
        let mut bytes = Vec::with_capacity(length + 1);
        bytes.push(0xa0 | u8::try_from(length).expect("fixed-string length fits u8"));
        bytes.extend(
            (0..length)
                .map(|index| u8::try_from(index).expect("fixed-string payload index fits u8")),
        );
        assert_map_key_reader_parity(
            &bytes,
            KvIrSerializerLimits::new(),
            &format!("fixed string with {length} byte(s)"),
        );
    }
}

#[test]
fn expected_type_reader_fallback_matches_generic_reader_for_every_marker() {
    for marker in u8::MIN..=u8::MAX {
        // Thirty-two zero bytes complete every fixed-width marker and the largest fixed string
        // or extension. Variable-length markers decode a zero length from the prefix.
        let mut bytes = vec![marker];
        bytes.resize(33, 0);
        let context = format!("MessagePack marker {marker:#04x}");
        assert_root_reader_parity(&bytes, KvIrSerializerLimits::new(), &context);
        assert_map_key_reader_parity(&bytes, KvIrSerializerLimits::new(), &context);
    }
}

#[test]
fn expected_type_reader_fast_paths_preserve_truncation_and_limit_ordering() {
    for encoded_length in 1..=31_usize {
        let marker = 0xa0 | u8::try_from(encoded_length).expect("fixed-string length fits u8");
        for available_bytes in 0..encoded_length {
            let mut bytes = vec![marker];
            bytes.resize(available_bytes + 1, b'x');
            assert_map_key_reader_parity(
                &bytes,
                KvIrSerializerLimits::new(),
                &format!(
                    "fixed string length {encoded_length} truncated to {available_bytes} \
                     byte(s)"
                ),
            );
        }

        let scalar_limit = u64::try_from(encoded_length - 1).expect("length fits u64");
        let limits = KvIrSerializerLimits::new().with_max_scalar_bytes(scalar_limit);
        let mut bytes = vec![marker];
        bytes.resize(encoded_length + 1, b'x');
        assert_map_key_reader_parity(
            &bytes,
            limits,
            &format!("fixed string length {encoded_length} exceeds scalar limit"),
        );
    }

    let truncated_fallbacks: &[&[u8]] = &[
        &[],
        &[0xc4],
        &[0xc4, 2, 0],
        &[0xc7],
        &[0xd9],
        &[0xd9, 3, b'x'],
        &[0xda, 0],
        &[0xdb, 0, 0, 0],
        &[0xde, 0],
        &[0xdf, 0, 0, 0],
    ];
    for bytes in truncated_fallbacks {
        let context = format!("truncated fallback {bytes:?}");
        assert_root_reader_parity(bytes, KvIrSerializerLimits::new(), &context);
        assert_map_key_reader_parity(bytes, KvIrSerializerLimits::new(), &context);
    }

    let no_values = KvIrSerializerLimits::new().with_max_values_per_map(0);
    assert_root_reader_parity(&[0x80], no_values, "fixed map exceeds value limit");
    assert_map_key_reader_parity(&[0xa0], no_values, "fixed string exceeds value limit");
}

#[test]
fn ignores_trailing_nil_and_garbage_after_each_root_map() {
    let trailers: &[(&[u8], &[u8])] = &[(&[0xc0], b"garbage"), (b"garbage", &[0xc0])];
    for encoding in [KvIrEncoding::FourByte, KvIrEncoding::EightByte] {
        let serialize = |auto: &[u8], user: &[u8]| {
            let mut serializer = KvIrSerializer::new(
                KvIrSerializerOptions::new(encoding),
                UserMetadata::Canonical(br#"{"fixture":"rust-kv-ir-reader-v1"}"#),
            )
            .expect("create serializer");
            serializer
                .change_utc_offset(3_600_000)
                .expect("change offset");
            serializer
                .serialize_log_event_from_msgpack_maps(auto, user)
                .expect("serialize the first root maps");
            serializer.finish().expect("finish stream");
            assert_eq!(1, serializer.stats().log_events());
            assert_eq!(7, serializer.stats().schema_nodes());
            serializer.pending_output().to_vec()
        };
        let expected = serialize(&auto_map(), &user_map());
        for &(auto_trailer, user_trailer) in trailers {
            let mut auto = auto_map();
            auto.extend_from_slice(auto_trailer);
            let mut user = user_map();
            user.extend_from_slice(user_trailer);
            assert_eq!(
                expected,
                serialize(&auto, &user),
                "{encoding:?}: auto trailer {auto_trailer:?}, user trailer {user_trailer:?}"
            );
        }
    }
}

#[test]
fn rejects_empty_truncated_or_non_map_first_root_values() {
    let invalid_inputs: &[(&[u8], usize, KvIrMessagePackErrorKind)] = &[
        (&[], 0, KvIrMessagePackErrorKind::Truncated),
        (&[0x81], 1, KvIrMessagePackErrorKind::Truncated),
        (&[0xc0, 0x80], 0, KvIrMessagePackErrorKind::RootMustBeMap),
    ];
    for &(invalid, expected_offset, expected_kind) in invalid_inputs {
        for invalid_input in [
            KvIrSerializerInput::AutoGenerated,
            KvIrSerializerInput::UserGenerated,
        ] {
            let mut serializer = KvIrSerializer::new_four_byte(UserMetadata::Absent).expect("serializer");
            let before = serializer.pending_output().to_vec();
            let empty_map = [0x80];
            let (auto, user) = match invalid_input {
                KvIrSerializerInput::AutoGenerated => (invalid, empty_map.as_slice()),
                KvIrSerializerInput::UserGenerated => (empty_map.as_slice(), invalid),
            };

            let error = serializer
                .serialize_log_event_from_msgpack_maps(auto, user)
                .expect_err("invalid first root object");
            assert!(matches!(
                error,
                KvIrSerializerError::MessagePack {
                    input,
                    offset,
                    kind,
                } if input == invalid_input
                    && offset == expected_offset
                    && kind == expected_kind
            ));
            assert_eq!(before, serializer.pending_output());
        }
    }
}

#[test]
fn failed_second_map_rolls_back_schema_and_pending_output() {
    let mut serializer = KvIrSerializer::new_four_byte(UserMetadata::Absent).expect("serializer");
    let preamble = serializer.pending_output().to_vec();
    let invalid_user = [0x81, 0xa1, b'x', 0x81, 0x01, 0x02];
    let error = serializer
        .serialize_log_event_from_msgpack_maps(&auto_map(), &invalid_user)
        .expect_err("integer nested key is invalid");
    assert!(matches!(
        error,
        KvIrSerializerError::MessagePack {
            kind: KvIrMessagePackErrorKind::MapKeyMustBeString,
            ..
        }
    ));
    assert_eq!(preamble, serializer.pending_output());
    assert_eq!(
        KvIrSerializerStats {
            serialized_bytes: u64::try_from(preamble.len()).unwrap(),
            ..KvIrSerializerStats::default()
        },
        serializer.stats()
    );

    serializer
        .serialize_log_event_from_msgpack_maps(&auto_map(), &user_map())
        .expect("subsequent valid event");
    assert_eq!(7, serializer.stats().schema_nodes());
}

#[test]
fn schema_index_is_exact_under_collisions_and_suffix_rollback() {
    let mut tree = SchemaTree::with_fixed_hash(Some(7)).expect("schema tree");

    let integer_id = insert_tree_node(&mut tree, 0, b"same", KvIrNodeType::Integer);
    let string_id = insert_tree_node(&mut tree, 0, b"same", KvIrNodeType::String);
    let nested_id = insert_tree_node(&mut tree, integer_id, b"same", KvIrNodeType::Integer);
    assert_ne!(integer_id, string_id);
    assert_ne!(integer_id, nested_id);
    assert_eq!(
        Some(integer_id),
        tree.find(0, b"same", KvIrNodeType::Integer).1
    );
    assert_eq!(
        Some(string_id),
        tree.find(0, b"same", KvIrNodeType::String).1
    );
    assert_eq!(
        Some(nested_id),
        tree.find(integer_id, b"same", KvIrNodeType::Integer).1
    );

    for index in 0..512_u32 {
        let key = format!("collision-{index:04}");
        insert_tree_node(&mut tree, 0, key.as_bytes(), KvIrNodeType::Boolean);
    }
    let snapshot = tree.len();
    let key_snapshot = tree.key_bytes();
    for index in 512..1_024_u32 {
        let key = format!("collision-{index:04}");
        insert_tree_node(&mut tree, 0, key.as_bytes(), KvIrNodeType::Boolean);
    }
    tree.rollback(snapshot);
    assert_eq!(key_snapshot, tree.key_bytes());
    for index in 0..512_u32 {
        let key = format!("collision-{index:04}");
        assert!(
            tree.find(0, key.as_bytes(), KvIrNodeType::Boolean)
                .1
                .is_some()
        );
    }
    for index in 512..1_024_u32 {
        let key = format!("collision-{index:04}");
        assert_eq!(None, tree.find(0, key.as_bytes(), KvIrNodeType::Boolean).1);
    }

    let reinserted = insert_tree_node(&mut tree, 0, b"collision-0512", KvIrNodeType::Boolean);
    assert_eq!(u32::try_from(snapshot).unwrap(), reinserted);
}

#[test]
fn schema_hash_index_is_initialized_only_after_the_linear_scan_threshold() {
    let mut tree = SchemaTree::new().expect("schema tree");
    assert_eq!(0, tree.index_slots());

    for index in 0..LINEAR_SCHEMA_SCAN_LIMIT {
        let key = format!("linear-{index:04}");
        insert_tree_node(&mut tree, 0, key.as_bytes(), KvIrNodeType::String);
    }
    assert_eq!(0, tree.index_slots());

    insert_tree_node(&mut tree, 0, b"indexed", KvIrNodeType::String);
    assert_ne!(0, tree.index_slots());
    assert_eq!(
        Some(u32::try_from(LINEAR_SCHEMA_SCAN_LIMIT + 1).expect("node ID fits u32")),
        tree.find(0, b"indexed", KvIrNodeType::String).1
    );
}

#[test]
fn large_failed_event_restores_schema_index_and_wire_output() {
    const FIELD_COUNT: u32 = 4_096;
    let auto = wide_integer_map(FIELD_COUNT);
    let invalid_user = [0x81, 0xa1, b'x', 0x81, 0x01, 0x02];
    let empty_user = [0x80];
    let mut serializer = KvIrSerializer::new_four_byte(UserMetadata::Absent).expect("serializer");
    let preamble = serializer.pending_output().to_vec();

    for _ in 0..2 {
        assert!(matches!(
            serializer.serialize_log_event_from_msgpack_maps(&auto, &invalid_user),
            Err(KvIrSerializerError::MessagePack {
                kind: KvIrMessagePackErrorKind::MapKeyMustBeString,
                ..
            })
        ));
        assert_eq!((1, 1), serializer.schema_lengths());
        assert_eq!(preamble, serializer.pending_output());
    }

    serializer
        .serialize_log_event_from_msgpack_maps(&auto, &empty_user)
        .expect("valid event after rollback");
    let mut fresh = KvIrSerializer::new_four_byte(UserMetadata::Absent).expect("fresh serializer");
    fresh
        .serialize_log_event_from_msgpack_maps(&auto, &empty_user)
        .expect("fresh valid event");
    assert_eq!(fresh.pending_output(), serializer.pending_output());
    assert_eq!(fresh.stats(), serializer.stats());
    assert_eq!(u64::from(FIELD_COUNT), serializer.stats().schema_nodes());
}

#[test]
fn empty_maps_and_array_text_are_current_protocol_values() {
    let mut serializer = KvIrSerializer::new_four_byte(UserMetadata::Absent).expect("serializer");
    let pending = serializer.pending_output().len();
    serializer.consume_pending(pending).unwrap();
    let auto = [0x80];
    let user = [
        0x81, 0xa1, b'a', 0x94, 0x01, 0xa3, b'a', b'/', b'b', 0x81, 0xa1, b'x', 0xc3, 0x90,
    ];
    serializer
        .serialize_log_event_from_msgpack_maps(&auto, &user)
        .expect("array event");
    let bytes = serializer.pending_output();
    assert!(bytes.windows(5).any(|window| window == br"a\\/b"));
    assert!(bytes.contains(&0x59));
}

#[test]
fn input_and_pending_limits_are_enforced_without_partial_commit() {
    let limits = KvIrSerializerLimits::new().with_max_input_bytes_per_map(1);
    let mut serializer =
        KvIrSerializer::new(KvIrSerializerOptions::default().with_limits(limits), UserMetadata::Absent)
            .expect("preamble fits default pending limit");
    let before = serializer.pending_output().to_vec();
    assert!(matches!(
        serializer.serialize_log_event_from_msgpack_maps(&[0x80, 0], &[0x80]),
        Err(KvIrSerializerError::Limit(KvIrSerializerLimitViolation {
            resource: KvIrSerializerLimitResource::InputBytesPerMap,
            ..
        }))
    ));
    assert_eq!(before, serializer.pending_output());
}

fn assert_root_reader_parity(bytes: &[u8], limits: KvIrSerializerLimits, context: &str) {
    let mut expected =
        MessagePackReader::new(bytes, KvIrSerializerInput::AutoGenerated, limits);
    let mut actual = MessagePackReader::new(bytes, KvIrSerializerInput::AutoGenerated, limits);
    let expected_result = read_root_map_via_generic_header(&mut expected);
    let actual_result = actual.read_root_map();
    assert_reader_results_equal(expected_result, actual_result, context);
    assert_eq!(expected.position, actual.position, "position: {context}");
    assert_eq!(expected.values, actual.values, "value count: {context}");
}

fn assert_map_key_reader_parity(bytes: &[u8], limits: KvIrSerializerLimits, context: &str) {
    let mut expected =
        MessagePackReader::new(bytes, KvIrSerializerInput::UserGenerated, limits);
    let mut actual = MessagePackReader::new(bytes, KvIrSerializerInput::UserGenerated, limits);
    let expected_result = read_map_key_via_generic_header(&mut expected).map(<[u8]>::to_vec);
    let actual_result = actual.read_map_key().map(<[u8]>::to_vec);
    assert_reader_results_equal(expected_result, actual_result, context);
    assert_eq!(expected.position, actual.position, "position: {context}");
    assert_eq!(expected.values, actual.values, "value count: {context}");
}

fn read_root_map_via_generic_header(
    reader: &mut MessagePackReader<'_>,
) -> Result<u32, KvIrSerializerError> {
    let offset = reader.position;
    let Header::MapHead(pairs) = reader.read_header()? else {
        return Err(reader.error_at(offset, KvIrMessagePackErrorKind::RootMustBeMap));
    };
    Ok(pairs)
}

fn read_map_key_via_generic_header<'a>(
    reader: &mut MessagePackReader<'a>,
) -> Result<&'a [u8], KvIrSerializerError> {
    let offset = reader.position;
    let Header::String(key) = reader.read_header()? else {
        return Err(reader.error_at(offset, KvIrMessagePackErrorKind::MapKeyMustBeString));
    };
    Ok(key)
}

fn assert_reader_results_equal<T>(
    expected: Result<T, KvIrSerializerError>,
    actual: Result<T, KvIrSerializerError>,
    context: &str,
) where
    T: std::fmt::Debug + Eq, {
    match (expected, actual) {
        (Ok(expected), Ok(actual)) => assert_eq!(expected, actual, "{context}"),
        (Err(expected), Err(actual)) => {
            assert_eq!(format!("{expected:?}"), format!("{actual:?}"), "{context}");
        }
        (expected, actual) => {
            panic!("reader outcome mismatch for {context}: {expected:?} != {actual:?}")
        }
    }
}

fn auto_map() -> Vec<u8> {
    vec![
        0x82, 0xa5, b'l', b'e', b'v', b'e', b'l', 0xa4, b'i', b'n', b'f', b'o', 0xa3, b's',
        b'e', b'q', 0x07,
    ]
}

fn user_map() -> Vec<u8> {
    let mut bytes = vec![
        0x85, 0xa5, b'e', b'm', b'p', b't', b'y', 0x80, 0xa7, b'm', b'e', b's', b's', b'a',
        b'g', b'e', 0xac, b't', b'a', b's', b'k', b' ', b'4', b'2', b' ', b'd', b'o', b'n',
        b'e', 0xa4, b'n', b'o', b'n', b'e', 0xc0, 0xa2, b'o', b'k', 0xc3, 0xa5, b'r', b'a',
        b't', b'i', b'o', 0xcb,
    ];
    bytes.extend_from_slice(&1.25_f64.to_bits().to_be_bytes());
    bytes
}

fn insert_tree_node(
    tree: &mut SchemaTree,
    parent_id: u32,
    key: &[u8],
    node_type: KvIrNodeType,
) -> u32 {
    let (hash, existing) = tree.find(parent_id, key, node_type);
    assert!(existing.is_none());
    tree.insert(
        hash,
        parent_id,
        key,
        node_type,
        KvIrSerializerLimits::new().max_schema_nodes_per_namespace(),
    )
    .expect("insert schema node")
}

fn wide_integer_map(field_count: u32) -> Vec<u8> {
    let mut bytes = Vec::with_capacity(usize::try_from(field_count).unwrap() * 16 + 5);
    bytes.push(0xdf);
    bytes.extend_from_slice(&field_count.to_be_bytes());
    for index in 0..field_count {
        let key = format!("field-{index:08}");
        bytes.push(0xa0 | u8::try_from(key.len()).unwrap());
        bytes.extend_from_slice(key.as_bytes());
        bytes.push(1);
    }
    bytes
}

#[test]
fn finished_streams_take_nothing_more() {
    let mut serializer = KvIrSerializer::new_four_byte(UserMetadata::Absent).expect("serializer");
    assert!(!serializer.is_finished());
    serializer.finish().expect("finish stream");
    assert!(serializer.is_finished());
    let pending = serializer.pending_output().to_vec();
    assert!(matches!(serializer.finish(), Err(KvIrSerializerError::Finished)));
    assert!(matches!(
        serializer.change_utc_offset(1),
        Err(KvIrSerializerError::Finished)
    ));
    assert!(matches!(
        serializer.serialize_log_event_from_msgpack_maps(&[0x80], &[0x80]),
        Err(KvIrSerializerError::Finished)
    ));
    assert_eq!(pending, serializer.pending_output());
}

#[test]
fn floats_in_arrays_need_their_spelling() {
    let mut serializer = KvIrSerializer::new_four_byte(UserMetadata::Absent).expect("serializer");
    let mut user = vec![0x81, 0xa1, b'a', 0x91, 0xcb];
    user.extend_from_slice(&1.25_f64.to_bits().to_be_bytes());
    let before = serializer.pending_output().to_vec();
    let bits = match serializer.serialize_log_event_from_msgpack_maps(&[0x80], &user) {
        Err(KvIrSerializerError::FloatTextMissing { bits }) => bits,
        outcome => panic!("unexpected outcome: {outcome:?}"),
    };
    assert_eq!(1.25_f64.to_bits(), bits);
    assert_eq!(before, serializer.pending_output());
    serializer.add_float_text(bits, stream_spelling(f64::from_bits(bits)));
    serializer
        .serialize_log_event_from_msgpack_maps(&[0x80], &user)
        .expect("spelled float");
    assert_eq!(1, serializer.stats().log_events());
}

#[test]
fn metadata_is_checked_before_anything_is_written() {
    assert!(matches!(
        KvIrSerializer::new(KvIrSerializerOptions::default(), UserMetadata::Invalid),
        Err(KvIrSerializerError::InvalidUserDefinedMetadata)
    ));
    let limits = KvIrSerializerLimits::new().with_max_metadata_bytes(4);
    assert!(matches!(
        KvIrSerializer::new(
            KvIrSerializerOptions::default().with_limits(limits),
            UserMetadata::Absent
        ),
        Err(KvIrSerializerError::Limit(violation))
            if violation.resource() == KvIrSerializerLimitResource::MetadataBytes
    ));
}

#[test]
fn rejected_events_ignore_what_follows_their_maps() {
    let rejected: &[&[u8]] = &[&[0xc0], &[0x81, 0x01, 0x02], &[0x81, 0xa1, b'x', 0xc1]];
    for map in rejected {
        let outcome = |user: &[u8]| {
            let mut serializer =
                KvIrSerializer::new_four_byte(UserMetadata::Absent).expect("serializer");
            let before = serializer.pending_output().to_vec();
            let error = serializer
                .serialize_log_event_from_msgpack_maps(&auto_map(), user)
                .expect_err("rejected map");
            assert_eq!(before, serializer.pending_output());
            format!("{error:?}")
        };
        let mut followed = map.to_vec();
        followed.extend_from_slice(&user_map());
        assert_eq!(outcome(map), outcome(&followed));
    }
}
