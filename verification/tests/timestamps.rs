//! Timestamp paths and recognition.

use clp_s::kv_ir::KvIrNamespace;
use clp_s::ndjson::JsonString;
use clp_s::timestamp::{
    JsonTimestampError, JsonTimestampResolver, JsonTimestampScalarKind, KvIrTimestampResolver,
    TimestampRef,
};
use clp_s::timestamp_path::{
    JsonTimestampPath, JsonTimestampPathError, JsonTimestampPathLimits, JsonTimestampPathResource,
};

fn resolve_number<'a>(
    resolver: &'a JsonTimestampResolver,
    source: &'a [u8],
) -> Result<TimestampRef<'a>, JsonTimestampError> {
    let bits = std::str::from_utf8(source)
        .ok()
        .and_then(|text| text.parse::<f64>().ok())
        .map_or(0, f64::to_bits);
    resolver.resolve_number(source, bits)
}

#[test]
fn dotted_paths_decode_escaped_components_once() {
    let path = JsonTimestampPath::parse(r"outer.event\.time.\*literal.emoji\u002evalue")
        .expect("compile escaped path");
    assert_eq!(
        ["outer", "event.time", "*literal", "emoji.value"].map(|name: &str| name.as_bytes().to_vec()),
        path.components()
    );
    assert_eq!(
        Some(JsonTimestampPathError::Wildcard { component_index: 1 }),
        JsonTimestampPath::parse("outer.*").err()
    );
    assert!(matches!(
        JsonTimestampPath::parse("outer."),
        Err(JsonTimestampPathError::EmptyComponent { byte_offset: 6 })
    ));
}

#[test]
fn numeric_defaults_match_cpp_precision_and_fraction_rules() {
    let resolver = JsonTimestampResolver::parse("ts").expect("compile timestamp path");
    let integer = resolve_number(&resolver, b"1700000000123")
        .expect("epoch milliseconds");
    assert_eq!(1_700_000_000_123_000_000, integer.epoch_nanoseconds());
    assert_eq!(r"\L", integer.pattern());

    let fraction = resolve_number(&resolver, b"1762445893.00100201")
        .expect("variable fraction");
    assert_eq!(1_762_445_893_001_002_010, fraction.epoch_nanoseconds());
    assert_eq!(r"\E.\T", fraction.pattern());
    assert!(matches!(
        resolve_number(&resolver, b"1762445893.10"),
        Err(JsonTimestampError::UnsupportedLexeme {
            kind: JsonTimestampScalarKind::Number,
        })
    ));
}

#[test]
fn cpp_end_to_end_numeric_timestamp_forms_resolve_exactly() {
    let resolver = JsonTimestampResolver::parse("timestamp").expect("compile timestamp path");
    let quoted = JsonString::new_bytes(br#""2015678901234""#, "2015678901234".as_bytes());
    let quoted = resolver
        .resolve_string(quoted)
        .expect("quoted epoch milliseconds");
    assert_eq!(2_015_678_901_234_000_000, quoted.epoch_nanoseconds());
    assert_eq!(r#""\L""#, quoted.pattern());

    let integer = resolve_number(&resolver, b"2015678901234999")
        .expect("epoch microseconds");
    assert_eq!(2_015_678_901_234_999_000, integer.epoch_nanoseconds());
    assert_eq!(r"\C", integer.pattern());

    let fraction = resolve_number(&resolver, b"2015678901.234999123")
        .expect("fractional epoch seconds");
    assert_eq!(2_015_678_901_234_999_123, fraction.epoch_nanoseconds());
    assert_eq!(r"\E.\9", fraction.pattern());
}

#[test]
fn quoted_cpp_fixture_date_time_resolves_to_exact_pattern() {
    let resolver = JsonTimestampResolver::parse("ts").expect("compile timestamp path");
    let source = JsonString::new_bytes(br#""2015-02-01T01:02:03.004""#, "2015-02-01T01:02:03.004".as_bytes());
    let timestamp = resolver
        .resolve_string(source)
        .expect("resolve canonical date-time");
    assert_eq!(1_422_752_523_004_000_000, timestamp.epoch_nanoseconds());
    assert_eq!(r#""\Y-\m-\dT\H:\M:\S.\3""#, timestamp.pattern());
    assert_eq!("ts", timestamp.range_key());

    let timezone = JsonString::new_bytes(br#""2026-01-01T12:34:56.789 UTC-05""#, "2026-01-01T12:34:56.789 UTC-05".as_bytes());
    assert!(matches!(
        resolver.resolve_string(timezone),
        Err(JsonTimestampError::UnsupportedLexeme {
            kind: JsonTimestampScalarKind::String,
        })
    ));
}

#[test]
fn path_compilation_limits_are_enforced_before_record_ingestion() {
    assert!(matches!(
        JsonTimestampResolver::parse_with_limits(
            "outer.ts",
            JsonTimestampPathLimits::new(7, 8, 8),
        ),
        Err(JsonTimestampPathError::LimitExceeded {
            resource: JsonTimestampPathResource::DescriptorBytes,
            actual: 8,
            limit: 7,
        })
    ));
    assert!(matches!(
        JsonTimestampResolver::parse_with_limits(
            "outer.ts",
            JsonTimestampPathLimits::new(8, 1, 8),
        ),
        Err(JsonTimestampPathError::LimitExceeded {
            resource: JsonTimestampPathResource::Components,
            actual: 2,
            limit: 1,
        })
    ));
}

#[test]
fn kv_paths_select_protocol_namespaces_and_preserve_the_range_key() {
    let user = KvIrTimestampResolver::parse(r"outer.event\.time")
        .expect("compile user-generated path");
    assert_eq!(Some(KvIrNamespace::UserGenerated), user.namespace());
    assert_eq!(
        ["outer", "event.time"].map(|name: &str| name.as_bytes().to_vec()),
        user.path().components()
    );
    assert_eq!(r"outer.event\.time", user.path().descriptor());

    let auto = KvIrTimestampResolver::parse("@outer.ts").expect("compile auto-generated path");
    assert_eq!(Some(KvIrNamespace::AutoGenerated), auto.namespace());
    assert_eq!(
        ["outer", "ts"].map(|name: &str| name.as_bytes().to_vec()),
        auto.path().components()
    );
    assert_eq!("@outer.ts", auto.path().descriptor());

    for descriptor in ["$range.ts", "!reserved.ts", "#reserved.ts"] {
        let reserved =
            KvIrTimestampResolver::parse(descriptor).expect("compile reserved namespace");
        assert_eq!(None, reserved.namespace());
        assert_eq!(descriptor, reserved.path().descriptor());
    }
}

#[test]
fn kv_float_recognition_pins_cpp_fixed_nine_formatting() {
    let timestamp = KvIrTimestampResolver::resolve_fixed_nine_float(b"1700000000.124999046")
        .expect("resolve the fixed-nine rendering");
    assert_eq!(1_700_000_000_124_999_046, timestamp.epoch_nanoseconds);
    assert_eq!(r"\E.\9", timestamp.pattern);
    assert!(matches!(
        KvIrTimestampResolver::resolve_fixed_nine_float(b"1700000000.124999"),
        Err(JsonTimestampError::UnsupportedLexeme {
            kind: JsonTimestampScalarKind::Number,
        })
    ));
}
