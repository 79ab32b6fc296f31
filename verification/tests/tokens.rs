//! Number tokens, string scanning and document parsing.

use clp_s::ndjson::{JsonSyntaxErrorKind, NdjsonInvalidRecordKind, NdjsonLimits};
use clp_s::number::{
    classify_json_number, validate_number, ClassifiedJsonNumber, JsonNumberClassificationError,
    JsonNumberDomain,
};
use clp_s::parser::{
    parse_document, parse_document_prefix, ParseFailure, ParserBuffers, StoredEvent,
};
use clp_s::word_scan::{first_string_special_position, STRING_SCAN_WORD_BYTES};

fn classify(source: &[u8]) -> Result<ClassifiedJsonNumber<'_>, JsonNumberClassificationError> {
    let bits = std::str::from_utf8(source)
        .ok()
        .and_then(|text| text.parse::<f64>().ok())
        .map_or(0, f64::to_bits);
    classify_json_number(source, bits)
}

fn is_string_special(byte: u8) -> bool {
    byte < 0x20 || byte == b'"' || byte == b'\\'
}

#[test]
fn matches_cpp_integer_boundaries_and_unsigned_reinterpretation() {
    assert_eq!(
        ClassifiedJsonNumber::Integer(i64::MAX),
        classify(b"9223372036854775807").expect("i64 maximum")
    );
    assert_eq!(
        ClassifiedJsonNumber::Integer(i64::MIN),
        classify(b"9223372036854775808").expect("i64 maximum plus one")
    );
    assert_eq!(
        ClassifiedJsonNumber::Integer(-1),
        classify(b"18446744073709551615").expect("u64 maximum")
    );
    assert_eq!(
        ClassifiedJsonNumber::Integer(i64::MIN),
        classify(b"-9223372036854775808").expect("i64 minimum")
    );
    for source in [b"-9223372036854775809".as_slice(), b"18446744073709551616"] {
        assert_eq!(
            Err(JsonNumberClassificationError::OutOfRange {
                domain: JsonNumberDomain::Integer,
            }),
            classify(source)
        );
    }
}

#[test]
fn retains_floating_source_and_signed_zero() {
    let source = b"-0.00e+03";
    let ClassifiedJsonNumber::Float {
        bits,
        source: actual_source,
    } = classify(source).expect("float")
    else {
        panic!("expected float")
    };
    assert!(f64::from_bits(bits).is_sign_negative());
    assert_eq!(0.0_f64.to_bits() | (1_u64 << 63), bits);
    assert_eq!(source, actual_source);
    assert_eq!(
        Err(JsonNumberClassificationError::OutOfRange {
            domain: JsonNumberDomain::Float,
        }),
        classify(b"1e400")
    );
    assert_eq!(
        ClassifiedJsonNumber::Float {
            bits: 0,
            source: b"1e-4000",
        },
        classify(b"1e-4000").expect("finite underflow")
    );
}

#[test]
fn validated_syntax_retains_exact_float_delimiter_positions() {
    let syntax = validate_number(b"-12.340E+05").expect("valid float");
    assert_eq!(Some(3), syntax.dot_position());
    assert_eq!(Some(7), syntax.exponent_position());
    assert!(syntax.is_float());

    let integer = validate_number(b"-123").expect("valid integer");
    assert_eq!(None, integer.dot_position());
    assert_eq!(None, integer.exponent_position());
    assert!(!integer.is_float());
}

#[test]
fn validates_the_complete_json_number_grammar() {
    for (source, offset) in [
        (b"".as_slice(), 0),
        (b"-", 1),
        (b"+1", 0),
        (b"01", 1),
        (b"1.", 2),
        (b".1", 0),
        (b"1e", 2),
        (b"1e+", 3),
        (b"1x", 1),
        (b"\xff", 0),
    ] {
        assert_eq!(
            Err(JsonNumberClassificationError::InvalidSyntax {
                byte_offset: offset,
            }),
            classify(source),
            "source={source:?}"
        );
    }
    for source in [b"0".as_slice(), b"-0", b"10", b"0.1", b"1E-2"] {
        classify(source).expect("valid JSON number");
    }
}

#[test]
fn word_detector_finds_every_byte_at_every_position() {
    for byte in u8::MIN..=u8::MAX {
        for position in 0..STRING_SCAN_WORD_BYTES {
            let mut bytes = [b'a'; STRING_SCAN_WORD_BYTES];
            bytes[position] = byte;
            assert_eq!(
                bytes.iter().position(|byte| is_string_special(*byte)),
                first_string_special_position(u64::from_le_bytes(bytes)),
                "byte {byte:#04x} at word position {position}"
            );
        }
    }
}

#[test]
fn word_detector_finds_first_special_for_every_adjacent_byte_pair() {
    for first in u8::MIN..=u8::MAX {
        for second in u8::MIN..=u8::MAX {
            for position in 0..STRING_SCAN_WORD_BYTES - 1 {
                let mut bytes = [b'a'; STRING_SCAN_WORD_BYTES];
                bytes[position] = first;
                bytes[position + 1] = second;
                assert_eq!(
                    bytes.iter().position(|byte| is_string_special(*byte)),
                    first_string_special_position(u64::from_le_bytes(bytes)),
                    "bytes {first:#04x}, {second:#04x} at word position {position}"
                );
            }
        }
    }
}

#[test]
fn lazy_utf8_validation_borrows_valid_unicode_and_decodes_escaped_strings() {
    for prefix_bytes in 0..=3 * STRING_SCAN_WORD_BYTES {
        let mut source = vec![b'"'];
        source.extend(std::iter::repeat_n(b'a', prefix_bytes));
        source.extend_from_slice("\u{e9}".as_bytes());
        source.push(b'"');
        let mut buffers = ParserBuffers::new();
        parse_document(
            &source,
            NdjsonLimits::default(),
            &mut buffers,
        )
        .expect("valid unescaped Unicode string");

        let [StoredEvent::StringSource(raw)] = buffers.events.as_slice() else {
            panic!("valid unescaped Unicode must remain source-backed");
        };
        assert_eq!(&source[1..source.len() - 1], raw.inner_bytes(&source));
        assert!(buffers.decoded.is_empty());
    }

    let source = br#""caf\u00e9""#;
    let mut buffers = ParserBuffers::new();
    parse_document(
        source,
        NdjsonLimits::default(),
            &mut buffers,
    )
    .expect("valid escaped Unicode string");
    let [
        StoredEvent::StringDecoded {
            decoded: decoded_span,
            ..
        },
    ] = buffers.events.as_slice()
    else {
        panic!("escaped Unicode must use the decoded buffer");
    };
    assert_eq!("caf\u{e9}".as_bytes(), decoded_span.bytes(&buffers.decoded));
}

#[test]
fn lazy_utf8_validation_reports_exact_invalid_source_offset_at_every_alignment() {
    for prefix_bytes in 0..=3 * STRING_SCAN_WORD_BYTES {
        let mut source = vec![b'"'];
        source.extend(std::iter::repeat_n(b'a', prefix_bytes));
        source.extend_from_slice("\u{e9}".as_bytes());
        let invalid_offset = source.len();
        source.push(0xff);
        source.push(b'"');
        let error = parse_document(
            &source,
            NdjsonLimits::default(),
            &mut ParserBuffers::new(),
        )
        .expect_err("invalid UTF-8 must be rejected");
        let ParseFailure::Invalid(NdjsonInvalidRecordKind::Syntax(error)) = error else {
            panic!("unexpected parse error: {error:?}");
        };
        assert_eq!(JsonSyntaxErrorKind::InvalidUtf8, error.kind());
        assert_eq!(invalid_offset, error.byte_offset());
    }
}

#[test]
fn prefix_parser_stops_at_the_root_end_and_matches_full_document_output() {
    let document = br#"{"message":"caf\u00e9","nested":{"array":[1,true,null]},"empty":{}}"#;
    let mut source = document.to_vec();
    source.extend_from_slice(b"\xff trailing bytes that are not JSON");

    let mut prefix_buffers = ParserBuffers::new();
    let consumed = parse_document_prefix(
        &source,
        NdjsonLimits::default(),
            &mut prefix_buffers,
    )
    .expect("the root prefix is complete and valid");

    let mut full_buffers = ParserBuffers::new();
    parse_document(
        document,
        NdjsonLimits::default(),
            &mut full_buffers,
    )
    .expect("the isolated root document is valid");

    assert_eq!(document.len(), consumed);
    assert_eq!(full_buffers.decoded, prefix_buffers.decoded);
    assert_eq!(full_buffers.events, prefix_buffers.events);
    assert!(prefix_buffers.stack.is_empty());

    let mut trailing_buffers = ParserBuffers::new();
    let error = parse_document(
        &source,
        NdjsonLimits::default(),
            &mut trailing_buffers,
    )
    .expect_err("full-document parsing must still reject the trailing bytes");
    let ParseFailure::Invalid(NdjsonInvalidRecordKind::Syntax(error)) = error else {
        panic!("unexpected full-document failure: {error:?}");
    };
    assert_eq!(JsonSyntaxErrorKind::TrailingCharacters, error.kind());
    assert_eq!(document.len(), error.byte_offset());
}
