//! Escaping of JSON text and spelling of JSON numbers.

use clp_s::float_text::{format_nlohmann_float, NlohmannFloat, NlohmannFloatError};
use clp_s::json::{
    append_escaped_bytes, append_escaped_str, append_json_key, append_json_key_bytes,
    append_json_string, append_json_string_bytes, JsonBytePolicy, JsonEscapeError,
    JsonEscapeLimits,
};

fn limits() -> JsonEscapeLimits {
    JsonEscapeLimits::new(1024 * 1024, 6 * 1024 * 1024 + 3)
}

fn spell(value: f64) -> Result<NlohmannFloat, NlohmannFloatError> {
    let mut buffer = ryu::Buffer::new();
    let shortest = if value.is_finite() {
        buffer.format_finite(value.abs())
    } else {
        ""
    };
    format_nlohmann_float(value.to_bits(), shortest.as_bytes())
}

#[test]
fn matches_cpp_string_utils_for_every_ascii_control() {
    let cases: &[(u8, &str)] = &[
        (0x00, "\\u0000"),
        (0x01, "\\u0001"),
        (0x02, "\\u0002"),
        (0x03, "\\u0003"),
        (0x04, "\\u0004"),
        (0x05, "\\u0005"),
        (0x06, "\\u0006"),
        (0x07, "\\u0007"),
        (0x08, "\\b"),
        (0x09, "\\t"),
        (0x0a, "\\n"),
        (0x0b, "\\u000b"),
        (0x0c, "\\f"),
        (0x0d, "\\r"),
        (0x0e, "\\u000e"),
        (0x0f, "\\u000f"),
        (0x10, "\\u0010"),
        (0x11, "\\u0011"),
        (0x12, "\\u0012"),
        (0x13, "\\u0013"),
        (0x14, "\\u0014"),
        (0x15, "\\u0015"),
        (0x16, "\\u0016"),
        (0x17, "\\u0017"),
        (0x18, "\\u0018"),
        (0x19, "\\u0019"),
        (0x1a, "\\u001a"),
        (0x1b, "\\u001b"),
        (0x1c, "\\u001c"),
        (0x1d, "\\u001d"),
        (0x1e, "\\u001e"),
        (0x1f, "\\u001f"),
    ];
    for &(input, expected) in cases {
        let mut actual = String::new();
        let mut input_buffer = [0; 4];
        let source = char::from(input).encode_utf8(&mut input_buffer);
        append_escaped_str(source, &mut actual, limits())
            .expect("one-byte ASCII input is bounded");
        assert_eq!(expected, actual, "input byte 0x{input:02x}");
    }
}

#[test]
fn matches_cpp_simdjson_builder_vector_and_json_framing() {
    let source = "Hello, \"world\"!";

    let mut contents = String::from("prefix=");
    append_escaped_str(source, &mut contents, limits()).expect("bounded vector");
    assert_eq!("prefix=Hello, \\\"world\\\"!", contents);

    let mut string = String::new();
    append_json_string(source, &mut string, limits()).expect("bounded vector");
    assert_eq!(r#""Hello, \"world\"!""#, string);

    let mut key = String::from("{");
    append_json_key(source, &mut key, limits()).expect("bounded vector");
    assert_eq!(r#"{"Hello, \"world\"!":"#, key);
}

#[test]
fn matches_cpp_valid_utf8_differential_vector() {
    let source = "\n𠀏a中\u{001f}¢\\";
    let expected = "\\n𠀏a中\\u001f¢\\\\";

    let mut string_output = String::new();
    append_escaped_str(source, &mut string_output, limits()).expect("bounded UTF-8 vector");
    assert_eq!(expected, string_output);

    let mut byte_output = Vec::new();
    append_escaped_bytes(
        source.as_bytes(),
        &mut byte_output,
        JsonBytePolicy::StrictUtf8,
        limits(),
    )
    .expect("bounded UTF-8 vector");
    assert_eq!(expected.as_bytes(), byte_output);
}

#[test]
fn leaves_slash_non_ascii_and_javascript_line_separators_unescaped() {
    let source = "</script>/é中\u{2028}\u{2029}";
    let mut output = String::new();
    append_json_string(source, &mut output, limits()).expect("bounded UTF-8 vector");
    assert_eq!(format!("\"{source}\""), output);
}

#[test]
fn byte_preserving_policy_matches_cpp_on_non_utf8() {
    let source = [0xff, b'"', 0x80, b'\\', b'\n', 0xc0, 0xaf];
    let expected = [
        b'"', 0xff, b'\\', b'"', 0x80, b'\\', b'\\', b'\\', b'n', 0xc0, 0xaf, b'"',
    ];
    let mut output = Vec::new();
    append_json_string_bytes(
        &source,
        &mut output,
        JsonBytePolicy::PreserveInvalidUtf8,
        limits(),
    )
    .expect("bounded byte-preserving vector");
    assert_eq!(expected, output.as_slice());
    assert!(std::str::from_utf8(&output).is_err());
}

#[test]
fn strict_byte_policy_rejects_malformed_and_truncated_utf8_transactionally() {
    let mut output = b"unchanged".to_vec();
    assert_eq!(
        Err(JsonEscapeError::InvalidUtf8 {
            valid_up_to: 1,
            error_len: Some(1),
        }),
        append_escaped_bytes(b"a\xffb", &mut output, JsonBytePolicy::StrictUtf8, limits(),)
    );
    assert_eq!(b"unchanged", output.as_slice());

    assert_eq!(
        Err(JsonEscapeError::InvalidUtf8 {
            valid_up_to: 1,
            error_len: None,
        }),
        append_json_key_bytes(
            b"a\xe2\x82",
            &mut output,
            JsonBytePolicy::StrictUtf8,
            limits(),
        )
    );
    assert_eq!(b"unchanged", output.as_slice());
}

#[test]
fn all_byte_values_follow_cpp_byte_rules() {
    let source: Vec<u8> = (0..=u8::MAX).collect();
    let mut output = Vec::new();
    append_escaped_bytes(
        &source,
        &mut output,
        JsonBytePolicy::PreserveInvalidUtf8,
        limits(),
    )
    .expect("all-byte vector is bounded");

    let escaped_controls = ["\\u0000\\u0001\\u0002\\u0003\\u0004\\u0005\\u0006\\u0007", "\\b\\t\\n\\u000b\\f\\r\\u000e\\u000f", "\\u0010\\u0011\\u0012\\u0013\\u0014\\u0015\\u0016\\u0017", "\\u0018\\u0019\\u001a\\u001b\\u001c\\u001d\\u001e\\u001f"].concat();
    let mut expected = escaped_controls.as_bytes().to_vec();
    expected.extend_from_slice(
        [" !\\\"#$%&'()*+,-./0123456789:;<=>?@", "ABCDEFGHIJKLMNOPQRSTUVWXYZ[\\\\]^_`", "abcdefghijklmnopqrstuvwxyz{|}~\x7f"]
            .concat()
        .as_bytes(),
    );
    expected.extend(0x80..=u8::MAX);
    assert_eq!(expected, output);
}

#[test]
fn string_and_key_byte_framing_are_exact() {
    let mut output = b"{".to_vec();
    append_json_key_bytes(b"a\tb", &mut output, JsonBytePolicy::StrictUtf8, limits())
        .expect("bounded key");
    append_json_string_bytes(b"c\nd", &mut output, JsonBytePolicy::StrictUtf8, limits())
        .expect("bounded value");
    output.push(b'}');
    assert_eq!(br#"{"a\tb":"c\nd"}"#, output.as_slice());
}

#[test]
fn safe_runs_are_copied_without_changing_utf8() {
    let source = "safe é 中 / 0123456789 ".repeat(2048);
    let mut output = String::from("prefix:");
    append_escaped_str(&source, &mut output, limits()).expect("large safe vector is bounded");
    assert_eq!("prefix:", &output[..7]);
    assert_eq!(source, output[7..]);
}

#[test]
fn limits_include_exact_expansion_and_framing_and_roll_back() {
    let mut output = String::from("unchanged");
    assert_eq!(
        Err(JsonEscapeError::InputLimitExceeded {
            actual: 3,
            limit: 2,
        }),
        append_escaped_str("abc", &mut output, JsonEscapeLimits::new(2, usize::MAX))
    );
    assert_eq!("unchanged", output);

    assert_eq!(
        Err(JsonEscapeError::OutputLimitExceeded {
            required: 8,
            limit: 7,
        }),
        append_json_string("\0", &mut output, JsonEscapeLimits::new(1, 7))
    );
    assert_eq!("unchanged", output);

    append_json_string("\0", &mut output, JsonEscapeLimits::new(1, 8))
        .expect("exact output limit is inclusive");
    assert_eq!(r#"unchanged"\u0000""#, output);
}

#[test]
fn empty_fragments_and_default_policy_are_well_defined() {
    assert_eq!(JsonBytePolicy::StrictUtf8, JsonBytePolicy::default());
    let defaults = JsonEscapeLimits::default();
    assert_eq!(64 * 1024 * 1024, defaults.max_input_bytes());
    assert_eq!(384 * 1024 * 1024 + 3, defaults.max_output_bytes());

    let mut contents = String::from("x");
    append_escaped_str("", &mut contents, JsonEscapeLimits::new(0, 0))
        .expect("empty contents append nothing");
    assert_eq!("x", contents);

    let mut string = String::new();
    append_json_string("", &mut string, JsonEscapeLimits::new(0, 2))
        .expect("empty JSON string needs only quotes");
    assert_eq!(r#""""#, string);
}

#[test]
fn nlohmann_float_spelling_is_allocation_free_and_exact() {
    let cases = [
        (-0.0, "-0.0"),
        (0.0, "0.0"),
        (1.0, "1.0"),
        (123_456_789.0, "123456789.0"),
        (1e-6, "1e-06"),
        (1e-5, "1e-05"),
        (1e15, "1e+15"),
        (1e16, "1e+16"),
        (1e308, "1e+308"),
        (f64::MAX, "1.7976931348623157e+308"),
    ];
    for (value, expected) in cases {
        assert_eq!(
            expected,
            spell(value).expect("finite").as_str()
        );
    }
    assert!(spell(f64::INFINITY).is_err());
    assert!(spell(f64::NAN).is_err());
}

#[test]
fn digits_that_are_no_number_are_rejected() {
    let bits = 1.5_f64.to_bits();
    for digits in ["", ".", "1.2.3", "x", "0.000", "1e", "1e99999999999", "0.1e-2147483648"] {
        assert_eq!(
            Some(NlohmannFloatError::InvalidFormat),
            format_nlohmann_float(bits, digits.as_bytes()).err(),
            "{digits}"
        );
    }
    assert_eq!(
        Some(NlohmannFloatError::NonFinite),
        format_nlohmann_float(f64::NAN.to_bits(), b"1").err()
    );
    assert_eq!(
        "-0.00012",
        format_nlohmann_float((-0.00012_f64).to_bits(), b"1.2e-4")
            .expect("small number")
            .as_str()
    );
    assert_eq!(
        "123.5",
        format_nlohmann_float(123.5_f64.to_bits(), b"123.500")
            .expect("number with zeros")
            .as_str()
    );
}

#[test]
fn error_descriptions_are_fixed() {
    assert_eq!(
        "cannot format a non-finite JSON number",
        NlohmannFloatError::NonFinite.description()
    );
    assert_eq!(
        "failed to normalize a finite JSON number",
        NlohmannFloatError::InvalidFormat.description()
    );
}

#[test]
fn float_spellings_name_the_same_number() {
    for value in [0.1, -2.5e-7, 12_345.678, 9e14, 1e15, 5e-324, f64::MIN_POSITIVE, -f64::MAX] {
        let spelled = spell(value).expect("finite");
        let read: f64 = spelled.as_str().parse().expect("a JSON number");
        assert_eq!(value.to_bits(), read.to_bits(), "{}", spelled.as_str());
    }
}

#[test]
fn float_spellings_are_short_ascii() {
    for value in [-0.0, 1.0, -1.234_567_890_123_456_7e-308, f64::MAX, 1e-4, 123_456_789_012_345.6] {
        let spelled = spell(value).expect("finite");
        let text = spelled.as_str();
        assert!(text.is_ascii() && text.len() <= 32, "{text}");
        assert!(text.contains(['.', 'e']), "{text}");
    }
}
