//! Scenarios of what the library promises, and an input for each way in which it refuses.

use std::convert::Infallible;

use clp_s::json::{append_json_string, append_json_string_bytes, JsonBytePolicy, JsonEscapeLimits};
use clp_s::kv_ir::{KvIrEncodedText, KvIrEncodedVariable, KvIrEncoding};
use clp_s::kv_ir_text::KvIrEncodedTextError;
use clp_s::ndjson::{
    InvalidRecordPolicy, JsonEvent, JsonEvents, JsonString, JsonSyntaxErrorKind, NdjsonError,
    NdjsonInvalidRecordKind, NdjsonLimits, NdjsonOptions, NdjsonReadError, NdjsonReader,
    NdjsonRecord, NdjsonRecordSink, NdjsonStep,
};
use clp_s::parse_many::{
    IncompleteDocumentPolicy, ParseManyDocument, ParseManyDocumentSink, ParseManyError,
    ParseManyInvalidDocumentKind, ParseManyOptions, ParseManyReadError, ParseManyReader,
    ParseManyStep,
};
use clp_s::parser::{parse_document, ParseFailure, ParserBuffers, StoredEvent};
use clp_s::timestamp::{JsonTimestampError, JsonTimestampResolver, JsonTimestampScalarKind};
use clp_s::timestamp_path::{
    JsonTimestampPath, JsonTimestampPathError, JsonTimestampPathLimits, JsonTimestampPathResource,
};

fn collect(mut events: JsonEvents<'_>) -> Vec<JsonEvent<'_>> {
    let mut found = Vec::new();
    while let Some(event) = events.next() {
        found.push(event);
    }
    found
}

#[derive(Default)]
struct Lines {
    records: Vec<(Vec<u8>, u64)>,
}

impl NdjsonRecordSink for Lines {
    type Error = Infallible;

    fn write_record(&mut self, record: NdjsonRecord<'_>) -> Result<(), Self::Error> {
        self.records.push((record.json_bytes().to_vec(), record.line_number()));
        Ok(())
    }
}

#[derive(Default)]
struct Documents {
    documents: Vec<(Vec<u8>, u64)>,
}

impl ParseManyDocumentSink for Documents {
    type Error = Infallible;

    fn write_document(&mut self, document: ParseManyDocument<'_>) -> Result<(), Self::Error> {
        self.documents.push((document.json_bytes().to_vec(), document.input_offset()));
        Ok(())
    }
}

#[test]
fn every_cut_of_a_stream_gives_the_same_records() {
    let input = b"\n{\"a\":1}\r\n\n [true,null] \n\"end\"";
    let mut whole = Lines::default();
    let mut reader = NdjsonReader::new((), NdjsonOptions::new());
    reader.supply(input);
    reader.end_input();
    let (_, expected) = reader.read_to_end(&mut whole).expect("whole stream");
    for cut in 0..=input.len() {
        let mut parts = Lines::default();
        let mut reader = NdjsonReader::new((), NdjsonOptions::new());
        reader.supply(&input[..cut]);
        let (step, _) = reader.read_to_end(&mut parts).expect("first part");
        assert_eq!(NdjsonStep::NeedInput, step);
        reader.supply(&input[cut..]);
        reader.end_input();
        let (step, stats) = reader.read_to_end(&mut parts).expect("second part");
        assert_eq!(NdjsonStep::End, step);
        assert_eq!(whole.records, parts.records, "cut at {cut}");
        assert_eq!(expected, stats, "cut at {cut}");
    }
}

#[test]
fn every_cut_of_a_stream_gives_the_same_objects() {
    let input = b" {\"a\":\"}{\\\"\"}{\"b\":[{}]}\n{\n} ";
    let mut whole = Documents::default();
    let mut reader = ParseManyReader::new((), ParseManyOptions::new());
    reader.supply(input);
    reader.end_input();
    let (_, expected) = reader.read_to_end(&mut whole).expect("whole stream");
    assert_eq!(3, whole.documents.len());
    for cut in 0..=input.len() {
        let mut parts = Documents::default();
        let mut reader = ParseManyReader::new((), ParseManyOptions::new());
        reader.supply(&input[..cut]);
        let (step, _) = reader.read_to_end(&mut parts).expect("first part");
        assert_eq!(ParseManyStep::NeedInput, step);
        reader.supply(&input[cut..]);
        reader.end_input();
        let (step, stats) = reader.read_to_end(&mut parts).expect("second part");
        assert_eq!(ParseManyStep::End, step);
        assert_eq!(whole.documents, parts.documents, "cut at {cut}");
        assert_eq!(expected, stats, "cut at {cut}");
    }
}

#[test]
fn every_line_and_byte_is_counted() {
    let input = b"{}\n\nnope\n \n[1]";
    let options = NdjsonOptions::new().with_invalid_record_policy(InvalidRecordPolicy::Skip);
    let mut reader = NdjsonReader::new((), options);
    reader.supply(input);
    reader.end_input();
    let (step, stats) = reader.read_to_end(&mut Lines::default()).expect("read stream");
    assert_eq!(NdjsonStep::End, step);
    assert_eq!(input.len() as u64, stats.input_bytes());
    assert_eq!(5, stats.physical_lines());
    assert_eq!(2, stats.blank_lines());
    assert_eq!(1, stats.skipped_invalid_records());
    assert_eq!(2, stats.records());

    let input = b" {\"a\":1}\n{} {\"b";
    let options =
        ParseManyOptions::new().with_incomplete_document_policy(IncompleteDocumentPolicy::Ignore);
    let mut reader = ParseManyReader::new((), options);
    reader.supply(input);
    reader.end_input();
    let mut sink = Documents::default();
    let (step, stats) = reader.read_to_end(&mut sink).expect("read stream");
    assert_eq!(ParseManyStep::End, step);
    assert_eq!(input.len() as u64, stats.input_bytes());
    assert_eq!(3, stats.separator_bytes());
    assert_eq!(3, stats.truncated_bytes());
    assert_eq!(2, stats.documents());
    assert_eq!(vec![(b"{\"a\":1}".to_vec(), 1), (b"{}".to_vec(), 9)], sink.documents);
}

#[test]
fn a_failed_input_stops_the_reader() {
    let mut reader = ParseManyReader::new("carried", ParseManyOptions::new());
    reader.supply(b"{}");
    reader.stop();
    assert!(matches!(
        reader.read_document(&mut Documents::default()),
        Err(ParseManyReadError::Reader(ParseManyError::Stopped))
    ));
    assert_eq!("carried", reader.into_inner());
}

#[test]
fn scans_reject_what_no_object_can_start_with() {
    let reason = |input: &[u8]| {
        let mut reader = ParseManyReader::new((), ParseManyOptions::new());
        reader.supply(input);
        reader.end_input();
        match reader.read_document(&mut Documents::default()) {
            Err(ParseManyReadError::Reader(ParseManyError::InvalidDocument(invalid))) => {
                match invalid.kind() {
                    ParseManyInvalidDocumentKind::Syntax(error) => {
                        (error.kind(), error.byte_offset())
                    }
                    kind => panic!("unexpected kind: {kind:?}"),
                }
            }
            outcome => panic!("unexpected outcome: {outcome:?}"),
        }
    };
    assert_eq!((JsonSyntaxErrorKind::UnescapedControlCharacter, 2), reason(b"{\"\n\"}"));
    assert_eq!((JsonSyntaxErrorKind::InvalidEscape, 2), reason(b"{\"\\\n\"}"));
    assert_eq!((JsonSyntaxErrorKind::UnexpectedEnd, 3), reason(b"{\"a"));
    assert_eq!((JsonSyntaxErrorKind::ExpectedObject, 0), reason(b"}"));
}

fn syntax_of(source: &[u8]) -> (JsonSyntaxErrorKind, usize) {
    match parse_document(source, NdjsonLimits::default(), &mut ParserBuffers::new()) {
        Err(ParseFailure::Invalid(NdjsonInvalidRecordKind::Syntax(error))) => {
            (error.kind(), error.byte_offset())
        }
        outcome => panic!("unexpected outcome for {source:?}: {outcome:?}"),
    }
}

#[test]
fn each_syntax_error_has_its_offset() {
    for (source, kind, offset) in [
        (&b""[..], JsonSyntaxErrorKind::ExpectedValue, 0),
        (b"{\"a\":?}", JsonSyntaxErrorKind::ExpectedValue, 5),
        (b"{1:2}", JsonSyntaxErrorKind::ExpectedObjectKey, 1),
        (b"{\"a\" 1}", JsonSyntaxErrorKind::ExpectedColon, 5),
        (b"[1 2]", JsonSyntaxErrorKind::ExpectedCommaOrEnd, 3),
        (b"\"abc", JsonSyntaxErrorKind::UnexpectedEnd, 4),
        (b"1 2", JsonSyntaxErrorKind::TrailingCharacters, 2),
        (b"nuII", JsonSyntaxErrorKind::InvalidLiteral, 0),
        (b"-x", JsonSyntaxErrorKind::InvalidNumber, 1),
        (b"\"\\x\"", JsonSyntaxErrorKind::InvalidEscape, 1),
        (b"\"\\u12g4\"", JsonSyntaxErrorKind::InvalidUnicodeEscape, 1),
        (b"\"\\ude00\"", JsonSyntaxErrorKind::UnpairedSurrogate, 1),
        (b"\"a\tb\"", JsonSyntaxErrorKind::UnescapedControlCharacter, 2),
        (b"\"a\xff\"", JsonSyntaxErrorKind::InvalidUtf8, 2),
    ] {
        assert_eq!((kind, offset), syntax_of(source), "{source:?}");
        assert!(!kind.description().is_empty());
    }
}

#[test]
fn escaped_text_reads_back() {
    for text in ["", "plain", "\"\\/\u{8}\u{c}\n\r\t", "\u{1}\u{1f}\u{7f}", "é中😀\u{2028}"] {
        let mut json = String::new();
        append_json_string(text, &mut json, JsonEscapeLimits::default()).expect("escape");
        let mut bytes = Vec::new();
        append_json_string_bytes(
            text.as_bytes(),
            &mut bytes,
            JsonBytePolicy::StrictUtf8,
            JsonEscapeLimits::default(),
        )
        .expect("escape bytes");
        assert_eq!(json.as_bytes(), bytes);
        let mut buffers = ParserBuffers::new();
        parse_document(json.as_bytes(), NdjsonLimits::default(), &mut buffers).expect("valid JSON");
        let read = match buffers.events.as_slice() {
            [StoredEvent::StringSource(raw)] => raw.inner_bytes(json.as_bytes()).to_vec(),
            [StoredEvent::StringDecoded { decoded, .. }] => decoded.bytes(&buffers.decoded).to_vec(),
            events => panic!("unexpected events: {events:?}"),
        };
        assert_eq!(text.as_bytes(), read);
    }
}

#[test]
fn events_are_balanced_and_arrays_are_whole() {
    let mut reader = NdjsonReader::new((), NdjsonOptions::new());
    reader.supply(b"{\"a\":[1,[2,{\"b\":[]}]],\"c\":{}}\n");
    assert_eq!(NdjsonStep::Record, reader.next_record().expect("valid record"));
    let record = reader.record().expect("delivered record");
    let mut open = Vec::new();
    for event in collect(record.events()) {
        match event {
            JsonEvent::ObjectStart => open.push('{'),
            JsonEvent::ArrayStart(array) => {
                assert!(array.raw_json().starts_with(b"["));
                assert!(array.raw_json().ends_with(b"]"));
                open.push('[');
            }
            JsonEvent::ObjectEnd => assert_eq!(Some('{'), open.pop()),
            JsonEvent::ArrayEnd => assert_eq!(Some('['), open.pop()),
            _ => {}
        }
    }
    assert!(open.is_empty());
    reader.settle_record::<Infallible>(Ok(())).expect("accepted");
    assert_eq!(1, reader.stats().records());
}

#[test]
fn rejected_records_are_located() {
    let mut reader = NdjsonReader::new((), NdjsonOptions::new());
    reader.supply(b"1\n2\nx\n");
    let error = reader.read_to_end(&mut Lines::default()).expect_err("third line");
    let NdjsonReadError::Reader(NdjsonError::InvalidRecord(invalid)) = error else {
        panic!("unexpected error: {error:?}");
    };
    assert_eq!((3, 4), (invalid.line_number(), invalid.input_offset()));
}

#[test]
fn timestamp_paths_are_compiled_strictly() {
    for (descriptor, error) in [
        ("", JsonTimestampPathError::EmptyComponent { byte_offset: 0 }),
        ("a..b", JsonTimestampPathError::EmptyComponent { byte_offset: 2 }),
        ("a\\", JsonTimestampPathError::InvalidEscape { byte_offset: 1 }),
        ("a\\ud800", JsonTimestampPathError::InvalidUnicodeEscape { byte_offset: 1 }),
        ("*", JsonTimestampPathError::Wildcard { component_index: 0 }),
    ] {
        assert_eq!(Some(error), JsonTimestampPath::parse(descriptor).err(), "{descriptor:?}");
    }
    assert!(matches!(
        JsonTimestampPath::parse_with_limits("abc", JsonTimestampPathLimits::new(9, 9, 2)).err(),
        Some(JsonTimestampPathError::LimitExceeded {
            resource: JsonTimestampPathResource::ComponentBytes,
            ..
        })
    ));
    let path = JsonTimestampPath::parse("a.b").expect("compile path");
    assert!(path.matches(0, b"a"));
    assert!(!path.matches(0, b"b"));
    assert!(!path.matches(2, b"a"));
}

#[test]
fn dates_count_their_days() {
    let resolver = JsonTimestampResolver::parse("ts").expect("compile path");
    let epoch = |text: &str| {
        let raw = format!("\"{text}\"");
        resolver
            .resolve_string(JsonString::new_bytes(raw.as_bytes(), text.as_bytes()))
            .map(|timestamp| timestamp.epoch_nanoseconds())
    };
    const DAY: i64 = 86_400_000_000_000;
    assert_eq!(Ok(0), epoch("1970-01-01 00:00:00"));
    let leap = epoch("2024-02-29T00:00:00").expect("leap day");
    assert_eq!(Ok(leap + DAY), epoch("2024-03-01T00:00:00"));
    let century = epoch("1900-02-28 00:00:00").expect("no leap year");
    assert_eq!(Ok(century + DAY), epoch("1900-03-01 00:00:00"));
    let year_end = epoch("1999-12-31 23:59:59").expect("year end");
    assert_eq!(Ok(year_end + 1_000_000_000), epoch("2000-01-01 00:00:00"));
    for text in ["2023-02-29 00:00:00", "1900-02-29 00:00:00", "2024-13-01 00:00:00", "soon"] {
        assert_eq!(
            Err(JsonTimestampError::UnsupportedLexeme { kind: JsonTimestampScalarKind::String }),
            epoch(text),
            "{text}"
        );
    }
}

#[test]
fn encoded_texts_are_decoded_or_located() {
    let decode = |encoding, variables: &[KvIrEncodedVariable], words: &[Vec<u8>], logtype: &[u8]| {
        let text = KvIrEncodedText {
            encoding,
            encoded_variables: variables,
            dictionary_variables: words,
            logtype,
        };
        let mut output = b"<".to_vec();
        let outcome = text.append_decoded_to(&mut output, 64);
        (outcome, output)
    };
    let four = KvIrEncoding::FourByte;
    let eight = KvIrEncoding::EightByte;
    let (range, output) = decode(
        eight,
        &[KvIrEncodedVariable::EightByte(-5), KvIrEncodedVariable::EightByte(32_033)],
        &[b"word".to_vec()],
        b"a\x11b\x12c\x13\\\x11",
    );
    assert_eq!(b"<a-5bwordc1.25\x11", output.as_slice());
    assert_eq!(Ok(1..output.len()), range);
    for (variables, words, logtype, error) in [
        (vec![], vec![], &b"\x11"[..], KvIrEncodedTextError::MissingEncodedVariable),
        (vec![], vec![], b"\x12", KvIrEncodedTextError::MissingDictionaryVariable),
        (vec![], vec![], b"x\\", KvIrEncodedTextError::TrailingEscape),
        (
            vec![KvIrEncodedVariable::EightByte(1)],
            vec![],
            b"\x11",
            KvIrEncodedTextError::EncodedVariableWidthMismatch,
        ),
        (
            vec![KvIrEncodedVariable::FourByte(0x07)],
            vec![],
            b"\x13",
            KvIrEncodedTextError::EncodedFloatDecimalPosition,
        ),
        (
            vec![],
            vec![vec![b'w'; 65]],
            b"\x12",
            KvIrEncodedTextError::Limit { actual: 65, limit: 64 },
        ),
    ] {
        let (outcome, output) = decode(four, &variables, &words, logtype);
        assert_eq!(Err(error), outcome);
        assert_eq!(b"<", output.as_slice());
    }
}

#[test]
fn streams_may_come_byte_by_byte() {
    let input = b"{\"a\":1}\nnope\n\n[2]\r\n\"\xff\"\nnull";
    let options = NdjsonOptions::new().with_invalid_record_policy(InvalidRecordPolicy::Skip);
    let mut whole = Lines::default();
    let mut reader = NdjsonReader::new((), options);
    reader.supply(input);
    reader.end_input();
    let (_, expected) = reader.read_to_end(&mut whole).expect("whole stream");
    let mut parts = Lines::default();
    let mut reader = NdjsonReader::new((), options);
    for byte in input {
        reader.supply(&[*byte]);
        let (step, _) = reader.read_to_end(&mut parts).expect("one byte");
        assert_eq!(NdjsonStep::NeedInput, step);
    }
    reader.end_input();
    let (step, stats) = reader.read_to_end(&mut parts).expect("end of input");
    assert_eq!(NdjsonStep::End, step);
    assert_eq!(whole.records, parts.records);
    assert_eq!(expected, stats);
}

#[test]
fn skipped_lines_leave_their_neighbours() {
    let lines: [&[u8]; 6] = [b"{\"a\":1}", b"{\"a\":", b" [true] ", b"", b"\"\xff\"", b"7"];
    let options = NdjsonOptions::new().with_invalid_record_policy(InvalidRecordPolicy::Skip);
    let mut together = Lines::default();
    let mut reader = NdjsonReader::new((), options);
    reader.supply(&lines.join(&b'\n'));
    reader.end_input();
    let (_, stats) = reader.read_to_end(&mut together).expect("all lines");
    let mut expected = Vec::new();
    let mut rejected = 0;
    for (line, number) in lines.iter().zip(1_u64..) {
        let mut alone = Lines::default();
        let mut reader = NdjsonReader::new((), NdjsonOptions::new());
        reader.supply(line);
        reader.end_input();
        match reader.read_to_end(&mut alone) {
            Ok(_) => {
                expected.extend(alone.records.into_iter().map(|(bytes, _)| (bytes, number)));
            }
            Err(_) => rejected += 1,
        }
    }
    assert_eq!(3, expected.len());
    assert_eq!(expected, together.records);
    assert_eq!(2, rejected);
    assert_eq!(rejected, stats.skipped_invalid_records());
}

#[test]
fn documents_stand_at_their_offsets() {
    let input = b"\n{\"a\":\"}\"}{}  {\n\"b\": [1, 2]\n}";
    let mut sink = Documents::default();
    let mut reader = ParseManyReader::new((), ParseManyOptions::new());
    reader.supply(input);
    reader.end_input();
    reader.read_to_end(&mut sink).expect("read stream");
    let offsets: Vec<u64> = sink.documents.iter().map(|(_, offset)| *offset).collect();
    assert_eq!(vec![1, 10, 14], offsets);
    for (bytes, offset) in sink.documents {
        let start = usize::try_from(offset).expect("small offset");
        assert_eq!(&input[start..start + bytes.len()], bytes);
    }
}

#[test]
fn objects_may_come_byte_by_byte() {
    let input = b" {\"a\":\"}{\"}{}\n{\"b\":[1]} ?";
    let mut whole = Documents::default();
    let mut reader = ParseManyReader::new((), ParseManyOptions::new());
    reader.supply(input);
    reader.end_input();
    let expected = match reader.read_to_end(&mut whole) {
        Err(ParseManyReadError::Reader(ParseManyError::InvalidDocument(invalid))) => invalid,
        outcome => panic!("unexpected outcome: {outcome:?}"),
    };
    let mut parts = Documents::default();
    let mut reader = ParseManyReader::new((), ParseManyOptions::new());
    for (byte, left) in input.iter().zip((0..input.len()).rev()) {
        reader.supply(&[*byte]);
        match reader.read_to_end(&mut parts) {
            Ok((step, _)) => assert_eq!((ParseManyStep::NeedInput, true), (step, left > 0)),
            Err(ParseManyReadError::Reader(ParseManyError::InvalidDocument(invalid))) => {
                assert_eq!(0, left);
                assert_eq!(format!("{expected:?}"), format!("{invalid:?}"));
            }
            outcome => panic!("unexpected outcome: {outcome:?}"),
        }
    }
    assert_eq!(3, whole.documents.len());
    assert_eq!(whole.documents, parts.documents);
}

#[test]
fn a_failed_input_drops_the_open_line() {
    let mut lines = Lines::default();
    let mut reader = NdjsonReader::new((), NdjsonOptions::new());
    reader.supply(b"{}\n[1,");
    let (step, stats) = reader.read_to_end(&mut lines).expect("first part");
    assert_eq!((NdjsonStep::NeedInput, 6), (step, stats.input_bytes()));
    reader.drop_line();
    reader.supply(b"2\n");
    reader.end_input();
    let (step, stats) = reader.read_to_end(&mut lines).expect("second part");
    assert_eq!((NdjsonStep::End, 8), (step, stats.input_bytes()));
    assert_eq!(vec![(b"{}".to_vec(), 1), (b"2".to_vec(), 2)], lines.records);
}
