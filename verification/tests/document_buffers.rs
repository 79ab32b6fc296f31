//! Where the documents of a stream of objects lie while they are delivered.

use std::convert::Infallible;
use std::io::Read;

use clp_s::ndjson::{JsonEvent, JsonEvents, JsonSyntaxErrorKind};
use clp_s::parse_many::{
    ParseManyDocument, ParseManyDocumentSink, ParseManyError, ParseManyInvalidDocumentKind,
    ParseManyLimitResource, ParseManyLimits, ParseManyOptions, ParseManyReadError, ParseManyReader,
    ParseManyStep,
};

const INPUT_BUFFER_BYTES: usize = 8 * 1024;

fn address_of(bytes: &[u8]) -> usize {
    bytes.as_ptr() as usize
}

fn all_events(mut events: JsonEvents<'_>) -> Vec<JsonEvent<'_>> {
    let mut found = Vec::new();
    while let Some(event) = events.next() {
        found.push(event);
    }
    found
}

/// Reads one document, and supplies input in chunks of one size.
fn next_chunked_document<R: Read, S: ParseManyDocumentSink>(
    reader: &mut ParseManyReader<R>,
    sink: &mut S,
) -> Result<bool, ParseManyReadError<S::Error>> {
    let mut buffer = [0_u8; INPUT_BUFFER_BYTES];
    loop {
        match reader.read_document(sink)? {
            ParseManyStep::Document => return Ok(true),
            ParseManyStep::End => return Ok(false),
            ParseManyStep::NeedInput => {
                let count = reader.input_mut().read(&mut buffer).expect("read input");
                if count == 0 {
                    reader.end_input();
                } else {
                    reader.supply(&buffer[..count]);
                }
            }
        }
    }
}

#[derive(Default)]
struct BorrowCaptureSink {
    json_addresses: Vec<usize>,
    documents: Vec<Vec<u8>>,
    decoded_strings: Vec<String>,
    input_offsets: Vec<u64>,
}

impl ParseManyDocumentSink for BorrowCaptureSink {
    type Error = Infallible;

    fn write_document(&mut self, document: ParseManyDocument<'_>) -> Result<(), Self::Error> {
        self.json_addresses.push(address_of(document.json_bytes()));
        self.documents.push(document.json_bytes().to_vec());
        self.input_offsets.push(document.input_offset());
        self.decoded_strings
            .extend(all_events(document.events()).into_iter().filter_map(|event| match event {
                JsonEvent::String(value) => Some(value.decoded().to_owned()),
                _ => None,
            }));
        Ok(())
    }
}

#[test]
fn in_buffer_documents_borrow_the_reused_input_buffer_across_refills() {
    let first = br#"{"value":"first\u0020value"}"#;
    let second = br#"{"value":"second\u0020value"}"#;
    let mut input = Vec::with_capacity(INPUT_BUFFER_BYTES + second.len() + 1);
    input.extend_from_slice(first);
    input.push(b'\n');
    input.resize(INPUT_BUFFER_BYTES, b' ');
    input.extend_from_slice(second);
    input.push(b'\n');

    let mut reader = ParseManyReader::new(input.as_slice(), ParseManyOptions::default());
        let mut sink = BorrowCaptureSink::default();

    assert!(next_chunked_document(&mut reader, &mut sink).unwrap());
    assert_eq!(address_of(reader.input_buffer()), sink.json_addresses[0]);
    assert_eq!(0, reader.buffer_capacities().0);

    assert!(next_chunked_document(&mut reader, &mut sink).unwrap());
    assert_eq!(address_of(reader.input_buffer()), sink.json_addresses[1]);
    assert_eq!(0, reader.buffer_capacities().0);
    assert!(!next_chunked_document(&mut reader, &mut sink).unwrap());

    assert_eq!(vec![first.to_vec(), second.to_vec()], sink.documents);
    assert_eq!(vec!["first value", "second value"], sink.decoded_strings);
    assert_eq!(2, reader.stats().documents());
    assert_eq!(
        u64::try_from(input.len()).unwrap(),
        reader.stats().input_bytes()
    );
}

#[test]
fn in_buffer_multiline_document_is_zero_copy() {
    let input = br#"{
        "value":"multiline\u0020value"
    }
    "#;
    let mut reader = ParseManyReader::new(input.as_slice(), ParseManyOptions::default());
        let mut sink = BorrowCaptureSink::default();

    assert!(next_chunked_document(&mut reader, &mut sink).unwrap());
    assert_eq!(address_of(reader.input_buffer()), sink.json_addresses[0]);
    assert_eq!(0, reader.buffer_capacities().0);
    assert_eq!(vec!["multiline value"], sink.decoded_strings);
    assert!(!next_chunked_document(&mut reader, &mut sink).unwrap());
}

#[test]
fn directly_adjacent_in_buffer_documents_are_each_zero_copy() {
    let first = br#"{"id":1}"#;
    let second = br#"{"id":2}"#;
    let mut input = first.to_vec();
    input.extend_from_slice(second);
    let mut reader = ParseManyReader::new(input.as_slice(), ParseManyOptions::default());
        let mut sink = BorrowCaptureSink::default();

    assert!(next_chunked_document(&mut reader, &mut sink).unwrap());
    assert!(next_chunked_document(&mut reader, &mut sink).unwrap());
    assert!(!next_chunked_document(&mut reader, &mut sink).unwrap());

    assert_eq!(address_of(reader.input_buffer()), sink.json_addresses[0]);
    assert_eq!(
        address_of(reader.input_buffer()) + first.len(),
        sink.json_addresses[1]
    );
    assert_eq!(0, reader.buffer_capacities().0);
    assert_eq!(vec![first.to_vec(), second.to_vec()], sink.documents);
    assert_eq!(
        vec![0, u64::try_from(first.len()).unwrap()],
        sink.input_offsets
    );
}

#[test]
fn cross_buffer_document_keeps_the_owned_fallback() {
    let mut input = br#"{"value":""#.to_vec();
    input.extend(std::iter::repeat_n(b'x', INPUT_BUFFER_BYTES));
    input.extend_from_slice(br#""}"#);
    let mut reader = ParseManyReader::new(input.as_slice(), ParseManyOptions::default());
        let mut sink = BorrowCaptureSink::default();

    assert!(next_chunked_document(&mut reader, &mut sink).unwrap());
    assert_ne!(address_of(reader.input_buffer()), sink.json_addresses[0]);
    assert_eq!(address_of(reader.document_buffer()), sink.json_addresses[0]);
    assert_ne!(0, reader.buffer_capacities().0);
    assert_eq!(1, sink.documents.len());
    assert_eq!(input.as_slice(), sink.documents[0].as_slice());
    assert!(!next_chunked_document(&mut reader, &mut sink).unwrap());
}

#[test]
fn malformed_in_buffer_prefix_falls_back_to_the_exact_document_error() {
    let input = br#"{"bad":}"#;
    let mut reader = ParseManyReader::new(input.as_slice(), ParseManyOptions::default());
    let mut sink = BorrowCaptureSink::default();

    let error = next_chunked_document(&mut reader, &mut sink)
        .expect_err("the object value is missing");
    let ParseManyReadError::Reader(ParseManyError::InvalidDocument(invalid)) = error else {
        panic!("unexpected malformed-document failure: {error:?}");
    };
    let ParseManyInvalidDocumentKind::Syntax(source) = invalid.kind() else {
        panic!("unexpected malformed-document kind: {:?}", invalid.kind());
    };
    assert_eq!(JsonSyntaxErrorKind::ExpectedValue, source.kind());
    assert_eq!(7, source.byte_offset());
    assert_ne!(0, reader.buffer_capacities().0);
    assert_eq!(sink.documents, Vec::<Vec<u8>>::new());
}

#[test]
fn document_byte_limit_keeps_precedence_over_speculative_parser_limits() {
    let input = br#"{"a":[[[0]]]}"#;
    let limits = ParseManyLimits::new(6, 1, 2, 2);
    let mut reader = ParseManyReader::new(
        input.as_slice(),
        ParseManyOptions::new().with_limits(limits),
    );
    let mut sink = BorrowCaptureSink::default();

    let error = next_chunked_document(&mut reader, &mut sink)
        .expect_err("document bytes must be checked before parser limits");
    let ParseManyReadError::Reader(ParseManyError::InvalidDocument(invalid)) = error else {
        panic!("unexpected document-limit failure: {error:?}");
    };
    let ParseManyInvalidDocumentKind::Limit(source) = invalid.kind() else {
        panic!("unexpected document-limit kind: {:?}", invalid.kind());
    };
    assert_eq!(ParseManyLimitResource::DocumentBytes, source.resource());
    assert_eq!(7, source.actual());
    assert_eq!(6, source.limit());
    assert_eq!(sink.documents, Vec::<Vec<u8>>::new());
}

#[test]
fn overlimit_speculation_does_not_decode_bytes_beyond_the_document_limit() {
    let mut input = br#"{"a":""#.to_vec();
    for _ in 0..1_000 {
        input.extend_from_slice(br"\n");
    }
    input.extend_from_slice(br#""}"#);
    let limits = ParseManyLimits::new(
        6,
        256,
        1_000_000,
        ParseManyLimits::default().max_scalar_token_bytes(),
    );
    let mut reader = ParseManyReader::new(
        input.as_slice(),
        ParseManyOptions::new().with_limits(limits),
    );
    let mut sink = BorrowCaptureSink::default();

    let error = next_chunked_document(&mut reader, &mut sink)
        .expect_err("the seventh document byte exceeds the configured limit");
    let ParseManyReadError::Reader(ParseManyError::InvalidDocument(invalid)) = error else {
        panic!("unexpected document-limit failure: {error:?}");
    };
    let ParseManyInvalidDocumentKind::Limit(source) = invalid.kind() else {
        panic!("unexpected document-limit kind: {:?}", invalid.kind());
    };
    assert_eq!(ParseManyLimitResource::DocumentBytes, source.resource());
    assert_eq!(7, source.actual());
    assert_eq!(6, source.limit());
    assert_eq!(0, reader.buffer_capacities().1);
    assert_eq!(sink.documents, Vec::<Vec<u8>>::new());
}
