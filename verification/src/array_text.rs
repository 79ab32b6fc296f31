//! JSON text of MessagePack arrays, as they are kept in encoded texts.

use vstd::prelude::*;
use vstd::slice::slice_subrange;

use crate::msgpack::{
    depth_checked, header_at, lemma_header_progress, malformed, map_key_at, Cursor, Header,
    HeaderView, MessagePackReader, Source,
};
use crate::serializer_options::KvIrSerializerError;
use crate::stage::{
    append_i64, append_limited, checked_push, event_bytes, is_packet_refused, scalar_bytes, staged,
};
use crate::decimal::decimal;

verus! {

/// The spelling of one float, by its bits.
pub struct FloatText {
    pub bits: u64,
    pub text: Vec<u8>,
}

/// The spelling of a float, if it was supplied.
pub open spec fn float_spelling(texts: Seq<FloatText>, bits: u64) -> Option<Seq<u8>>
    decreases texts.len(),
{
    if texts.len() == 0 {
        None
    } else if texts[0].bits == bits {
        Some(texts[0].text@)
    } else {
        float_spelling(texts.drop_first(), bits)
    }
}

/// What the text of a value depends on besides the value.
pub struct TextRules {
    pub limit: u64,
    pub floats: Seq<FloatText>,
}

/// Whether a byte is escaped in an array's strings.
pub open spec fn is_escaped_byte(byte: u8) -> bool {
    byte == 0x5c || byte == 0x22 || byte == 0x2f || byte < 0x20 || byte == 0x7f
}

/// Lowercase hexadecimal digit.
pub open spec fn hex_letter(value: int) -> u8 {
    if value < 10 {
        (0x30 + value) as u8
    } else {
        (0x61 + value - 10) as u8
    }
}

/// Escape of a byte in an array's strings.
pub open spec fn byte_escape(byte: u8) -> Seq<u8> {
    if byte == 0x5c || byte == 0x22 || byte == 0x2f {
        seq![0x5cu8, byte]
    } else if byte == 0x08 {
        seq![0x5cu8, 0x62]
    } else if byte == 0x0c {
        seq![0x5cu8, 0x66]
    } else if byte == 0x0a {
        seq![0x5cu8, 0x6e]
    } else if byte == 0x0d {
        seq![0x5cu8, 0x72]
    } else if byte == 0x09 {
        seq![0x5cu8, 0x74]
    } else {
        seq![
            0x5cu8,
            0x75,
            0x30,
            0x30,
            hex_letter(byte as int / 0x10),
            hex_letter(byte as int % 0x10),
        ]
    }
}

/// First byte at or after `at` that is escaped.
pub open spec fn next_escaped(value: Seq<u8>, at: int) -> int
    decreases value.len() - at,
{
    if 0 <= at < value.len() && !is_escaped_byte(value[at]) {
        next_escaped(value, at + 1)
    } else {
        at
    }
}

/// The text with the string content from `at` on appended.
pub open spec fn with_string_content(json: Seq<u8>, value: Seq<u8>, at: int, limit: u64) -> Result<
    Seq<u8>,
    KvIrSerializerError,
>
    decreases value.len() - at,
{
    let end = next_escaped(value, at);
    if at < 0 || at >= value.len() || end < at || end > value.len() {
        Ok(json)
    } else {
        let plain = if end == at {
            Ok(json)
        } else {
            scalar_bytes(json, value.subrange(at, end), limit)
        };
        match plain {
            Err(error) => Err(error),
            Ok(before) => if end == value.len() {
                Ok(before)
            } else {
                match scalar_bytes(before, byte_escape(value[end]), limit) {
                    Err(error) => Err(error),
                    Ok(next) => with_string_content(next, value, end + 1, limit),
                }
            },
        }
    }
}

/// The text with a quoted string appended.
pub open spec fn with_quoted(json: Seq<u8>, value: Seq<u8>, limit: u64) -> Result<
    Seq<u8>,
    KvIrSerializerError,
> {
    match event_bytes(json, seq![0x22u8], limit) {
        Err(error) => Err(error),
        Ok(opened) => match with_string_content(opened, value, 0, limit) {
            Err(error) => Err(error),
            Ok(content) => event_bytes(content, seq![0x22u8], limit),
        },
    }
}

pub open spec fn null_text() -> Seq<u8> {
    seq![0x6eu8, 0x75, 0x6c, 0x6c]
}

pub open spec fn boolean_text(value: bool) -> Seq<u8> {
    if value {
        seq![0x74u8, 0x72, 0x75, 0x65]
    } else {
        seq![0x66u8, 0x61, 0x6c, 0x73, 0x65]
    }
}

/// The text with a scalar appended.
pub open spec fn with_scalar(rules: TextRules, json: Seq<u8>, header: HeaderView) -> Result<
    Seq<u8>,
    KvIrSerializerError,
> {
    match header {
        HeaderView::Nil => scalar_bytes(json, null_text(), rules.limit),
        HeaderView::Boolean(value) => scalar_bytes(json, boolean_text(value), rules.limit),
        HeaderView::Integer(value) => scalar_bytes(json, decimal(value as int), rules.limit),
        HeaderView::Float(bits) => match float_spelling(rules.floats, bits) {
            Some(text) => scalar_bytes(json, text, rules.limit),
            None => Err(KvIrSerializerError::FloatTextMissing { bits }),
        },
        HeaderView::String(value) => with_quoted(json, value, rules.limit),
        _ => Err(KvIrSerializerError::SizeOverflow),
    }
}

/// A comma before every item but the first.
pub open spec fn with_comma(json: Seq<u8>, first: bool, limit: u64) -> Result<
    Seq<u8>,
    KvIrSerializerError,
> {
    if first {
        Ok(json)
    } else {
        scalar_bytes(json, seq![0x2cu8], limit)
    }
}

/// The text with the value of a header appended, and the cursor after the value. Arrays inside lie
/// at `array_depth` and maps inside at `map_depth`.
pub open spec fn with_value(
    rules: TextRules,
    source: Source,
    json: Seq<u8>,
    header: HeaderView,
    offset: int,
    cursor: Cursor,
    array_depth: int,
    map_depth: int,
) -> Result<(Seq<u8>, Cursor), KvIrSerializerError>
    decreases source.bytes.len() - cursor.position, 4int,
{
    match header {
        HeaderView::ArrayHead(elements) => match scalar_bytes(json, seq![0x5bu8], rules.limit) {
            Err(error) => Err(error),
            Ok(opened) => match with_array(rules, source, opened, cursor, elements, array_depth) {
                Err(error) => Err(error),
                Ok((content, next)) => match scalar_bytes(content, seq![0x5du8], rules.limit) {
                    Err(error) => Err(error),
                    Ok(closed) => Ok((closed, next)),
                },
            },
        },
        HeaderView::MapHead(pairs) => match scalar_bytes(json, seq![0x7bu8], rules.limit) {
            Err(error) => Err(error),
            Ok(opened) => match with_map(rules, source, opened, cursor, pairs, map_depth) {
                Err(error) => Err(error),
                Ok((content, next)) => match scalar_bytes(content, seq![0x7du8], rules.limit) {
                    Err(error) => Err(error),
                    Ok(closed) => Ok((closed, next)),
                },
            },
        },
        HeaderView::Unsupported(kind) => Err(malformed(source, offset, kind)),
        _ => match with_scalar(rules, json, header) {
            Err(error) => Err(error),
            Ok(next) => Ok((next, cursor)),
        },
    }
}

/// The text with the elements of an array appended; the array lies one level below `depth`.
pub open spec fn with_array(
    rules: TextRules,
    source: Source,
    json: Seq<u8>,
    cursor: Cursor,
    elements: u32,
    depth: int,
) -> Result<(Seq<u8>, Cursor), KvIrSerializerError>
    decreases source.bytes.len() - cursor.position, 3int,
{
    if depth + 1 > u64::MAX {
        Err(KvIrSerializerError::SizeOverflow)
    } else {
        match depth_checked(source, depth + 1) {
            Err(error) => Err(error),
            Ok(_) => with_elements(
                rules,
                source,
                json,
                cursor,
                elements as int,
                true,
                depth + 1,
            ),
        }
    }
}

/// The text with the last `left` elements of an array at `depth` appended.
pub open spec fn with_elements(
    rules: TextRules,
    source: Source,
    json: Seq<u8>,
    cursor: Cursor,
    left: int,
    first: bool,
    depth: int,
) -> Result<(Seq<u8>, Cursor), KvIrSerializerError>
    decreases source.bytes.len() - cursor.position, 2int,
{
    if left <= 0 {
        Ok((json, cursor))
    } else {
        match with_element(rules, source, json, cursor, first, depth) {
            Err(error) => Err(error),
            Ok((content, next)) => if cursor.position < next.position <= source.bytes.len() {
                with_elements(rules, source, content, next, left - 1, false, depth)
            } else {
                Err(KvIrSerializerError::SizeOverflow)
            },
        }
    }
}

/// The text with one element of an array at `depth` appended.
pub open spec fn with_element(
    rules: TextRules,
    source: Source,
    json: Seq<u8>,
    cursor: Cursor,
    first: bool,
    depth: int,
) -> Result<(Seq<u8>, Cursor), KvIrSerializerError>
    decreases source.bytes.len() - cursor.position, 1int,
{
    match with_comma(json, first, rules.limit) {
        Err(error) => Err(error),
        Ok(separated) => match header_at(source, cursor) {
            Err(error) => Err(error),
            Ok((header, after)) => if cursor.position < after.position <= source.bytes.len() {
                with_value(
                    rules,
                    source,
                    separated,
                    header,
                    cursor.position,
                    after,
                    depth,
                    depth,
                )
            } else {
                Err(KvIrSerializerError::SizeOverflow)
            },
        },
    }
}

/// The text with the pairs of a map at `depth` appended.
pub open spec fn with_map(
    rules: TextRules,
    source: Source,
    json: Seq<u8>,
    cursor: Cursor,
    pairs: u32,
    depth: int,
) -> Result<(Seq<u8>, Cursor), KvIrSerializerError>
    decreases source.bytes.len() - cursor.position, 3int,
{
    match depth_checked(source, depth) {
        Err(error) => Err(error),
        Ok(_) => with_pairs(rules, source, json, cursor, pairs as int, true, depth),
    }
}

/// The text with the last `left` pairs of a map at `depth` appended.
pub open spec fn with_pairs(
    rules: TextRules,
    source: Source,
    json: Seq<u8>,
    cursor: Cursor,
    left: int,
    first: bool,
    depth: int,
) -> Result<(Seq<u8>, Cursor), KvIrSerializerError>
    decreases source.bytes.len() - cursor.position, 2int,
{
    if left <= 0 {
        Ok((json, cursor))
    } else {
        match with_pair(rules, source, json, cursor, first, depth) {
            Err(error) => Err(error),
            Ok((content, next)) => if cursor.position < next.position <= source.bytes.len() {
                with_pairs(rules, source, content, next, left - 1, false, depth)
            } else {
                Err(KvIrSerializerError::SizeOverflow)
            },
        }
    }
}

/// The text with the key of a map appended, and the colon behind it.
pub open spec fn with_key(json: Seq<u8>, key: Seq<u8>, limit: u64) -> Result<
    Seq<u8>,
    KvIrSerializerError,
> {
    match with_quoted(json, key, limit) {
        Err(error) => Err(error),
        Ok(quoted) => scalar_bytes(quoted, seq![0x3au8], limit),
    }
}

/// The text with one pair of a map at `depth` appended.
pub open spec fn with_pair(
    rules: TextRules,
    source: Source,
    json: Seq<u8>,
    cursor: Cursor,
    first: bool,
    depth: int,
) -> Result<(Seq<u8>, Cursor), KvIrSerializerError>
    decreases source.bytes.len() - cursor.position, 1int,
{
    match with_comma(json, first, rules.limit) {
        Err(error) => Err(error),
        Ok(separated) => match map_key_at(source, cursor) {
            Err(error) => Err(error),
            Ok((key, keyed)) => match with_key(separated, key, rules.limit) {
                Err(error) => Err(error),
                Ok(colon) => match header_at(source, keyed) {
                    Err(error) => Err(error),
                    Ok((header, after)) => if depth + 1 > u64::MAX {
                        Err(KvIrSerializerError::SizeOverflow)
                    } else if cursor.position < after.position <= source.bytes.len() {
                        with_value(
                            rules,
                            source,
                            colon,
                            header,
                            keyed.position,
                            after,
                            depth,
                            depth + 1,
                        )
                    } else {
                        Err(KvIrSerializerError::SizeOverflow)
                    },
                },
            },
        },
    }
}

/// What reading values into a text came to. No more memory is ever asked for than the limit allows.
pub open spec fn text_read(
    limit: u64,
    expected: Result<(Seq<u8>, Cursor), KvIrSerializerError>,
    json: Seq<u8>,
    cursor: Cursor,
    result: Result<(), KvIrSerializerError>,
) -> bool {
    match result {
        Ok(_) => expected == Ok::<(Seq<u8>, Cursor), KvIrSerializerError>((json, cursor)),
        Err(error) => is_packet_refused(error, limit) || expected == Err::<(Seq<u8>, Cursor), KvIrSerializerError>(error),
    }
}

/// Whether a byte is escaped in an array's strings.
fn needs_json_escape(byte: u8) -> (result: bool)
    ensures
        result == is_escaped_byte(byte),
{
    byte == 0x5c || byte == 0x22 || byte == 0x2f || byte < 0x20 || byte == 0x7f
}

fn hex_byte(value: u8) -> (letter: u8)
    requires
        value < 16,
    ensures
        letter == hex_letter(value as int),
{
    if value < 10 {
        0x30 + value
    } else {
        0x61 + (value - 10)
    }
}

fn append_escape(output: &mut Vec<u8>, byte: u8, limit: u64) -> (result: Result<
    (),
    KvIrSerializerError,
>)
    ensures
        staged(old(output)@, limit, scalar_bytes(old(output)@, byte_escape(byte), limit), final(output)@, result),
{
    let second: u8 = match byte {
        0x5c | 0x22 | 0x2f => byte,
        0x08 => 0x62,
        0x0c => 0x66,
        0x0a => 0x6e,
        0x0d => 0x72,
        0x09 => 0x74,
        _ => {
            let long: [u8; 6] = [
                0x5c,
                0x75,
                0x30,
                0x30,
                hex_byte(byte / 0x10),
                hex_byte(byte % 0x10),
            ];
            assert(long@ =~= byte_escape(byte));
            return append_limited(output, &long, limit);
        },
    };
    let short: [u8; 2] = [0x5c, second];
    assert(short@ =~= byte_escape(byte));
    append_limited(output, &short, limit)
}

/// Appends a quoted string; runs of ordinary bytes are copied whole.
pub fn append_msgpack_string(output: &mut Vec<u8>, value: &[u8], limit: u64) -> (result: Result<
    (),
    KvIrSerializerError,
>)
    ensures
        staged(old(output)@, limit, with_quoted(old(output)@, value@, limit), final(output)@, result),
{
    checked_push(output, 0x22, limit, "array JSON")?;
    let ghost opened = output@;
    let mut at: usize = 0;
    while at < value.len()
        invariant
            at <= value@.len(),
            event_bytes(old(output)@, seq![0x22u8], limit) == Ok::<Seq<u8>, KvIrSerializerError>(
                opened,
            ),
            with_string_content(output@, value@, at as int, limit) == with_string_content(
                opened,
                value@,
                0,
                limit,
            ),
        decreases value@.len() - at,
    {
        let start = at;
        let mut end: usize = at;
        while end < value.len() && !needs_json_escape(value[end])
            invariant
                start <= end <= value@.len(),
                next_escaped(value@, end as int) == next_escaped(value@, start as int),
            decreases value@.len() - end,
        {
            end += 1;
        }
        if end != start {
            append_limited(output, slice_subrange(value, start, end), limit)?;
        }
        if end < value.len() {
            append_escape(output, value[end], limit)?;
            at = end + 1;
        } else {
            at = end;
        }
    }
    checked_push(output, 0x22, limit, "array JSON")
}

/// Finds the supplied spelling of a float.
fn find_float_text(texts: &[FloatText], bits: u64) -> (result: Option<&[u8]>)
    ensures
        match result {
            Some(text) => float_spelling(texts@, bits) == Some(text@),
            None => float_spelling(texts@, bits) is None,
        },
{
    let mut at: usize = 0;
    assert(texts@.skip(0) =~= texts@);
    while at < texts.len()
        invariant
            at <= texts@.len(),
            float_spelling(texts@.skip(at as int), bits) == float_spelling(texts@, bits),
        decreases texts@.len() - at,
    {
        proof {
            assert(texts@.skip(at as int).drop_first() =~= texts@.skip(at + 1));
            assert(texts@.skip(at as int)[0] == texts@[at as int]);
        }
        if texts[at].bits == bits {
            return Some(texts[at].text.as_slice());
        }
        at += 1;
    }
    None
}

/// Appends a scalar.
fn append_scalar(output: &mut Vec<u8>, header: Header<'_>, limit: u64, texts: &[FloatText]) -> (result:
    Result<(), KvIrSerializerError>)
    ensures
        staged(
            old(output)@,
            limit,
            with_scalar(TextRules { limit, floats: texts@ }, old(output)@, header@),
            final(output)@,
            result,
        ),
{
    match header {
        Header::Nil => {
            let text: [u8; 4] = [0x6e, 0x75, 0x6c, 0x6c];
            assert(text@ =~= null_text());
            append_limited(output, &text, limit)
        },
        Header::Boolean(true) => {
            let text: [u8; 4] = [0x74, 0x72, 0x75, 0x65];
            assert(text@ =~= boolean_text(true));
            append_limited(output, &text, limit)
        },
        Header::Boolean(false) => {
            let text: [u8; 5] = [0x66, 0x61, 0x6c, 0x73, 0x65];
            assert(text@ =~= boolean_text(false));
            append_limited(output, &text, limit)
        },
        Header::Integer(value) => append_i64(output, value, limit),
        Header::Float(bits) => {
            match find_float_text(texts, bits) {
                Some(text) => append_limited(output, text, limit),
                None => Err(KvIrSerializerError::FloatTextMissing { bits }),
            }
        },
        Header::String(value) => append_msgpack_string(output, value, limit),
        _ => Err(KvIrSerializerError::SizeOverflow),
    }
}

/// Appends one byte of punctuation.
fn append_byte(output: &mut Vec<u8>, byte: u8, limit: u64) -> (result: Result<
    (),
    KvIrSerializerError,
>)
    ensures
        staged(old(output)@, limit, scalar_bytes(old(output)@, seq![byte], limit), final(output)@, result),
{
    let bytes: [u8; 1] = [byte];
    assert(bytes@ =~= seq![byte]);
    append_limited(output, &bytes, limit)
}

/// Appends the value of a header that was just read.
fn stringify_value(
    reader: &mut MessagePackReader<'_>,
    output: &mut Vec<u8>,
    header: Header<'_>,
    offset: usize,
    array_depth: u64,
    map_depth: u64,
    limit: u64,
    texts: &[FloatText],
) -> (result: Result<(), KvIrSerializerError>)
    requires
        old(reader).wf(),
    ensures
        final(reader).wf(),
        final(reader).source() == old(reader).source(),
        result is Ok ==> final(reader).position >= old(reader).position,
        text_read(
            limit,
            with_value(
                TextRules { limit, floats: texts@ },
                old(reader).source(),
                old(output)@,
                header@,
                offset as int,
                old(reader).cursor(),
                array_depth as int,
                map_depth as int,
            ),
            final(output)@,
            final(reader).cursor(),
            result,
        ),
    decreases old(reader).bytes@.len() - old(reader).position, 4int,
{
    match header {
        Header::ArrayHead(elements) => {
            append_byte(output, 0x5b, limit)?;
            stringify_array(reader, output, elements, array_depth, limit, texts)?;
            append_byte(output, 0x5d, limit)
        },
        Header::MapHead(pairs) => {
            append_byte(output, 0x7b, limit)?;
            stringify_array_map(reader, output, pairs, map_depth, limit, texts)?;
            append_byte(output, 0x7d, limit)
        },
        Header::Unsupported(kind) => Err(reader.error_at(offset, kind)),
        _ => append_scalar(output, header, limit, texts),
    }
}

/// Appends one element of an array at `depth`.
fn stringify_element(
    reader: &mut MessagePackReader<'_>,
    output: &mut Vec<u8>,
    first: bool,
    depth: u64,
    limit: u64,
    texts: &[FloatText],
) -> (result: Result<(), KvIrSerializerError>)
    requires
        old(reader).wf(),
    ensures
        final(reader).wf(),
        final(reader).source() == old(reader).source(),
        result is Ok ==> final(reader).position > old(reader).position,
        text_read(
            limit,
            with_element(
                TextRules { limit, floats: texts@ },
                old(reader).source(),
                old(output)@,
                old(reader).cursor(),
                first,
                depth as int,
            ),
            final(output)@,
            final(reader).cursor(),
            result,
        ),
    decreases old(reader).bytes@.len() - old(reader).position, 1int,
{
    if !first {
        append_byte(output, 0x2c, limit)?;
    }
    proof {
        lemma_header_progress(reader.source(), reader.cursor());
    }
    let offset = reader.position;
    let header = reader.read_header()?;
    stringify_value(reader, output, header, offset, depth, depth, limit, texts)
}

/// Appends the key of a map and the colon behind it.
fn append_key(output: &mut Vec<u8>, key: &[u8], limit: u64) -> (result: Result<
    (),
    KvIrSerializerError,
>)
    ensures
        staged(old(output)@, limit, with_key(old(output)@, key@, limit), final(output)@, result),
{
    append_msgpack_string(output, key, limit)?;
    append_byte(output, 0x3a, limit)
}

/// Appends one pair of a map at `depth`.
fn stringify_pair(
    reader: &mut MessagePackReader<'_>,
    output: &mut Vec<u8>,
    first: bool,
    depth: u64,
    limit: u64,
    texts: &[FloatText],
) -> (result: Result<(), KvIrSerializerError>)
    requires
        old(reader).wf(),
    ensures
        final(reader).wf(),
        final(reader).source() == old(reader).source(),
        result is Ok ==> final(reader).position > old(reader).position,
        text_read(
            limit,
            with_pair(
                TextRules { limit, floats: texts@ },
                old(reader).source(),
                old(output)@,
                old(reader).cursor(),
                first,
                depth as int,
            ),
            final(output)@,
            final(reader).cursor(),
            result,
        ),
    decreases old(reader).bytes@.len() - old(reader).position, 1int,
{
    if !first {
        append_byte(output, 0x2c, limit)?;
    }
    proof {
        lemma_header_progress(reader.source(), reader.cursor());
    }
    let key = reader.read_map_key()?;
    append_key(output, key, limit)?;
    proof {
        lemma_header_progress(reader.source(), reader.cursor());
    }
    let offset = reader.position;
    let header = reader.read_header()?;
    if depth == u64::MAX {
        return Err(KvIrSerializerError::SizeOverflow);
    }
    stringify_value(reader, output, header, offset, depth, depth + 1, limit, texts)
}

/// Appends the elements of an array one level below `depth`.
pub fn stringify_array(
    reader: &mut MessagePackReader<'_>,
    output: &mut Vec<u8>,
    elements: u32,
    depth: u64,
    limit: u64,
    texts: &[FloatText],
) -> (result: Result<(), KvIrSerializerError>)
    requires
        old(reader).wf(),
    ensures
        final(reader).wf(),
        final(reader).source() == old(reader).source(),
        result is Ok ==> final(reader).position >= old(reader).position,
        text_read(
            limit,
            with_array(
                TextRules { limit, floats: texts@ },
                old(reader).source(),
                old(output)@,
                old(reader).cursor(),
                elements,
                depth as int,
            ),
            final(output)@,
            final(reader).cursor(),
            result,
        ),
    decreases old(reader).bytes@.len() - old(reader).position, 3int,
{
    if depth == u64::MAX {
        return Err(KvIrSerializerError::SizeOverflow);
    }
    let next_depth = depth + 1;
    reader.check_depth(next_depth)?;
    let ghost rules = TextRules { limit, floats: texts@ };
    let ghost source = reader.source();
    let ghost target = with_elements(
        rules,
        source,
        output@,
        reader.cursor(),
        elements as int,
        true,
        next_depth as int,
    );
    let mut index: u32 = 0;
    while index < elements
        invariant
            index <= elements,
            reader.wf(),
            reader.source() == source,
            source == old(reader).source(),
            rules == (TextRules { limit, floats: texts@ }),
            reader.position >= old(reader).position,
            target == with_array(
                rules,
                source,
                old(output)@,
                old(reader).cursor(),
                elements,
                depth as int,
            ),
            with_elements(
                rules,
                source,
                output@,
                reader.cursor(),
                elements - index,
                index == 0,
                next_depth as int,
            ) == target,
        decreases elements - index,
    {
        stringify_element(reader, output, index == 0, next_depth, limit, texts)?;
        index += 1;
    }
    Ok(())
}

/// Appends the pairs of a map at `depth`.
#[verifier::rlimit(40)]
#[verifier::spinoff_prover]
pub fn stringify_array_map(
    reader: &mut MessagePackReader<'_>,
    output: &mut Vec<u8>,
    pairs: u32,
    depth: u64,
    limit: u64,
    texts: &[FloatText],
) -> (result: Result<(), KvIrSerializerError>)
    requires
        old(reader).wf(),
    ensures
        final(reader).wf(),
        final(reader).source() == old(reader).source(),
        result is Ok ==> final(reader).position >= old(reader).position,
        text_read(
            limit,
            with_map(
                TextRules { limit, floats: texts@ },
                old(reader).source(),
                old(output)@,
                old(reader).cursor(),
                pairs,
                depth as int,
            ),
            final(output)@,
            final(reader).cursor(),
            result,
        ),
    decreases old(reader).bytes@.len() - old(reader).position, 3int,
{
    reader.check_depth(depth)?;
    let ghost rules = TextRules { limit, floats: texts@ };
    let ghost source = reader.source();
    let ghost target = with_pairs(
        rules,
        source,
        output@,
        reader.cursor(),
        pairs as int,
        true,
        depth as int,
    );
    let mut index: u32 = 0;
    while index < pairs
        invariant
            index <= pairs,
            reader.wf(),
            reader.source() == source,
            source == old(reader).source(),
            rules == (TextRules { limit, floats: texts@ }),
            reader.position >= old(reader).position,
            target == with_map(
                rules,
                source,
                old(output)@,
                old(reader).cursor(),
                pairs,
                depth as int,
            ),
            with_pairs(
                rules,
                source,
                output@,
                reader.cursor(),
                pairs - index,
                index == 0,
                depth as int,
            ) == target,
        decreases pairs - index,
    {
        stringify_pair(reader, output, index == 0, depth, limit, texts)?;
        index += 1;
    }
    Ok(())
}

} // verus!
