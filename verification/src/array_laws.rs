//! The JSON text of an array is the JSON text of what its MessagePack bytes say.

use vstd::prelude::*;

use crate::array_text::{
    byte_escape, float_spelling, is_escaped_byte, next_escaped, with_array, with_element,
    with_elements, with_map, with_pair, with_pairs, with_quoted, with_string_content, with_value,
    FloatText, TextRules,
};
use crate::decimal::decimal;
use crate::escape_laws::{names_unit, short_escape};
use crate::kv_ir_serializer::{
    with_entry_value, with_leaf, with_map_entries, EventRules, PrimitiveView, Stage,
};
use crate::msgpack::{header_at, lemma_header_progress, map_key_at, Cursor, HeaderView, Source};
use crate::serializer_options::KvIrSerializerError;
use crate::stage::scalar_bytes;

verus! {

/// A byte of a string as it is written in an array: an escape for quotes, slashes and controls.
pub open spec fn written_byte(byte: u8) -> Seq<u8> {
    if is_escaped_byte(byte) {
        byte_escape(byte)
    } else {
        seq![byte]
    }
}

/// What is written for a byte names it: the byte itself where it is neither a quote nor a slash of
/// either kind nor a control, and otherwise the short escape that names it, or the `\u` escape
/// where there is none.
pub proof fn written_bytes_name_their_byte(byte: u8)
    ensures
        ({
            let text = written_byte(byte);
            let needs_escape = byte == 0x22 || byte == 0x5c || byte == 0x2f || byte < 0x20 || byte
                == 0x7f;
            &&& !needs_escape ==> text == seq![byte]
            &&& needs_escape ==> text.len() >= 2 && text[0] == 0x5c && (if text.len() == 2 {
                short_escape(text[1]) matches Some(character) && character as int == byte
            } else {
                text.len() == 6 && names_unit(text, 0, byte as int)
            })
        }),
{
    let text = written_byte(byte);
    if is_escaped_byte(byte) && text.len() == 6 {
        assert(names_unit(text, 0, byte as int));
    }
}

/// The content of a string as it is written.
pub open spec fn written_text(value: Seq<u8>) -> Seq<u8>
    decreases value.len(),
{
    if value.len() == 0 {
        Seq::empty()
    } else {
        written_byte(value[0]) + written_text(value.drop_first())
    }
}

proof fn lemma_plain_text(value: Seq<u8>, count: int)
    requires
        0 <= count <= value.len(),
        forall|i: int| 0 <= i < count ==> !is_escaped_byte(#[trigger] value[i]),
    ensures
        written_text(value) == value.take(count) + written_text(value.skip(count)),
    decreases count,
{
    if count > 0 {
        let rest = value.drop_first();
        assert forall|i: int| 0 <= i < count - 1 implies !is_escaped_byte(#[trigger] rest[i]) by {
            assert(!is_escaped_byte(value[i + 1]));
        }
        assert(!is_escaped_byte(value[0]));
        lemma_plain_text(rest, count - 1);
        assert(rest.skip(count - 1) =~= value.skip(count));
        assert(value.take(count) =~= seq![value[0]] + rest.take(count - 1));
        assert(written_text(value) =~= value.take(count) + written_text(value.skip(count)));
    } else {
        assert(value.skip(0) =~= value);
        assert(value.take(0) + written_text(value) =~= written_text(value));
    }
}

proof fn lemma_next_escaped(value: Seq<u8>, at: int)
    requires
        0 <= at <= value.len(),
    ensures
        at <= next_escaped(value, at) <= value.len(),
        forall|i: int| at <= i < next_escaped(value, at) ==> !is_escaped_byte(#[trigger] value[i]),
        next_escaped(value, at) < value.len() ==> is_escaped_byte(value[next_escaped(value, at)]),
    decreases value.len() - at,
{
    if at < value.len() && !is_escaped_byte(value[at]) {
        lemma_next_escaped(value, at + 1);
    }
}

proof fn lemma_content(json: Seq<u8>, value: Seq<u8>, at: int, limit: u64)
    requires
        0 <= at <= value.len(),
    ensures
        with_string_content(json, value, at, limit) matches Ok(after) ==> after == json
            + written_text(value.skip(at)),
    decreases value.len() - at,
{
    let rest = value.skip(at);
    let end = next_escaped(value, at);
    lemma_next_escaped(value, at);
    if at < value.len() {
        assert forall|i: int| 0 <= i < end - at implies !is_escaped_byte(#[trigger] rest[i]) by {
            assert(!is_escaped_byte(value[at + i]));
        }
        lemma_plain_text(rest, end - at);
        assert(rest.take(end - at) =~= value.subrange(at, end));
        assert(rest.skip(end - at) =~= value.skip(end));
        let before = json + value.subrange(at, end);
        assert(end == at ==> before =~= json);
        if end == value.len() {
            assert(value.skip(end) =~= Seq::<u8>::empty());
            assert(before =~= json + written_text(rest));
        } else {
            let next = before + byte_escape(value[end]);
            lemma_content(next, value, end + 1, limit);
            let more = value.skip(end);
            assert(more.drop_first() =~= value.skip(end + 1));
            assert(more[0] == value[end]);
            assert(next + written_text(value.skip(end + 1)) =~= json + written_text(rest));
        }
    } else {
        assert(json + written_text(rest) =~= json);
    }
}

/// A string in quotes, as it is written.
pub open spec fn quoted_text(value: Seq<u8>) -> Seq<u8> {
    seq![0x22u8] + written_text(value) + seq![0x22u8]
}

proof fn lemma_quoted(json: Seq<u8>, value: Seq<u8>, limit: u64)
    ensures
        with_quoted(json, value, limit) matches Ok(after) ==> after == json + quoted_text(value),
{
    let opened = json + seq![0x22u8];
    lemma_content(opened, value, 0, limit);
    assert(value.skip(0) =~= value);
    assert(opened + written_text(value) + seq![0x22u8] =~= json + quoted_text(value));
}

/// The JSON text of the MessagePack value at a cursor, and the cursor behind it: literals, decimal
/// integers, floats as they are spelled, strings in quotes, and arrays and objects with their items
/// between commas.
pub open spec fn value_text(source: Source, floats: Seq<FloatText>, cursor: Cursor) -> Option<
    (Seq<u8>, Cursor),
>
    decreases source.bytes.len() - cursor.position, 0int,
{
    match header_at(source, cursor) {
        Err(_) => None,
        Ok((header, after)) => if cursor.position < after.position <= source.bytes.len() {
            head_text(source, floats, header, after)
        } else {
            None
        },
    }
}

/// The JSON text of a value whose head was read, and the cursor behind it.
pub open spec fn head_text(
    source: Source,
    floats: Seq<FloatText>,
    header: HeaderView,
    after: Cursor,
) -> Option<(Seq<u8>, Cursor)>
    decreases source.bytes.len() - after.position, 2int,
{
    match header {
        HeaderView::Nil => Some((seq![0x6eu8, 0x75, 0x6c, 0x6c], after)),
        HeaderView::Boolean(true) => Some((seq![0x74u8, 0x72, 0x75, 0x65], after)),
        HeaderView::Boolean(false) => Some((seq![0x66u8, 0x61, 0x6c, 0x73, 0x65], after)),
        HeaderView::Integer(value) => Some((decimal(value as int), after)),
        HeaderView::Float(bits) => match float_spelling(floats, bits) {
            Some(text) => Some((text, after)),
            None => None,
        },
        HeaderView::String(value) => Some((quoted_text(value), after)),
        HeaderView::ArrayHead(count) => match items_text(source, floats, after, count as int) {
            Some((text, next)) => Some((seq![0x5bu8] + text + seq![0x5du8], next)),
            None => None,
        },
        HeaderView::MapHead(count) => match members_text(source, floats, after, count as int) {
            Some((text, next)) => Some((seq![0x7bu8] + text + seq![0x7du8], next)),
            None => None,
        },
        HeaderView::Unsupported(_) => None,
    }
}

/// The texts of some values with commas between them.
pub open spec fn items_text(
    source: Source,
    floats: Seq<FloatText>,
    cursor: Cursor,
    count: int,
) -> Option<(Seq<u8>, Cursor)>
    decreases source.bytes.len() - cursor.position, 1int,
{
    if count <= 0 {
        Some((Seq::empty(), cursor))
    } else {
        match value_text(source, floats, cursor) {
            None => None,
            Some((first, next)) => if !(cursor.position < next.position <= source.bytes.len()) {
                None
            } else {
                match items_text(source, floats, next, count - 1) {
                    None => None,
                    Some((rest, end)) => Some(
                        (
                            first + (if count > 1 {
                                seq![0x2cu8] + rest
                            } else {
                                Seq::empty()
                            }),
                            end,
                        ),
                    ),
                }
            },
        }
    }
}

/// The texts of some members with commas between them: each a key in quotes, a colon and a value.
pub open spec fn members_text(
    source: Source,
    floats: Seq<FloatText>,
    cursor: Cursor,
    count: int,
) -> Option<(Seq<u8>, Cursor)>
    decreases source.bytes.len() - cursor.position, 1int,
{
    if count <= 0 {
        Some((Seq::empty(), cursor))
    } else {
        match map_key_at(source, cursor) {
            Err(_) => None,
            Ok((key, keyed)) => if !(cursor.position < keyed.position <= source.bytes.len()) {
                None
            } else {
                match value_text(source, floats, keyed) {
                    None => None,
                    Some((value, next)) => if !(cursor.position < next.position
                        <= source.bytes.len()) {
                        None
                    } else {
                        match members_text(source, floats, next, count - 1) {
                            None => None,
                            Some((rest, end)) => Some(
                                (
                                    quoted_text(key) + seq![0x3au8] + value + (if count > 1 {
                                        seq![0x2cu8] + rest
                                    } else {
                                        Seq::empty()
                                    }),
                                    end,
                                ),
                            ),
                        }
                    },
                }
            },
        }
    }
}

/// Whether a text was appended, and the cursor is behind its value.
pub open spec fn is_appended(
    json: Seq<u8>,
    expected: Option<(Seq<u8>, Cursor)>,
    result: Result<(Seq<u8>, Cursor), KvIrSerializerError>,
) -> bool {
    result matches Ok((after, next)) ==> (expected matches Some((text, end)) && after == json + text
        && next == end)
}

spec fn separator(first: bool, left: int) -> Seq<u8> {
    if first || left <= 0 {
        Seq::empty()
    } else {
        seq![0x2cu8]
    }
}

/// The text of a value is the JSON text of what its bytes say.
#[verifier::rlimit(40)]
#[verifier::spinoff_prover]
pub proof fn values_become_their_text(
    rules: TextRules,
    source: Source,
    json: Seq<u8>,
    header: HeaderView,
    offset: int,
    cursor: Cursor,
    array_depth: int,
    map_depth: int,
)
    requires
        0 <= cursor.position <= source.bytes.len(),
    ensures
        is_appended(
            json,
            head_text(source, rules.floats, header, cursor),
            with_value(rules, source, json, header, offset, cursor, array_depth, map_depth),
        ),
        with_value(
            rules,
            source,
            json,
            header,
            offset,
            cursor,
            array_depth,
            map_depth,
        ) matches Ok((_, next)) ==> cursor.position <= next.position <= source.bytes.len(),
    decreases source.bytes.len() - cursor.position, 4int,
{
    match header {
        HeaderView::ArrayHead(count) => {
            let opened = json + seq![0x5bu8];
            lemma_items(rules, source, opened, cursor, count as int, true, array_depth + 1);
            match with_array(rules, source, opened, cursor, count, array_depth) {
                Ok((content, _)) => {
                    let text = items_text(source, rules.floats, cursor, count as int)->Some_0.0;
                    assert(content =~= opened + text);
                    assert(content + seq![0x5du8] =~= json + (seq![0x5bu8] + text + seq![0x5du8]));
                },
                Err(_) => {},
            }
        },
        HeaderView::MapHead(count) => {
            let opened = json + seq![0x7bu8];
            lemma_members(rules, source, opened, cursor, count as int, true, map_depth);
            match with_map(rules, source, opened, cursor, count, map_depth) {
                Ok((content, _)) => {
                    let text = members_text(source, rules.floats, cursor, count as int)->Some_0.0;
                    assert(content =~= opened + text);
                    assert(content + seq![0x7du8] =~= json + (seq![0x7bu8] + text + seq![0x7du8]));
                },
                Err(_) => {},
            }
        },
        HeaderView::String(value) => {
            lemma_quoted(json, value, rules.limit);
        },
        _ => {},
    }
}

#[verifier::rlimit(40)]
#[verifier::spinoff_prover]
proof fn lemma_items(
    rules: TextRules,
    source: Source,
    json: Seq<u8>,
    cursor: Cursor,
    left: int,
    first: bool,
    depth: int,
)
    requires
        0 <= cursor.position <= source.bytes.len(),
    ensures
        is_appended(
            json + separator(first, left),
            items_text(source, rules.floats, cursor, left),
            with_elements(rules, source, json, cursor, left, first, depth),
        ),
        with_elements(rules, source, json, cursor, left, first, depth) matches Ok((_, next))
            ==> cursor.position <= next.position <= source.bytes.len(),
    decreases source.bytes.len() - cursor.position, 2int,
{
    let whole = with_elements(rules, source, json, cursor, left, first, depth);
    let separated = json + separator(first, left);
    if left <= 0 {
        assert(separated + Seq::<u8>::empty() =~= json);
    } else if whole is Ok {
        assert(first ==> separated =~= json);
        let (header, after) = header_at(source, cursor)->Ok_0;
        values_become_their_text(
            rules,
            source,
            separated,
            header,
            cursor.position,
            after,
            depth,
            depth,
        );
        let (content, next) = with_element(rules, source, json, cursor, first, depth)->Ok_0;
        let (text, _) = value_text(source, rules.floats, cursor)->Some_0;
        lemma_items(rules, source, content, next, left - 1, false, depth);
        let (rest, end) = items_text(source, rules.floats, next, left - 1)->Some_0;
        assert(whole->Ok_0.0 == content + separator(false, left - 1) + rest);
        if left > 1 {
            assert(whole->Ok_0.0 =~= separated + (text + (seq![0x2cu8] + rest)));
        } else {
            assert(whole->Ok_0.0 =~= separated + (text + Seq::<u8>::empty()));
        }
    }
}

#[verifier::rlimit(40)]
#[verifier::spinoff_prover]
proof fn lemma_members(
    rules: TextRules,
    source: Source,
    json: Seq<u8>,
    cursor: Cursor,
    left: int,
    first: bool,
    depth: int,
)
    requires
        0 <= cursor.position <= source.bytes.len(),
    ensures
        is_appended(
            json + separator(first, left),
            members_text(source, rules.floats, cursor, left),
            with_pairs(rules, source, json, cursor, left, first, depth),
        ),
        with_pairs(rules, source, json, cursor, left, first, depth) matches Ok((_, next))
            ==> cursor.position <= next.position <= source.bytes.len(),
    decreases source.bytes.len() - cursor.position, 2int,
{
    let whole = with_pairs(rules, source, json, cursor, left, first, depth);
    let separated = json + separator(first, left);
    if left <= 0 {
        assert(separated + Seq::<u8>::empty() =~= json);
    } else if whole is Ok {
        assert(first ==> separated =~= json);
        lemma_header_progress(source, cursor);
        let (key, keyed) = map_key_at(source, cursor)->Ok_0;
        lemma_header_progress(source, keyed);
        let (header, after) = header_at(source, keyed)->Ok_0;
        lemma_quoted(separated, key, rules.limit);
        let colon = separated + (quoted_text(key) + seq![0x3au8]);
        assert(separated + quoted_text(key) + seq![0x3au8] =~= colon);
        values_become_their_text(
            rules,
            source,
            colon,
            header,
            keyed.position,
            after,
            depth,
            depth + 1,
        );
        let (content, next) = with_pair(rules, source, json, cursor, first, depth)->Ok_0;
        let (text, _) = value_text(source, rules.floats, keyed)->Some_0;
        lemma_members(rules, source, content, next, left - 1, false, depth);
        let (rest, end) = members_text(source, rules.floats, next, left - 1)->Some_0;
        assert(whole->Ok_0.0 == content + separator(false, left - 1) + rest);
        let member = quoted_text(key) + seq![0x3au8] + text;
        assert(content =~= separated + member);
        if left > 1 {
            assert(whole->Ok_0.0 =~= separated + (member + (seq![0x2cu8] + rest)));
        } else {
            assert(whole->Ok_0.0 =~= separated + (member + Seq::<u8>::empty()));
        }
    }
}

/// An entry whose value is an array becomes one text leaf at its node: the JSON text of the array.
#[verifier::rlimit(40)]
#[verifier::spinoff_prover]
pub proof fn arrays_become_texts(
    rules: EventRules,
    source: Source,
    stage: Stage,
    count: u32,
    cursor: Cursor,
    node_id: u32,
    auto_generated: bool,
    depth: int,
)
    requires
        0 <= cursor.position <= source.bytes.len(),
    ensures
        with_entry_value(
            rules,
            source,
            stage,
            HeaderView::ArrayHead(count),
            cursor,
            node_id,
            auto_generated,
            depth,
        ) matches Ok((after, next)) ==> (head_text(
            source,
            rules.floats,
            HeaderView::ArrayHead(count),
            cursor,
        ) matches Some((text, end)) && next == end && with_leaf(
            rules,
            stage,
            auto_generated,
            node_id,
            PrimitiveView::EncodedText(text),
        ) == Ok::<Stage, KvIrSerializerError>(after)),
{
    let text_rules = TextRules { limit: rules.limits.scalar_bytes, floats: rules.floats };
    let opened = Seq::<u8>::empty() + seq![0x5bu8];
    lemma_items(text_rules, source, opened, cursor, count as int, true, depth + 1);
    match with_array(text_rules, source, opened, cursor, count, depth) {
        Ok((content, _)) => {
            let text = items_text(source, rules.floats, cursor, count as int)->Some_0.0;
            assert(content + seq![0x5du8] =~= seq![0x5bu8] + text + seq![0x5du8]);
        },
        Err(_) => {},
    }
}

/// An entry whose value is a map without entries becomes one leaf that is an object without
/// fields; one with entries becomes the entries of that map beneath its node.
pub proof fn maps_become_objects(
    rules: EventRules,
    source: Source,
    stage: Stage,
    count: u32,
    cursor: Cursor,
    node_id: u32,
    auto_generated: bool,
    depth: int,
)
    requires
        depth < u64::MAX,
    ensures
        ({
            let result = with_entry_value(
                rules,
                source,
                stage,
                HeaderView::MapHead(count),
                cursor,
                node_id,
                auto_generated,
                depth,
            );
            if count == 0 {
                result matches Ok((after, next)) ==> next == cursor && with_leaf(
                    rules,
                    stage,
                    auto_generated,
                    node_id,
                    PrimitiveView::EmptyObject,
                ) == Ok::<Stage, KvIrSerializerError>(after)
            } else {
                result == with_map_entries(
                    rules,
                    source,
                    stage,
                    cursor,
                    count,
                    node_id,
                    auto_generated,
                    depth + 1,
                )
            }
        }),
{
}

} // verus!
