//! Documents are read as what they were written from.

use vstd::prelude::*;
use vstd::utf8::valid_utf8;

use crate::grammar::{
    array_closed, array_element, counted, document, fresh_progress, has_backslash,
    lemma_next_backslash, next_backslash, number_value, object_closed, object_key, object_member,
    string_value, value, value_head, with_event, Head, Progress,
};
use crate::json::{escaped, framed_text, lemma_escaped_length, JsonFraming};
use crate::json_laws::{lemma_rest_reads_back, lemma_stands_apart, stands_at};
use crate::ndjson::{resolved_event, EventView, NdjsonLimits};
use crate::number_laws::{
    goes_on, is_number, spelled_number, spelled_numbers_are_read, syntax_of, NumberParts,
};
use crate::parser::{ParseFailure, Span, StoredEvent};
use crate::text::{byte_at, is_json_space, skip_space, BACKSLASH, QUOTE};

verus! {

/// A JSON value.
pub enum Json {
    Null,
    Boolean(bool),
    Number(NumberParts),
    String(Seq<u8>),
    Array(Seq<Json>),
    Object(Seq<(Seq<u8>, Json)>),
}

/// Whether a value can be written: its texts are UTF-8, and its numbers are numbers.
pub open spec fn is_json(json: Json) -> bool
    decreases json,
{
    match json {
        Json::Number(parts) => is_number(parts),
        Json::String(text) => valid_utf8(text),
        Json::Array(items) => forall|i: int| 0 <= i < items.len() ==> is_json(#[trigger] items[i]),
        Json::Object(members) => forall|i: int|
            0 <= i < members.len() ==> valid_utf8((#[trigger] members[i]).0) && is_json(
                members[i].1,
            ),
        _ => true,
    }
}

/// A value as it is written, with this whitespace wherever whitespace may stand.
pub open spec fn written(json: Json, space: Seq<u8>) -> Seq<u8>
    decreases json, 0int,
{
    match json {
        Json::Null => seq![0x6eu8, 0x75, 0x6c, 0x6c],
        Json::Boolean(true) => seq![0x74u8, 0x72, 0x75, 0x65],
        Json::Boolean(false) => seq![0x66u8, 0x61, 0x6c, 0x73, 0x65],
        Json::Number(parts) => spelled_number(parts),
        Json::String(text) => quoted(text),
        Json::Array(items) => seq![0x5bu8] + written_items(items, 0, space) + (space + seq![
            0x5du8,
        ]),
        Json::Object(members) => seq![0x7bu8] + written_members(members, 0, space) + (space + seq![
            0x7du8,
        ]),
    }
}

/// A text in quotes.
pub open spec fn quoted(text: Seq<u8>) -> Seq<u8> {
    framed_text(text, JsonFraming::String)
}

/// The items of an array from `from` on, with commas between them.
pub open spec fn written_items(items: Seq<Json>, from: int, space: Seq<u8>) -> Seq<u8>
    decreases items, items.len() - from,
{
    if from < 0 || from >= items.len() {
        Seq::empty()
    } else {
        space + written(items[from], space) + (if from + 1 < items.len() {
            space + seq![0x2cu8] + written_items(items, from + 1, space)
        } else {
            Seq::empty()
        })
    }
}

/// The members of an object from `from` on, with commas between them.
pub open spec fn written_members(
    members: Seq<(Seq<u8>, Json)>,
    from: int,
    space: Seq<u8>,
) -> Seq<u8>
    decreases members, members.len() - from,
{
    if from < 0 || from >= members.len() {
        Seq::empty()
    } else {
        (space + quoted(members[from].0)) + (space + seq![0x3au8]) + (space + written(
            members[from].1,
            space,
        )) + (if from + 1 < members.len() {
            space + seq![0x2cu8] + written_members(members, from + 1, space)
        } else {
            Seq::empty()
        })
    }
}

/// The events of a value, in the order of its parts.
pub open spec fn events_of(json: Json, space: Seq<u8>) -> Seq<EventView>
    decreases json, 0int,
{
    match json {
        Json::Null => seq![EventView::Null],
        Json::Boolean(truth) => seq![EventView::Boolean(truth)],
        Json::Number(parts) => seq![EventView::Number { raw: spelled_number(parts) }],
        Json::String(text) => seq![EventView::String { raw: quoted(text), text }],
        Json::Array(items) => seq![EventView::ArrayStart { raw: written(json, space) }]
            + item_events(items, 0, space) + seq![EventView::ArrayEnd],
        Json::Object(members) => seq![EventView::ObjectStart] + member_events(members, 0, space)
            + seq![EventView::ObjectEnd],
    }
}

/// The events of the items of an array from `from` on.
pub open spec fn item_events(items: Seq<Json>, from: int, space: Seq<u8>) -> Seq<EventView>
    decreases items, items.len() - from,
{
    if from < 0 || from >= items.len() {
        Seq::empty()
    } else {
        events_of(items[from], space) + item_events(items, from + 1, space)
    }
}

/// The events of the members of an object from `from` on: each a key and the events of its value.
pub open spec fn member_events(
    members: Seq<(Seq<u8>, Json)>,
    from: int,
    space: Seq<u8>,
) -> Seq<EventView>
    decreases members, members.len() - from,
{
    if from < 0 || from >= members.len() {
        Seq::empty()
    } else {
        seq![EventView::ObjectKey { raw: quoted(members[from].0), text: members[from].0 }]
            + events_of(members[from].1, space) + member_events(members, from + 1, space)
    }
}

/// Whether bytes are JSON whitespace alone.
pub open spec fn is_space(space: Seq<u8>) -> bool {
    forall|i: int| 0 <= i < space.len() ==> is_json_space(#[trigger] space[i])
}

/// Whether a buffer starts with another.
pub open spec fn starts_with(longer: Seq<u8>, text: Seq<u8>) -> bool {
    text.len() <= longer.len() && longer.take(text.len() as int) == text
}

/// Whether a parse went on from one progress to another by events that say what is expected.
spec fn is_read(
    source: Seq<u8>,
    before: Progress,
    after: Progress,
    expected: Seq<EventView>,
) -> bool {
    &&& after.events.len() == before.events.len() + expected.len()
    &&& forall|i: int|
        0 <= i < before.events.len() ==> #[trigger] after.events[i] == before.events[i]
    &&& forall|i: int, longer: Seq<u8>|
        0 <= i < expected.len() && starts_with(longer, after.decoded) ==> #[trigger] resolved_event(
            after.events[before.events.len() + i],
            source,
            longer,
        ) == expected[i]
    &&& starts_with(after.decoded, before.decoded)
    &&& after.decoded.len() <= after.offset
}

proof fn lemma_starts_twice(first: Seq<u8>, second: Seq<u8>, third: Seq<u8>)
    requires
        starts_with(second, first),
        starts_with(third, second),
    ensures
        starts_with(third, first),
{
    assert(third.take(first.len() as int) =~= third.take(second.len() as int).take(
        first.len() as int,
    ));
}

proof fn lemma_read_on(
    source: Seq<u8>,
    first: Progress,
    second: Progress,
    third: Progress,
    expected: Seq<EventView>,
    more: Seq<EventView>,
)
    requires
        is_read(source, first, second, expected),
        is_read(source, second, third, more),
    ensures
        is_read(source, first, third, expected + more),
{
    lemma_starts_twice(first.decoded, second.decoded, third.decoded);
    let both = expected + more;
    assert forall|i: int| 0 <= i < first.events.len() implies #[trigger] third.events[i]
        == first.events[i] by {
        assert(third.events[i] == second.events[i]);
    }
    assert forall|i: int, longer: Seq<u8>|
        0 <= i < both.len() && starts_with(longer, third.decoded) implies #[trigger] resolved_event(
        third.events[first.events.len() + i],
        source,
        longer,
    ) == both[i] by {
        if i < expected.len() {
            lemma_starts_twice(second.decoded, third.decoded, longer);
            assert(third.events[first.events.len() + i] == second.events[first.events.len() + i]);
            assert(resolved_event(second.events[first.events.len() + i], source, longer)
                == expected[i]);
        } else {
            let at = i - expected.len();
            assert(resolved_event(third.events[second.events.len() + at], source, longer)
                == more[at]);
        }
    }
}

/// Whether the limits have room for so many bytes of values.
spec fn has_room(
    source: Seq<u8>,
    limits: NdjsonLimits,
    before: Progress,
    depth: int,
    length: int,
) -> bool {
    &&& source.len() <= usize::MAX
    &&& source.len() <= limits.scalar_token_bytes
    &&& 0 <= before.offset <= source.len()
    &&& 0 <= before.values && before.values + length <= limits.values
    &&& 0 <= depth && depth + length <= limits.nesting_depth
    &&& before.decoded.len() <= before.offset
}

proof fn lemma_skip(source: Seq<u8>, at: int, space: Seq<u8>)
    requires
        is_space(space),
        stands_at(source, at, space),
        at + space.len() < source.len() ==> !is_json_space(source[at + space.len()]),
    ensures
        skip_space(source, at) == at + space.len(),
    decreases space.len(),
{
    if space.len() > 0 {
        let rest = space.drop_first();
        assert(source[at + 0] == space[0]);
        assert forall|i: int| 0 <= i < rest.len() implies source[at + 1 + i] == #[trigger] rest[
            i
        ] by {
            assert(source[at + (i + 1)] == space[i + 1]);
        }
        assert forall|i: int| 0 <= i < rest.len() implies is_json_space(#[trigger] rest[i]) by {
            assert(is_json_space(space[i + 1]));
        }
        lemma_skip(source, at + 1, rest);
    }
}

/// A text in quotes that stands at an offset is read as that text.
proof fn lemma_string_read(
    source: Seq<u8>,
    limits: NdjsonLimits,
    before: Progress,
    text: Seq<u8>,
) -> (after: Progress)
    requires
        valid_utf8(text),
        stands_at(source, before.offset, quoted(text)),
        source.len() <= usize::MAX,
        source.len() <= limits.scalar_token_bytes,
        before.decoded.len() <= before.offset,
    ensures
        after.offset == before.offset + quoted(text).len(),
        after.values == before.values,
        after.decoded.len() <= after.offset,
        string_value(source, limits, before) == Ok::<Progress, ParseFailure>(after),
        is_read(
            source,
            before,
            after,
            seq![EventView::String { raw: quoted(text), text }],
        ),
        object_key(source, limits, before) is Ok,
        ({
            let keyed = object_key(source, limits, before)->Ok_0;
            &&& keyed.offset == after.offset && keyed.values == before.values
            &&& is_read(
                source,
                before,
                keyed,
                seq![EventView::ObjectKey { raw: quoted(text), text }],
            )
        }),
{
    let start = before.offset;
    let token = quoted(text);
    let end = start + token.len();
    let inner = escaped(text);
    assert(token =~= seq![QUOTE] + inner + seq![QUOTE]);
    assert(source[start + 0] == token[0]);
    assert(source[start + (token.len() - 1)] == token[token.len() - 1]);
    assert forall|i: int| 0 <= i < inner.len() implies source[start + 1 + i] == #[trigger] inner[
        i
    ] by {
        assert(source[start + (i + 1)] == token[i + 1]);
    }
    lemma_rest_reads_back(source, start + 1, end - 1, text, before.decoded);
    let decoded = before.decoded + text;
    assert(source.subrange(start, end) =~= token) by {
        assert forall|i: int| 0 <= i < token.len() implies source.subrange(start, end)[i]
            == token[i] by {
            assert(source[start + i] == token[i]);
        }
    }
    lemma_escaped_length(text, 0);
    assert(text.take(0) =~= Seq::<u8>::empty());
    assert(escaped(text.take(0)) =~= Seq::<u8>::empty());
    assert(text.subrange(0, text.len() as int) =~= text);
    assert(text.len() <= inner.len());
    assert(before.decoded.take(before.decoded.len() as int) =~= before.decoded);
    assert(decoded.take(before.decoded.len() as int) =~= before.decoded);
    if has_backslash(source, start + 1, end - 1) {
        assert forall|longer: Seq<u8>| starts_with(longer, decoded) implies #[trigger] longer.subrange(
            before.decoded.len() as int,
            decoded.len() as int,
        ) == text by {
            assert(longer.subrange(before.decoded.len() as int, decoded.len() as int)
                =~= longer.take(decoded.len() as int).skip(before.decoded.len() as int));
            assert(decoded.skip(before.decoded.len() as int) =~= text);
        }
    } else {
        lemma_next_backslash(source, start + 1, end - 1);
        assert(next_backslash(source, start + 1, end - 1) == end - 1) by {
            if next_backslash(source, start + 1, end - 1) < end - 1 {
                assert(source[next_backslash(source, start + 1, end - 1)] == BACKSLASH);
            }
        }
        let content = source.subrange(start + 1, end - 1);
        assert(before.decoded + content == before.decoded + text);
        assert(content =~= text) by {
            assert((before.decoded + content).skip(before.decoded.len() as int) =~= content);
            assert((before.decoded + text).skip(before.decoded.len() as int) =~= text);
        }
    }
    string_value(source, limits, before)->Ok_0
}

proof fn lemma_written_first(json: Json, space: Seq<u8>)
    requires
        is_json(json),
    ensures
        written(json, space).len() > 0,
        ({
            let first = written(json, space)[0];
            &&& !is_json_space(first)
            &&& match json {
                Json::Null => first == 0x6e,
                Json::Boolean(true) => first == 0x74,
                Json::Boolean(false) => first == 0x66,
                Json::Number(_) => first == 0x2d || 0x30 <= first <= 0x39,
                Json::String(_) => first == 0x22,
                Json::Array(_) => first == 0x5b,
                Json::Object(_) => first == 0x7b,
            }
        }),
{
    match json {
        Json::Number(parts) => {
            assert(0x30 <= parts.whole[0] <= 0x39);
            if parts.negative {
                assert(spelled_number(parts)[0] == 0x2d);
            } else {
                assert(spelled_number(parts)[0] == parts.whole[0]);
            }
        },
        _ => {},
    }
}

/// Where a value stands behind whitespace.
proof fn lemma_at_value(source: Seq<u8>, offset: int, json: Json, space: Seq<u8>)
    requires
        is_json(json),
        is_space(space),
        stands_at(source, offset, space + written(json, space)),
    ensures
        stands_at(source, offset + space.len(), written(json, space)),
        skip_space(source, offset) == offset + space.len(),
        offset + space.len() < source.len(),
        source[offset + space.len()] == written(json, space)[0],
{
    lemma_stands_apart(source, offset, space, written(json, space));
    lemma_written_first(json, space);
    let at = offset + space.len();
    assert(source[at + 0] == written(json, space)[0]);
    lemma_skip(source, offset, space);
}

proof fn lemma_is_subrange(source: Seq<u8>, at: int, bytes: Seq<u8>)
    requires
        stands_at(source, at, bytes),
    ensures
        source.subrange(at, at + bytes.len()) == bytes,
{
    assert(source.subrange(at, at + bytes.len()) =~= bytes) by {
        assert forall|i: int| 0 <= i < bytes.len() implies source.subrange(
            at,
            at + bytes.len(),
        )[i] == bytes[i] by {
            assert(source[at + i] == bytes[i]);
        }
    }
}

#[verifier::rlimit(40)]
#[verifier::spinoff_prover]
proof fn lemma_string_scalar(
    source: Seq<u8>,
    limits: NdjsonLimits,
    before: Progress,
    depth: int,
    json: Json,
    space: Seq<u8>,
) -> (after: Progress)
    requires
        is_json(json),
        is_space(space),
        json is String,
        stands_at(source, before.offset, space + written(json, space)),
        has_room(source, limits, before, depth, written(json, space).len() as int),
        ({
            let end = before.offset + space.len() + written(json, space).len();
            end < source.len() ==> !goes_on(source[end])
        }),
    ensures
        value(source, limits, before, depth) == Ok::<Progress, ParseFailure>(after),
        after.offset == before.offset + space.len() + written(json, space).len(),
        before.values <= after.values <= before.values + written(json, space).len(),
        is_read(source, before, after, events_of(json, space)),
{
    lemma_at_value(source, before.offset, json, space);
    lemma_written_first(json, space);
    let token = written(json, space);
    let at = before.offset + space.len();
    let end = at + token.len();
    let progress = Progress { offset: at, values: before.values + 1, ..before };
    assert(counted(limits, Progress { offset: at, ..before }) == Ok::<Progress, ParseFailure>(
        progress,
    ));
    lemma_is_subrange(source, at, token);
    assert(before.decoded.take(before.decoded.len() as int) =~= before.decoded);
    let text = json->String_0;
    let read = lemma_string_read(source, limits, progress, text);
    assert(value_head(source, limits, before, depth) == Head::Scalar(read));
    lemma_moved_before(source, before, progress, read, events_of(json, space));
    read
}

#[verifier::rlimit(40)]
#[verifier::spinoff_prover]
proof fn lemma_number_scalar(
    source: Seq<u8>,
    limits: NdjsonLimits,
    before: Progress,
    depth: int,
    json: Json,
    space: Seq<u8>,
) -> (after: Progress)
    requires
        is_json(json),
        is_space(space),
        json is Number,
        stands_at(source, before.offset, space + written(json, space)),
        has_room(source, limits, before, depth, written(json, space).len() as int),
        ({
            let end = before.offset + space.len() + written(json, space).len();
            end < source.len() ==> !goes_on(source[end])
        }),
    ensures
        value(source, limits, before, depth) == Ok::<Progress, ParseFailure>(after),
        after.offset == before.offset + space.len() + written(json, space).len(),
        before.values <= after.values <= before.values + written(json, space).len(),
        is_read(source, before, after, events_of(json, space)),
{
    lemma_at_value(source, before.offset, json, space);
    lemma_written_first(json, space);
    let token = written(json, space);
    let at = before.offset + space.len();
    let end = at + token.len();
    let progress = Progress { offset: at, values: before.values + 1, ..before };
    assert(counted(limits, Progress { offset: at, ..before }) == Ok::<Progress, ParseFailure>(
        progress,
    ));
    lemma_is_subrange(source, at, token);
    assert(before.decoded.take(before.decoded.len() as int) =~= before.decoded);
    let parts = json->Number_0;
    spelled_numbers_are_read(source.take(at), parts, source.skip(end));
    assert(source.take(at) + token + source.skip(end) =~= source);
    let event = StoredEvent::Number {
        raw: Span { start: at as usize, end: end as usize },
        syntax: syntax_of(parts),
    };
    let read = with_event(Progress { offset: end, ..progress }, event);
    assert(number_value(source, limits, progress) == Ok::<Progress, ParseFailure>(read));
    assert(value_head(source, limits, before, depth) == Head::Scalar(read));
    read
}

#[verifier::rlimit(40)]
#[verifier::spinoff_prover]
proof fn lemma_literal_scalar(
    source: Seq<u8>,
    limits: NdjsonLimits,
    before: Progress,
    depth: int,
    json: Json,
    space: Seq<u8>,
) -> (after: Progress)
    requires
        is_json(json),
        is_space(space),
        json is Null || json is Boolean,
        stands_at(source, before.offset, space + written(json, space)),
        has_room(source, limits, before, depth, written(json, space).len() as int),
        ({
            let end = before.offset + space.len() + written(json, space).len();
            end < source.len() ==> !goes_on(source[end])
        }),
    ensures
        value(source, limits, before, depth) == Ok::<Progress, ParseFailure>(after),
        after.offset == before.offset + space.len() + written(json, space).len(),
        before.values <= after.values <= before.values + written(json, space).len(),
        is_read(source, before, after, events_of(json, space)),
{
    lemma_at_value(source, before.offset, json, space);
    lemma_written_first(json, space);
    let token = written(json, space);
    let at = before.offset + space.len();
    let end = at + token.len();
    let progress = Progress { offset: at, values: before.values + 1, ..before };
    assert(counted(limits, Progress { offset: at, ..before }) == Ok::<Progress, ParseFailure>(
        progress,
    ));
    lemma_is_subrange(source, at, token);
    assert(before.decoded.take(before.decoded.len() as int) =~= before.decoded);
    let event = match json {
        Json::Boolean(truth) => StoredEvent::Boolean(truth),
        _ => StoredEvent::Null,
    };
    let read = with_event(Progress { offset: end, ..progress }, event);
    assert(value_head(source, limits, before, depth) == Head::Scalar(read));
    read
}

/// A scalar that stands behind whitespace is read as that scalar.
proof fn lemma_scalar_read(
    source: Seq<u8>,
    limits: NdjsonLimits,
    before: Progress,
    depth: int,
    json: Json,
    space: Seq<u8>,
) -> (after: Progress)
    requires
        is_json(json),
        is_space(space),
        !(json is Array) && !(json is Object),
        stands_at(source, before.offset, space + written(json, space)),
        has_room(source, limits, before, depth, written(json, space).len() as int),
        ({
            let end = before.offset + space.len() + written(json, space).len();
            end < source.len() ==> !goes_on(source[end])
        }),
    ensures
        value(source, limits, before, depth) == Ok::<Progress, ParseFailure>(after),
        after.offset == before.offset + space.len() + written(json, space).len(),
        before.values <= after.values <= before.values + written(json, space).len(),
        is_read(source, before, after, events_of(json, space)),
{
    match json {
        Json::String(_) => lemma_string_scalar(source, limits, before, depth, json, space),
        Json::Number(_) => lemma_number_scalar(source, limits, before, depth, json, space),
        _ => lemma_literal_scalar(source, limits, before, depth, json, space),
    }
}

/// Whitespace and then a byte that is none: where they stand, the byte is found.
proof fn lemma_at_mark(source: Seq<u8>, offset: int, space: Seq<u8>, mark: u8)
    requires
        is_space(space),
        !is_json_space(mark),
        !goes_on(mark),
        stands_at(source, offset, space + seq![mark]),
    ensures
        skip_space(source, offset) == offset + space.len(),
        byte_at(source, offset + space.len(), mark),
        offset < source.len() && !goes_on(source[offset]),
{
    let both = space + seq![mark];
    lemma_stands_apart(source, offset, space, seq![mark]);
    assert(source[offset + space.len() + 0] == seq![mark][0]);
    lemma_skip(source, offset, space);
    assert(source[offset + 0] == both[0]);
    if space.len() > 0 {
        assert(is_json_space(space[0]));
    }
}

/// A progress that only moved on reads nothing more.
proof fn lemma_moved(source: Seq<u8>, before: Progress, after: Progress, expected: Seq<EventView>, offset: int)
    requires
        is_read(source, before, after, expected),
        after.offset <= offset,
    ensures
        is_read(source, before, Progress { offset, ..after }, expected),
{
    let moved = Progress { offset, ..after };
    assert forall|i: int, longer: Seq<u8>|
        0 <= i < expected.len() && starts_with(longer, moved.decoded) implies #[trigger] resolved_event(
        moved.events[before.events.len() + i],
        source,
        longer,
    ) == expected[i] by {
        assert(resolved_event(after.events[before.events.len() + i], source, longer)
            == expected[i]);
    }
}

/// A read that starts at another offset is the same read.
proof fn lemma_moved_before(source: Seq<u8>, before: Progress, moved: Progress, after: Progress, expected: Seq<EventView>)
    requires
        is_read(source, moved, after, expected),
        moved.events == before.events,
        moved.decoded == before.decoded,
    ensures
        is_read(source, before, after, expected),
{
    assert forall|i: int, longer: Seq<u8>|
        0 <= i < expected.len() && starts_with(longer, after.decoded) implies #[trigger] resolved_event(
        after.events[before.events.len() + i],
        source,
        longer,
    ) == expected[i] by {
        assert(resolved_event(after.events[moved.events.len() + i], source, longer)
            == expected[i]);
    }
}

/// A value that stands behind whitespace is read as that value.
#[verifier::rlimit(60)]
#[verifier::spinoff_prover]
proof fn lemma_value_read(
    source: Seq<u8>,
    limits: NdjsonLimits,
    before: Progress,
    depth: int,
    json: Json,
    space: Seq<u8>,
) -> (after: Progress)
    requires
        is_json(json),
        is_space(space),
        stands_at(source, before.offset, space + written(json, space)),
        has_room(source, limits, before, depth, written(json, space).len() as int),
        ({
            let end = before.offset + space.len() + written(json, space).len();
            end < source.len() ==> !goes_on(source[end])
        }),
    ensures
        value(source, limits, before, depth) == Ok::<Progress, ParseFailure>(after),
        after.offset == before.offset + space.len() + written(json, space).len(),
        before.values <= after.values <= before.values + written(json, space).len(),
        is_read(source, before, after, events_of(json, space)),
    decreases json, 0int,
{
    match json {
        Json::Array(items) => lemma_array_read(source, limits, before, depth, items, space),
        Json::Object(members) => lemma_object_read(source, limits, before, depth, members, space),
        _ => lemma_scalar_read(source, limits, before, depth, json, space),
    }
}

#[verifier::rlimit(60)]
#[verifier::spinoff_prover]
proof fn lemma_array_read(
    source: Seq<u8>,
    limits: NdjsonLimits,
    before: Progress,
    depth: int,
    items: Seq<Json>,
    space: Seq<u8>,
) -> (after: Progress)
    requires
        is_json(Json::Array(items)),
        is_space(space),
        stands_at(source, before.offset, space + written(Json::Array(items), space)),
        has_room(source, limits, before, depth, written(Json::Array(items), space).len() as int),
    ensures
        value(source, limits, before, depth) == Ok::<Progress, ParseFailure>(after),
        after.offset == before.offset + space.len() + written(Json::Array(items), space).len(),
        before.values <= after.values <= before.values + written(Json::Array(items), space).len(),
        is_read(source, before, after, events_of(Json::Array(items), space)),
    decreases items, items.len() + 1,
{
    let json = Json::Array(items);
    lemma_at_value(source, before.offset, json, space);
    let token = written(json, space);
    let at = before.offset + space.len();
    let end = at + token.len();
    let content = written_items(items, 0, space);
    let tail = space + seq![0x5du8];
    let start_event = before.events.len() as int;
    let progress = Progress { offset: at, values: before.values + 1, ..before };
    assert(counted(limits, Progress { offset: at, ..before }) == Ok::<Progress, ParseFailure>(
        progress,
    ));
    let opened = Progress {
        offset: at + 1,
        events: before.events.push(
            StoredEvent::ArrayStart(Span { start: at as usize, end: at as usize }),
        ),
        ..progress
    };
    assert(value_head(source, limits, before, depth) == Head::Array(opened, start_event));
    assert(token =~= seq![0x5bu8] + (content + tail));
    lemma_stands_apart(source, at, seq![0x5bu8], content + tail);
    lemma_is_subrange(source, at, token);
    assert(before.decoded.take(before.decoded.len() as int) =~= before.decoded);
    let mid = if items.len() == 0 {
        assert(content + tail =~= tail);
        lemma_at_mark(source, at + 1, space, 0x5d);
        let mid = Progress { offset: at + 1 + space.len(), ..opened };
        assert(is_read(source, opened, mid, item_events(items, 0, space)));
        mid
    } else {
        let mid = lemma_items_read(
            source,
            limits,
            opened,
            depth + 1,
            items,
            0,
            space,
            start_event,
        );
        assert(is_json(items[0]));
        lemma_written_first(items[0], space);
        lemma_first_item(source, at + 1, items, 0, space, tail);
        mid
    };
    let after = array_closed(mid, start_event);
    assert(mid.events[start_event] == opened.events[start_event]);
    assert(value(source, limits, before, depth) == Ok::<Progress, ParseFailure>(after));
    let expected = events_of(json, space);
    let inner = item_events(items, 0, space);
    assert forall|i: int, longer: Seq<u8>|
        0 <= i < expected.len() && starts_with(longer, after.decoded) implies #[trigger] resolved_event(
        after.events[before.events.len() + i],
        source,
        longer,
    ) == expected[i] by {
        if i == 0 {
            assert(source.subrange(at, end) == token);
        } else if i < expected.len() - 1 {
            assert(after.events[start_event + i] == mid.events[opened.events.len() + (i - 1)]);
            assert(resolved_event(mid.events[opened.events.len() + (i - 1)], source, longer)
                == inner[i - 1]);
        }
    }
    assert forall|i: int| 0 <= i < before.events.len() implies #[trigger] after.events[i]
        == before.events[i] by {
        assert(mid.events[i] == opened.events[i]);
    }
    after
}

/// The first item stands behind whitespace.
proof fn lemma_first_item(
    source: Seq<u8>,
    offset: int,
    items: Seq<Json>,
    from: int,
    space: Seq<u8>,
    tail: Seq<u8>,
)
    requires
        0 <= from < items.len(),
        is_json(items[from]),
        is_space(space),
        stands_at(source, offset, written_items(items, from, space) + tail),
    ensures
        stands_at(source, offset, space + written(items[from], space)),
        skip_space(source, offset) == offset + space.len(),
        offset + space.len() < source.len(),
        source[offset + space.len()] == written(items[from], space)[0],
        ({
            let first = space + written(items[from], space);
            let behind = if from + 1 < items.len() {
                (space + seq![0x2cu8]) + (written_items(items, from + 1, space) + tail)
            } else {
                tail
            };
            stands_at(source, offset + first.len(), behind)
        }),
{
    let first = space + written(items[from], space);
    let behind = if from + 1 < items.len() {
        (space + seq![0x2cu8]) + (written_items(items, from + 1, space) + tail)
    } else {
        tail
    };
    assert(written_items(items, from, space) + tail =~= first + behind);
    lemma_stands_apart(source, offset, first, behind);
    lemma_at_value(source, offset, items[from], space);
}

#[verifier::rlimit(60)]
#[verifier::spinoff_prover]
proof fn lemma_items_read(
    source: Seq<u8>,
    limits: NdjsonLimits,
    before: Progress,
    depth: int,
    items: Seq<Json>,
    from: int,
    space: Seq<u8>,
    start_event: int,
) -> (mid: Progress)
    requires
        0 <= from < items.len(),
        forall|i: int| 0 <= i < items.len() ==> is_json(#[trigger] items[i]),
        is_space(space),
        stands_at(source, before.offset, written_items(items, from, space) + (space + seq![0x5du8])),
        has_room(source, limits, before, depth, written_items(items, from, space).len() as int),
    ensures
        array_element(source, limits, before, depth, start_event) == Ok::<Progress, ParseFailure>(
            array_closed(mid, start_event),
        ),
        mid.offset == before.offset + written_items(items, from, space).len() + space.len(),
        before.values <= mid.values <= before.values + written_items(items, from, space).len(),
        is_read(source, before, mid, item_events(items, from, space)),
    decreases items, items.len() - from,
{
    let tail = space + seq![0x5du8];
    let item = items[from];
    let first = space + written(item, space);
    let offset = before.offset + first.len();
    assert(is_json(item));
    lemma_first_item(source, before.offset, items, from, space, tail);
    if from + 1 < items.len() {
        let rest = written_items(items, from + 1, space);
        let comma = space + seq![0x2cu8];
        lemma_stands_apart(source, offset, comma, rest + tail);
        lemma_at_mark(source, offset, space, 0x2c);
        let read = lemma_value_read(source, limits, before, depth, item, space);
        let next = Progress { offset: offset + space.len() + 1, ..read };
        lemma_moved(source, before, read, events_of(item, space), next.offset);
        let mid = lemma_items_read(
            source,
            limits,
            next,
            depth,
            items,
            from + 1,
            space,
            start_event,
        );
        lemma_read_on(
            source,
            before,
            next,
            mid,
            events_of(item, space),
            item_events(items, from + 1, space),
        );
        mid
    } else {
        lemma_at_mark(source, offset, space, 0x5d);
        let read = lemma_value_read(source, limits, before, depth, item, space);
        let mid = Progress { offset: offset + space.len(), ..read };
        lemma_moved(source, before, read, events_of(item, space), mid.offset);
        assert(item_events(items, from + 1, space) =~= Seq::<EventView>::empty());
        assert(events_of(item, space) + item_events(items, from + 1, space) =~= events_of(
            item,
            space,
        ));
        mid
    }
}

#[verifier::rlimit(60)]
#[verifier::spinoff_prover]
proof fn lemma_object_read(
    source: Seq<u8>,
    limits: NdjsonLimits,
    before: Progress,
    depth: int,
    members: Seq<(Seq<u8>, Json)>,
    space: Seq<u8>,
) -> (after: Progress)
    requires
        is_json(Json::Object(members)),
        is_space(space),
        stands_at(source, before.offset, space + written(Json::Object(members), space)),
        has_room(source, limits, before, depth, written(Json::Object(members), space).len() as int),
    ensures
        value(source, limits, before, depth) == Ok::<Progress, ParseFailure>(after),
        after.offset == before.offset + space.len() + written(Json::Object(members), space).len(),
        before.values <= after.values <= before.values + written(Json::Object(members), space).len(),
        is_read(source, before, after, events_of(Json::Object(members), space)),
    decreases members, members.len() + 1,
{
    let json = Json::Object(members);
    lemma_at_value(source, before.offset, json, space);
    let token = written(json, space);
    let at = before.offset + space.len();
    let content = written_members(members, 0, space);
    let tail = space + seq![0x7du8];
    let progress = Progress { offset: at, values: before.values + 1, ..before };
    assert(counted(limits, Progress { offset: at, ..before }) == Ok::<Progress, ParseFailure>(
        progress,
    ));
    let opened = Progress {
        offset: at + 1,
        events: before.events.push(StoredEvent::ObjectStart),
        ..progress
    };
    assert(value_head(source, limits, before, depth) == Head::Object(opened));
    assert(token =~= seq![0x7bu8] + (content + tail));
    lemma_stands_apart(source, at, seq![0x7bu8], content + tail);
    assert(before.decoded.take(before.decoded.len() as int) =~= before.decoded);
    let mid = if members.len() == 0 {
        assert(content + tail =~= tail);
        lemma_at_mark(source, at + 1, space, 0x7d);
        let mid = Progress { offset: at + 1 + space.len(), ..opened };
        assert(is_read(source, opened, mid, member_events(members, 0, space)));
        mid
    } else {
        let mid = lemma_members_read(source, limits, opened, depth + 1, members, 0, space);
        lemma_first_member(source, at + 1, members, 0, space, tail);
        mid
    };
    let after = object_closed(mid);
    assert(value(source, limits, before, depth) == Ok::<Progress, ParseFailure>(after));
    let expected = events_of(json, space);
    let inner = member_events(members, 0, space);
    let start_event = before.events.len() as int;
    assert forall|i: int, longer: Seq<u8>|
        0 <= i < expected.len() && starts_with(longer, after.decoded) implies #[trigger] resolved_event(
        after.events[before.events.len() + i],
        source,
        longer,
    ) == expected[i] by {
        if i == 0 {
            assert(mid.events[start_event] == opened.events[start_event]);
        } else if i < expected.len() - 1 {
            assert(after.events[start_event + i] == mid.events[opened.events.len() + (i - 1)]);
            assert(resolved_event(mid.events[opened.events.len() + (i - 1)], source, longer)
                == inner[i - 1]);
        }
    }
    assert forall|i: int| 0 <= i < before.events.len() implies #[trigger] after.events[i]
        == before.events[i] by {
        assert(mid.events[i] == opened.events[i]);
    }
    after
}

/// The first member stands behind whitespace: its key, its colon and its value.
proof fn lemma_first_member(
    source: Seq<u8>,
    offset: int,
    members: Seq<(Seq<u8>, Json)>,
    from: int,
    space: Seq<u8>,
    tail: Seq<u8>,
)
    requires
        0 <= from < members.len(),
        is_space(space),
        stands_at(source, offset, written_members(members, from, space) + tail),
    ensures
        ({
            let key = quoted(members[from].0);
            let colon = space + seq![0x3au8];
            let first = space + written(members[from].1, space);
            let behind = if from + 1 < members.len() {
                (space + seq![0x2cu8]) + (written_members(members, from + 1, space) + tail)
            } else {
                tail
            };
            let keyed = offset + space.len() + key.len();
            &&& skip_space(source, offset) == offset + space.len()
            &&& byte_at(source, offset + space.len(), QUOTE)
            &&& stands_at(source, offset + space.len(), key)
            &&& stands_at(source, keyed, colon)
            &&& stands_at(source, keyed + colon.len(), first)
            &&& stands_at(source, keyed + colon.len() + first.len(), behind)
        }),
{
    let key = quoted(members[from].0);
    let colon = space + seq![0x3au8];
    let first = space + written(members[from].1, space);
    let behind = if from + 1 < members.len() {
        (space + seq![0x2cu8]) + (written_members(members, from + 1, space) + tail)
    } else {
        tail
    };
    assert(written_members(members, from, space) + tail =~= space + (key + (colon + (first
        + behind))));
    lemma_stands_apart(source, offset, space, key + (colon + (first + behind)));
    lemma_stands_apart(source, offset + space.len(), key, colon + (first + behind));
    lemma_stands_apart(source, offset + space.len() + key.len(), colon, first + behind);
    lemma_stands_apart(
        source,
        offset + space.len() + key.len() + colon.len(),
        first,
        behind,
    );
    assert(key[0] == QUOTE);
    assert(source[offset + space.len() + 0] == key[0]);
    lemma_skip(source, offset, space);
}

#[verifier::rlimit(80)]
#[verifier::spinoff_prover]
proof fn lemma_members_read(
    source: Seq<u8>,
    limits: NdjsonLimits,
    before: Progress,
    depth: int,
    members: Seq<(Seq<u8>, Json)>,
    from: int,
    space: Seq<u8>,
) -> (mid: Progress)
    requires
        0 <= from < members.len(),
        forall|i: int|
            0 <= i < members.len() ==> valid_utf8((#[trigger] members[i]).0) && is_json(
                members[i].1,
            ),
        is_space(space),
        stands_at(
            source,
            before.offset,
            written_members(members, from, space) + (space + seq![0x7du8]),
        ),
        has_room(source, limits, before, depth, written_members(members, from, space).len() as int),
    ensures
        object_member(source, limits, before, depth) == Ok::<Progress, ParseFailure>(
            object_closed(mid),
        ),
        mid.offset == before.offset + written_members(members, from, space).len() + space.len(),
        before.values <= mid.values <= before.values + written_members(members, from, space).len(),
        is_read(source, before, mid, member_events(members, from, space)),
    decreases members, members.len() - from,
{
    let tail = space + seq![0x7du8];
    let text = members[from].0;
    let item = members[from].1;
    let key = quoted(text);
    let first = space + written(item, space);
    assert(valid_utf8(members[from].0) && is_json(members[from].1));
    lemma_first_member(source, before.offset, members, from, space, tail);
    let at_key = Progress { offset: before.offset + space.len(), ..before };
    let _ = lemma_string_read(source, limits, at_key, text);
    let keyed = object_key(source, limits, at_key)->Ok_0;
    let key_event = seq![EventView::ObjectKey { raw: key, text }];
    lemma_moved_before(source, before, at_key, keyed, key_event);
    lemma_at_mark(source, keyed.offset, space, 0x3a);
    let at_value = Progress { offset: keyed.offset + space.len() + 1, ..keyed };
    lemma_moved(source, before, keyed, key_event, at_value.offset);
    let offset = at_value.offset + first.len();
    let own = key_event + events_of(item, space);
    if from + 1 < members.len() {
        let rest = written_members(members, from + 1, space);
        let comma = space + seq![0x2cu8];
        lemma_stands_apart(source, offset, comma, rest + tail);
        lemma_at_mark(source, offset, space, 0x2c);
        let read = lemma_value_read(source, limits, at_value, depth, item, space);
        let next = Progress { offset: offset + space.len() + 1, ..read };
        lemma_moved(source, at_value, read, events_of(item, space), next.offset);
        lemma_read_on(source, before, at_value, next, key_event, events_of(item, space));
        let mid = lemma_members_read(source, limits, next, depth, members, from + 1, space);
        lemma_read_on(source, before, next, mid, own, member_events(members, from + 1, space));
        mid
    } else {
        lemma_at_mark(source, offset, space, 0x7d);
        let read = lemma_value_read(source, limits, at_value, depth, item, space);
        let mid = Progress { offset: offset + space.len(), ..read };
        lemma_moved(source, at_value, read, events_of(item, space), mid.offset);
        lemma_read_on(source, before, at_value, mid, key_event, events_of(item, space));
        assert(member_events(members, from + 1, space) =~= Seq::<EventView>::empty());
        assert(own + member_events(members, from + 1, space) =~= own);
        mid
    }
}

/// A document is read as the value that it was written from, with whatever whitespace: its events
/// are the parts of the value in their order, each with its text and its spelling.
pub proof fn documents_read_back(json: Json, space: Seq<u8>, limits: NdjsonLimits)
    requires
        is_json(json),
        is_space(space),
        ({
            let length = space.len() + written(json, space).len() + space.len();
            &&& length <= usize::MAX
            &&& length <= limits.scalar_token_bytes
            &&& length <= limits.values
            &&& length <= limits.nesting_depth
        }),
    ensures
        ({
            let source = space + written(json, space) + space;
            let expected = events_of(json, space);
            document(source, limits) matches Ok(read) && read.offset == source.len()
                && read.events.len() == expected.len() && forall|i: int|
                0 <= i < expected.len() ==> #[trigger] resolved_event(
                    read.events[i],
                    source,
                    read.decoded,
                ) == expected[i]
        }),
{
    let token = space + written(json, space);
    let source = token + space;
    let before = fresh_progress();
    assert(stands_at(source, 0, token));
    if token.len() < source.len() {
        assert(source[token.len() as int] == space[0]);
        assert(is_json_space(space[0]));
    }
    let after = lemma_value_read(source, limits, before, 0, json, space);
    assert(stands_at(source, token.len() as int, space));
    lemma_skip(source, token.len() as int, space);
    assert(after.decoded.take(after.decoded.len() as int) =~= after.decoded);
    let expected = events_of(json, space);
    assert forall|i: int| 0 <= i < expected.len() implies #[trigger] resolved_event(
        after.events[i],
        source,
        after.decoded,
    ) == expected[i] by {
        assert(starts_with(after.decoded, after.decoded));
        assert(resolved_event(after.events[before.events.len() + i], source, after.decoded)
            == expected[i]);
    }
}

} // verus!
