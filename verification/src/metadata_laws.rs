//! What the events of a stream's metadata say, and how its numbers are typed.

use vstd::prelude::*;
use vstd::utf8::valid_utf8;

use crate::archive_metadata::{
    has_float_mark, is_float_mark, metadata_meaning, number_meaning, user_fields, user_part_name,
    with_metadata_event, with_metadata_events, with_metadata_value, FrameView, MetadataEvent,
    MetadataState, RangeTree,
};
use crate::archive_options::KvIrArchiveFailure;
use crate::decimal::{decimal, digits, lemma_digits};
use crate::number::JsonNumberClassificationError;
use crate::text::{is_digit, lemma_ascii_is_utf8};

verus! {

/// The value that the events from `at` on describe, and where its events end: a scalar by itself, an
/// array by what stands before its end, and an object by its keys, each with the value behind it.
pub open spec fn value_described(events: Seq<MetadataEvent<'_>>, at: int) -> Option<
    (RangeTree, int),
>
    decreases events.len() - at, 0int,
{
    if !(0 <= at < events.len()) {
        None
    } else {
        match events[at] {
            MetadataEvent::Null => Some((RangeTree::Null, at + 1)),
            MetadataEvent::Boolean(truth) => Some((RangeTree::Boolean(truth), at + 1)),
            MetadataEvent::String(text) => Some((RangeTree::String(text@), at + 1)),
            MetadataEvent::Number { source, bits } => match number_meaning(source@, bits) {
                Ok(number) => Some((number, at + 1)),
                Err(_) => None,
            },
            MetadataEvent::ArrayStart => match items_described(events, at + 1, Seq::empty()) {
                Some((items, next)) => Some((RangeTree::Array(items), next)),
                None => None,
            },
            MetadataEvent::ObjectStart => match members_described(events, at + 1, Map::empty()) {
                Some((members, next)) => Some((RangeTree::Object(members), next)),
                None => None,
            },
            _ => None,
        }
    }
}

/// The items of an array up to its end, behind those before them.
pub open spec fn items_described(
    events: Seq<MetadataEvent<'_>>,
    at: int,
    before: Seq<RangeTree>,
) -> Option<(Seq<RangeTree>, int)>
    decreases events.len() - at, 1int,
{
    if !(0 <= at < events.len()) {
        None
    } else if events[at] is ArrayEnd {
        Some((before, at + 1))
    } else {
        match value_described(events, at) {
            Some((item, next)) => if at < next <= events.len() {
                items_described(events, next, before.push(item))
            } else {
                None
            },
            None => None,
        }
    }
}

/// The members of an object up to its end, added to those before them; a key that comes again
/// replaces what it had.
pub open spec fn members_described(
    events: Seq<MetadataEvent<'_>>,
    at: int,
    before: Map<Seq<u8>, RangeTree>,
) -> Option<(Map<Seq<u8>, RangeTree>, int)>
    decreases events.len() - at, 1int,
{
    if !(0 <= at < events.len()) {
        None
    } else {
        match events[at] {
            MetadataEvent::ObjectEnd => Some((before, at + 1)),
            MetadataEvent::Key(key) => match value_described(events, at + 1) {
                Some((value, next)) => if at < next <= events.len() {
                    members_described(events, next, before.insert(key@, value))
                } else {
                    None
                },
                None => None,
            },
            _ => None,
        }
    }
}

/// What follows once a value was taken in.
spec fn taken_in(
    state: MetadataState,
    tree: RangeTree,
    events: Seq<MetadataEvent<'_>>,
    next: int,
) -> Result<MetadataState, KvIrArchiveFailure> {
    match with_metadata_value(state, tree) {
        Ok(after) => with_metadata_events(after, events, next),
        Err(failure) => Err(failure),
    }
}

proof fn lemma_value_described(state: MetadataState, events: Seq<MetadataEvent<'_>>, at: int)
    ensures
        value_described(events, at) matches Some((tree, next)) ==> at < next <= events.len()
            && with_metadata_events(state, events, at) == taken_in(state, tree, events, next),
    decreases events.len() - at, 0int,
{
    if 0 <= at < events.len() {
        match events[at] {
            MetadataEvent::ArrayStart => {
                lemma_items_described(state, events, at + 1, Seq::empty());
            },
            MetadataEvent::ObjectStart => {
                lemma_members_described(state, events, at + 1, Map::empty());
            },
            _ => {},
        }
    }
}

proof fn lemma_items_described(
    state: MetadataState,
    events: Seq<MetadataEvent<'_>>,
    at: int,
    before: Seq<RangeTree>,
)
    ensures
        items_described(events, at, before) matches Some((items, next)) ==> at < next
            <= events.len() && with_metadata_events(
            MetadataState { stack: state.stack.push(FrameView::Array(before)), ..state },
            events,
            at,
        ) == taken_in(state, RangeTree::Array(items), events, next),
    decreases events.len() - at, 1int,
{
    let inner = MetadataState { stack: state.stack.push(FrameView::Array(before)), ..state };
    assert(inner.stack.drop_last() =~= state.stack);
    if 0 <= at < events.len() {
        if events[at] is ArrayEnd {
            assert(MetadataState { stack: inner.stack.drop_last(), ..inner } == state);
        } else {
            lemma_value_described(inner, events, at);
            match value_described(events, at) {
                Some((item, next)) => {
                    if at < next <= events.len() {
                        lemma_items_described(state, events, next, before.push(item));
                    }
                },
                None => {},
            }
        }
    }
}

proof fn lemma_members_described(
    state: MetadataState,
    events: Seq<MetadataEvent<'_>>,
    at: int,
    before: Map<Seq<u8>, RangeTree>,
)
    ensures
        members_described(events, at, before) matches Some((members, next)) ==> at < next
            <= events.len() && with_metadata_events(
            MetadataState {
                stack: state.stack.push(
                    FrameView::Object { fields: before, pending_key: None },
                ),
                ..state
            },
            events,
            at,
        ) == taken_in(state, RangeTree::Object(members), events, next),
    decreases events.len() - at, 1int,
{
    let inner = MetadataState {
        stack: state.stack.push(FrameView::Object { fields: before, pending_key: None }),
        ..state
    };
    assert(inner.stack.drop_last() =~= state.stack);
    if 0 <= at < events.len() {
        match events[at] {
            MetadataEvent::ObjectEnd => {
                assert(MetadataState { stack: inner.stack.drop_last(), ..inner } == state);
            },
            MetadataEvent::Key(key) => {
                let keyed = MetadataState {
                    stack: state.stack.push(
                        FrameView::Object { fields: before, pending_key: Some(key@) },
                    ),
                    ..state
                };
                assert(keyed.stack.drop_last() =~= state.stack);
                assert(with_metadata_event(inner, events[at]) == Ok::<
                    MetadataState,
                    KvIrArchiveFailure,
                >(keyed));
                lemma_value_described(keyed, events, at + 1);
                match value_described(events, at + 1) {
                    Some((value, next)) => {
                        if at < next <= events.len() {
                            lemma_members_described(
                                state,
                                events,
                                next,
                                before.insert(key@, value),
                            );
                        }
                    },
                    None => {},
                }
            },
            _ => {},
        }
    }
}

/// Metadata means the one value that its events describe.
pub proof fn metadata_means_what_it_describes(events: Seq<MetadataEvent<'_>>)
    ensures
        value_described(events, 0) matches Some((tree, next)) ==> next == events.len()
            ==> metadata_meaning(events) == Ok::<RangeTree, KvIrArchiveFailure>(tree),
        value_described(events, 0) matches Some((RangeTree::Object(members), next))
            ==> next == events.len() ==> match user_fields(events) {
            Ok(fields) => if members.dom().contains(user_part_name()) {
                members[user_part_name()] == RangeTree::Object(fields)
            } else {
                fields == Map::<Seq<u8>, RangeTree>::empty()
            },
            Err(_) => members.dom().contains(user_part_name()) && !(
            members[user_part_name()] is Object),
        },
{
    lemma_value_described(MetadataState { stack: Seq::empty(), root: None }, events, 0);
}

/// An integer is typed by its sign: a negative one is signed, any other is unsigned, and one beyond
/// 64 bits is none. A number with a point or an exponent is a float, whatever its digits.
pub proof fn numbers_are_typed_by_their_spelling(value: int, source: Seq<u8>, bits: u64)
    ensures
        i64::MIN <= value < 0 ==> number_meaning(decimal(value), Some(bits)) == Ok::<
            RangeTree,
            JsonNumberClassificationError,
        >(RangeTree::Signed(value)),
        0 <= value <= u64::MAX ==> number_meaning(decimal(value), Some(bits)) == Ok::<
            RangeTree,
            JsonNumberClassificationError,
        >(RangeTree::Unsigned(value)),
        value < i64::MIN || value > u64::MAX ==> number_meaning(decimal(value), Some(bits)) is Err,
        valid_utf8(source) && (source.contains(0x2e) || source.contains(0x65) || source.contains(
            0x45,
        )) && crate::number::finite_bits(bits) ==> number_meaning(source, Some(bits)) == Ok::<
            RangeTree,
            JsonNumberClassificationError,
        >(RangeTree::Float(bits)),
{
    let text = decimal(value);
    let size = if value < 0 {
        (-value) as nat
    } else {
        value as nat
    };
    let run = digits(size);
    lemma_digits(size);
    assert(is_digit(run[0]));
    let start = if value < 0 {
        1int
    } else {
        0
    };
    assert forall|i: int| start <= i < text.len() implies is_digit(#[trigger] text[i]) by {
        assert(text[i] == run[i - start]);
    }
    if value < 0 {
        assert(text.skip(1) =~= run);
    } else {
        assert(text =~= run);
    }
    lemma_ascii_is_utf8(text);
    assert(!has_float_mark(text)) by {
        assert forall|i: int| 0 <= i < text.len() implies !is_float_mark(#[trigger] text[i]) by {
            if i >= start {
                assert(is_digit(text[i]));
            }
        }
    }
    if source.contains(0x2e) {
        let i = source.index_of(0x2e);
        assert(is_float_mark(source[i]));
    } else if source.contains(0x65) {
        let i = source.index_of(0x65);
        assert(is_float_mark(source[i]));
    } else if source.contains(0x45) {
        let i = source.index_of(0x45);
        assert(is_float_mark(source[i]));
    }
}

} // verus!
