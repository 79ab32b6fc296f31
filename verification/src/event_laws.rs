//! What holds of the flat events of every document: containers are balanced, and the lexeme of an
//! array reaches from its opening bracket through its closing one.

use vstd::prelude::*;

use crate::grammar::{
    array_closed, array_element, array_rest, array_start, document, fresh_progress, object_closed,
    object_colon, object_key, object_member, object_rest, object_start, object_value, value,
    value_head, Head, Progress,
};
use crate::ndjson::NdjsonLimits;
use crate::parser::{lemma_value_progress, Span, StoredEvent};
use crate::text::{
    byte_at, lemma_skip_space, skip_space, COMMA, LEFT_BRACKET, RIGHT_BRACE, RIGHT_BRACKET,
};

verus! {

/// A container that is open.
pub enum Container {
    Object,
    Array,
}

/// The containers that are open after some events, the innermost last; nothing where one was
/// closed that was not the innermost.
pub open spec fn open_containers(events: Seq<StoredEvent>) -> Option<Seq<Container>>
    decreases events.len(),
{
    if events.len() == 0 {
        Some(Seq::empty())
    } else {
        match open_containers(events.drop_last()) {
            None => None,
            Some(open) => match events.last() {
                StoredEvent::ObjectStart => Some(open.push(Container::Object)),
                StoredEvent::ArrayStart(_) => Some(open.push(Container::Array)),
                StoredEvent::ObjectEnd => if open.len() > 0 && open.last() == Container::Object {
                    Some(open.drop_last())
                } else {
                    None
                },
                StoredEvent::ArrayEnd => if open.len() > 0 && open.last() == Container::Array {
                    Some(open.drop_last())
                } else {
                    None
                },
                _ => Some(open),
            },
        }
    }
}

/// Whether the lexeme of an array reaches from bracket to bracket.
pub open spec fn is_array_lexeme(source: Seq<u8>, event: StoredEvent) -> bool {
    event matches StoredEvent::ArrayStart(span) ==> {
        &&& span.start < span.end <= source.len()
        &&& source[span.start as int] == LEFT_BRACKET
        &&& source[span.end - 1] == RIGHT_BRACKET
    }
}

spec fn is_container(event: StoredEvent) -> bool {
    event is ObjectStart || event is ObjectEnd || event is ArrayStart || event is ArrayEnd
}

proof fn lemma_pushed(events: Seq<StoredEvent>, event: StoredEvent)
    ensures
        events.push(event).drop_last() == events,
        events.push(event).last() == event,
{
    assert(events.push(event).drop_last() =~= events);
}

/// The lexeme of an array does not matter to what is open.
proof fn lemma_open_updated(events: Seq<StoredEvent>, at: int, span: Span)
    requires
        0 <= at < events.len(),
        events[at] is ArrayStart,
    ensures
        open_containers(events.update(at, StoredEvent::ArrayStart(span))) == open_containers(
            events,
        ),
    decreases events.len(),
{
    let updated = events.update(at, StoredEvent::ArrayStart(span));
    if at == events.len() - 1 {
        assert(updated.drop_last() =~= events.drop_last());
    } else {
        assert(updated.drop_last() =~= events.drop_last().update(
            at,
            StoredEvent::ArrayStart(span),
        ));
        lemma_open_updated(events.drop_last(), at, span);
    }
}

/// Whether the first events stayed as they were.
spec fn keeps(before: Seq<StoredEvent>, after: Seq<StoredEvent>) -> bool {
    &&& before.len() <= after.len()
    &&& forall|i: int| 0 <= i < before.len() ==> #[trigger] after[i] == before[i]
}

/// Whether the first events stayed as they were, but for one.
spec fn keeps_but(before: Seq<StoredEvent>, after: Seq<StoredEvent>, at: int) -> bool {
    &&& before.len() <= after.len()
    &&& forall|i: int| 0 <= i < before.len() && i != at ==> #[trigger] after[i] == before[i]
}

/// Whether all arrays among the later events have whole lexemes.
spec fn has_lexemes(source: Seq<u8>, events: Seq<StoredEvent>, from: int) -> bool {
    forall|i: int| from <= i < events.len() ==> is_array_lexeme(source, #[trigger] events[i])
}

/// What a value adds.
spec fn value_adds(source: Seq<u8>, before: Progress, after: Progress) -> bool {
    &&& before.offset < after.offset <= source.len()
    &&& keeps(before.events, after.events)
    &&& has_lexemes(source, after.events, before.events.len() as int)
    &&& open_containers(before.events) is Some ==> open_containers(after.events)
        == open_containers(before.events)
}

/// Whether the innermost open container is one of a kind.
spec fn is_inside(events: Seq<StoredEvent>, container: Container) -> bool {
    open_containers(events) matches Some(open) && open.len() > 0 && open.last() == container
}

/// What the rest of an object adds.
spec fn object_adds(source: Seq<u8>, before: Progress, after: Progress) -> bool {
    &&& before.offset < after.offset <= source.len()
    &&& keeps(before.events, after.events)
    &&& has_lexemes(source, after.events, before.events.len() as int)
    &&& is_inside(before.events, Container::Object) ==> open_containers(after.events) == Some(
        (open_containers(before.events)->0).drop_last(),
    )
}

/// Whether an array was opened at an event.
spec fn is_opened(source: Seq<u8>, events: Seq<StoredEvent>, at: int, offset: int) -> bool {
    &&& 0 <= at < events.len()
    &&& events[at] matches StoredEvent::ArrayStart(span) && span.start < offset
        && source[span.start as int] == LEFT_BRACKET
}

/// What the rest of an array adds.
spec fn array_adds(source: Seq<u8>, before: Progress, after: Progress, at: int) -> bool {
    &&& before.offset < after.offset <= source.len()
    &&& keeps_but(before.events, after.events, at)
    &&& has_lexemes(source, after.events, before.events.len() as int)
    &&& is_array_lexeme(source, after.events[at])
    &&& after.events[at] is ArrayStart
    &&& is_inside(before.events, Container::Array) ==> open_containers(after.events) == Some(
        (open_containers(before.events)->0).drop_last(),
    )
}

/// What a scalar or the start of a container adds.
proof fn lemma_head_adds(source: Seq<u8>, limits: NdjsonLimits, before: Progress, depth: int)
    requires
        0 <= before.offset <= source.len() <= usize::MAX,
    ensures
        match value_head(source, limits, before, depth) {
            Head::Failed(_) => true,
            Head::Scalar(progress) => {
                &&& progress.events.len() == before.events.len() + 1
                &&& progress.events.drop_last() == before.events
                &&& !is_container(progress.events.last())
            },
            Head::Object(progress) => progress.events == before.events.push(
                StoredEvent::ObjectStart,
            ),
            Head::Array(progress, at) => {
                &&& at == before.events.len()
                &&& 0 < progress.offset <= source.len()
                &&& progress.events == before.events.push(
                    StoredEvent::ArrayStart(
                        Span {
                            start: (progress.offset - 1) as usize,
                            end: (progress.offset - 1) as usize,
                        },
                    ),
                )
                &&& source[progress.offset - 1] == LEFT_BRACKET
            },
        },
{
    lemma_skip_space(source, before.offset);
    assert forall|event: StoredEvent| #[trigger]
        before.events.push(event).drop_last() == before.events by {
        lemma_pushed(before.events, event);
    }
}

proof fn lemma_value_adds(source: Seq<u8>, limits: NdjsonLimits, before: Progress, depth: int)
    requires
        0 <= before.offset <= source.len() <= usize::MAX,
    ensures
        value(source, limits, before, depth) matches Ok(after) ==> value_adds(
            source,
            before,
            after,
        ),
    decreases source.len() - before.offset, 2int,
{
    lemma_value_progress(source, limits, before, depth);
    lemma_head_adds(source, limits, before, depth);
    match value_head(source, limits, before, depth) {
        Head::Failed(_) => {},
        Head::Scalar(progress) => {
            assert(progress.events =~= before.events.push(progress.events.last()));
        },
        Head::Object(opened) => {
            if before.offset < opened.offset <= source.len() {
                lemma_object_start_adds(source, limits, opened, depth + 1);
                lemma_pushed(before.events, StoredEvent::ObjectStart);
                match object_start(source, limits, opened, depth + 1) {
                    Ok(after) => {
                        assert forall|i: int| 0 <= i < before.events.len() implies
                            #[trigger] after.events[i] == before.events[i] by {
                            assert(opened.events[i] == before.events[i]);
                        }
                        assert(after.events[before.events.len() as int]
                            == opened.events[before.events.len() as int]);
                        if open_containers(before.events) is Some {
                            let open = open_containers(before.events)->0;
                            assert(open.push(Container::Object).drop_last() =~= open);
                        }
                    },
                    Err(_) => {},
                }
            }
        },
        Head::Array(opened, at) => {
            if before.offset < opened.offset <= source.len() {
                let event = opened.events.last();
                lemma_pushed(before.events, event);
                assert(opened.events[at] == event);
                lemma_array_start_adds(source, limits, opened, depth + 1, at);
                match array_start(source, limits, opened, depth + 1, at) {
                    Ok(after) => {
                        assert forall|i: int| 0 <= i < before.events.len() implies
                            #[trigger] after.events[i] == before.events[i] by {
                            assert(opened.events[i] == before.events[i]);
                        }
                        if open_containers(before.events) is Some {
                            let open = open_containers(before.events)->0;
                            assert(open.push(Container::Array).drop_last() =~= open);
                        }
                    },
                    Err(_) => {},
                }
            }
        },
    }
}

proof fn lemma_object_closed_adds(source: Seq<u8>, before: Progress, at: int)
    requires
        before.offset <= at < source.len(),
    ensures
        object_adds(source, before, object_closed(Progress { offset: at, ..before })),
{
    lemma_pushed(before.events, StoredEvent::ObjectEnd);
}

proof fn lemma_object_start_adds(
    source: Seq<u8>,
    limits: NdjsonLimits,
    before: Progress,
    depth: int,
)
    requires
        0 <= before.offset <= source.len() <= usize::MAX,
    ensures
        object_start(source, limits, before, depth) matches Ok(after) ==> object_adds(
            source,
            before,
            after,
        ),
    decreases source.len() - before.offset, 1int,
{
    let at = skip_space(source, before.offset);
    lemma_skip_space(source, before.offset);
    if byte_at(source, at, RIGHT_BRACE) {
        lemma_object_closed_adds(source, before, at);
    } else {
        lemma_object_member_adds(source, limits, before, depth);
    }
}

proof fn lemma_object_member_adds(
    source: Seq<u8>,
    limits: NdjsonLimits,
    before: Progress,
    depth: int,
)
    requires
        0 <= before.offset <= source.len() <= usize::MAX,
    ensures
        object_member(source, limits, before, depth) matches Ok(after) ==> object_adds(
            source,
            before,
            after,
        ),
    decreases source.len() - before.offset, 0int,
{
    let progress = Progress { offset: skip_space(source, before.offset), ..before };
    match object_key(source, limits, progress) {
        Err(_) => {},
        Ok(keyed) => {
            if before.offset < keyed.offset <= source.len() {
                lemma_object_colon_adds(source, limits, keyed, depth);
                let key = keyed.events.last();
                lemma_pushed(before.events, key);
                assert(keyed.events =~= before.events.push(key));
                assert(open_containers(keyed.events) == open_containers(before.events));
                match object_colon(source, limits, keyed, depth) {
                    Ok(after) => {
                        lemma_object_after_key(source, before, keyed, after);
                    },
                    Err(_) => {},
                }
            }
        },
    }
}

/// What follows a key adds to the object.
proof fn lemma_object_after_key(
    source: Seq<u8>,
    before: Progress,
    keyed: Progress,
    after: Progress,
)
    requires
        before.offset < keyed.offset,
        object_adds(source, keyed, after),
        keyed.events.len() == before.events.len() + 1,
        keeps(before.events, keyed.events),
        !is_container(keyed.events.last()),
        open_containers(keyed.events) == open_containers(before.events),
    ensures
        object_adds(source, before, after),
{
    assert forall|i: int| 0 <= i < before.events.len() implies #[trigger] after.events[i]
        == before.events[i] by {
        assert(after.events[i] == keyed.events[i]);
    }
    assert(after.events[before.events.len() as int] == keyed.events[before.events.len() as int]);
}

proof fn lemma_object_colon_adds(
    source: Seq<u8>,
    limits: NdjsonLimits,
    before: Progress,
    depth: int,
)
    requires
        0 <= before.offset <= source.len() <= usize::MAX,
    ensures
        object_colon(source, limits, before, depth) matches Ok(after) ==> object_adds(
            source,
            before,
            after,
        ),
    decreases source.len() - before.offset, 0int,
{
    let at = skip_space(source, before.offset);
    lemma_skip_space(source, before.offset);
    if byte_at(source, at, crate::text::COLON) {
        lemma_object_value_adds(
            source,
            limits,
            Progress { offset: at + 1, ..before },
            depth,
        );
    }
}

proof fn lemma_object_value_adds(
    source: Seq<u8>,
    limits: NdjsonLimits,
    before: Progress,
    depth: int,
)
    requires
        0 <= before.offset <= source.len() <= usize::MAX,
    ensures
        object_value(source, limits, before, depth) matches Ok(after) ==> object_adds(
            source,
            before,
            after,
        ),
    decreases source.len() - before.offset, 3int,
{
    match value(source, limits, before, depth) {
        Err(_) => {},
        Ok(progress) => {
            if before.offset < progress.offset <= source.len() {
                lemma_value_adds(source, limits, before, depth);
                lemma_object_rest_adds(source, limits, progress, depth);
                match object_rest(source, limits, progress, depth) {
                    Ok(after) => {
                        lemma_keeps_on(source, before, progress, after);
                    },
                    Err(_) => {},
                }
            }
        },
    }
}

/// What stayed as it was twice stayed as it was.
proof fn lemma_keeps_on(source: Seq<u8>, before: Progress, middle: Progress, after: Progress)
    requires
        keeps(before.events, middle.events),
        keeps(middle.events, after.events),
        has_lexemes(source, middle.events, before.events.len() as int),
        has_lexemes(source, after.events, middle.events.len() as int),
    ensures
        keeps(before.events, after.events),
        has_lexemes(source, after.events, before.events.len() as int),
{
    assert forall|i: int| 0 <= i < before.events.len() implies #[trigger] after.events[i]
        == before.events[i] by {
        assert(after.events[i] == middle.events[i]);
    }
    assert forall|i: int| before.events.len() <= i < after.events.len() implies is_array_lexeme(
        source,
        #[trigger] after.events[i],
    ) by {
        if i < middle.events.len() {
            assert(after.events[i] == middle.events[i]);
        }
    }
}

proof fn lemma_object_rest_adds(
    source: Seq<u8>,
    limits: NdjsonLimits,
    before: Progress,
    depth: int,
)
    requires
        0 <= before.offset <= source.len() <= usize::MAX,
    ensures
        object_rest(source, limits, before, depth) matches Ok(after) ==> object_adds(
            source,
            before,
            after,
        ),
    decreases source.len() - before.offset, 1int,
{
    let at = skip_space(source, before.offset);
    lemma_skip_space(source, before.offset);
    if byte_at(source, at, COMMA) {
        lemma_object_member_adds(source, limits, Progress { offset: at + 1, ..before }, depth);
    } else if byte_at(source, at, RIGHT_BRACE) {
        lemma_object_closed_adds(source, before, at);
    }
}

proof fn lemma_array_closed_adds(source: Seq<u8>, before: Progress, at: int, start_event: int)
    requires
        0 <= before.offset <= at < source.len() <= usize::MAX,
        source[at] == RIGHT_BRACKET,
        is_opened(source, before.events, start_event, at + 1),
    ensures
        array_adds(
            source,
            before,
            array_closed(Progress { offset: at, ..before }, start_event),
            start_event,
        ),
{
    let after = array_closed(Progress { offset: at, ..before }, start_event);
    let start = before.events[start_event]->ArrayStart_0.start;
    let span = Span { start, end: (at + 1) as usize };
    let updated = before.events.update(start_event, StoredEvent::ArrayStart(span));
    lemma_open_updated(before.events, start_event, span);
    lemma_pushed(updated, StoredEvent::ArrayEnd);
}

proof fn lemma_array_start_adds(
    source: Seq<u8>,
    limits: NdjsonLimits,
    before: Progress,
    depth: int,
    start_event: int,
)
    requires
        0 <= before.offset <= source.len() <= usize::MAX,
        is_opened(source, before.events, start_event, before.offset),
    ensures
        array_start(source, limits, before, depth, start_event) matches Ok(after) ==> array_adds(
            source,
            before,
            after,
            start_event,
        ),
    decreases source.len() - before.offset, 4int,
{
    let at = skip_space(source, before.offset);
    lemma_skip_space(source, before.offset);
    if byte_at(source, at, RIGHT_BRACKET) {
        lemma_array_closed_adds(source, before, at, start_event);
    } else {
        lemma_array_element_adds(source, limits, before, depth, start_event);
    }
}

proof fn lemma_array_element_adds(
    source: Seq<u8>,
    limits: NdjsonLimits,
    before: Progress,
    depth: int,
    start_event: int,
)
    requires
        0 <= before.offset <= source.len() <= usize::MAX,
        is_opened(source, before.events, start_event, before.offset),
    ensures
        array_element(source, limits, before, depth, start_event) matches Ok(after) ==> array_adds(
            source,
            before,
            after,
            start_event,
        ),
    decreases source.len() - before.offset, 3int,
{
    match value(source, limits, before, depth) {
        Err(_) => {},
        Ok(progress) => {
            if before.offset < progress.offset <= source.len() {
                lemma_value_adds(source, limits, before, depth);
                assert(progress.events[start_event] == before.events[start_event]);
                lemma_array_rest_adds(source, limits, progress, depth, start_event);
                match array_rest(source, limits, progress, depth, start_event) {
                    Ok(after) => {
                        assert forall|i: int|
                            0 <= i < before.events.len() && i != start_event implies
                            #[trigger] after.events[i] == before.events[i] by {
                            assert(after.events[i] == progress.events[i]);
                        }
                        assert forall|i: int|
                            before.events.len() <= i < after.events.len() implies is_array_lexeme(
                            source,
                            #[trigger] after.events[i],
                        ) by {
                            if i < progress.events.len() {
                                assert(after.events[i] == progress.events[i]);
                            }
                        }
                    },
                    Err(_) => {},
                }
            }
        },
    }
}

proof fn lemma_array_rest_adds(
    source: Seq<u8>,
    limits: NdjsonLimits,
    before: Progress,
    depth: int,
    start_event: int,
)
    requires
        0 <= before.offset <= source.len() <= usize::MAX,
        is_opened(source, before.events, start_event, before.offset),
    ensures
        array_rest(source, limits, before, depth, start_event) matches Ok(after) ==> array_adds(
            source,
            before,
            after,
            start_event,
        ),
    decreases source.len() - before.offset, 1int,
{
    let at = skip_space(source, before.offset);
    lemma_skip_space(source, before.offset);
    if byte_at(source, at, COMMA) {
        lemma_array_element_adds(
            source,
            limits,
            Progress { offset: at + 1, ..before },
            depth,
            start_event,
        );
    } else if byte_at(source, at, RIGHT_BRACKET) {
        lemma_array_closed_adds(source, before, at, start_event);
    }
}

/// The events of every document close each container that they open, innermost first, and no
/// other; and the lexeme of each array reaches from its opening bracket through its closing one.
pub proof fn documents_are_balanced(source: Seq<u8>, limits: NdjsonLimits)
    requires
        source.len() <= usize::MAX,
    ensures
        document(source, limits) matches Ok(progress) ==> {
            &&& open_containers(progress.events) == Some(Seq::<Container>::empty())
            &&& forall|i: int|
                0 <= i < progress.events.len() ==> is_array_lexeme(
                    source,
                    #[trigger] progress.events[i],
                )
        },
{
    lemma_value_adds(source, limits, fresh_progress(), 0);
}

} // verus!
