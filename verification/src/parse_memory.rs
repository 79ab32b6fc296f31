//! What memory a parse asks for, and when it does.

use vstd::prelude::*;
use vstd::utf8::valid_utf8;

use crate::grammar::{
    counted, fresh_progress, has_backslash, next_backslash, string_end, token_too_long, value_head,
    Progress,
};
use crate::ndjson::{NdjsonLimits, NdjsonResource};
use crate::parser::ParseFailure;
use crate::text::{skip_space, QUOTE};

verus! {

/// The refusal of memory for `count` units of `resource`.
pub open spec fn refused(resource: NdjsonResource, count: int) -> ParseFailure {
    ParseFailure::AllocationFailed { resource, requested_additional: count as usize }
}

/// Whether memory for `count` bytes is memory for one character, or for a run of the source
/// without a backslash.
pub open spec fn is_text_piece(source: Seq<u8>, count: int) -> bool {
    ||| 1 <= count <= 4
    ||| exists|start: int, end: int|
        0 <= start < end <= source.len() && end - start == count && !#[trigger] has_backslash(
            source,
            start,
            end,
        )
}

/// Whether memory for decoded text was refused.
pub open spec fn is_text_refused(failure: ParseFailure) -> bool {
    failure matches ParseFailure::AllocationFailed { resource, .. } && resource
        == NdjsonResource::DecodedStrings
}

/// Whether a parse of `source` can be refused this memory: it asks for one event or one open
/// container at a time, and for the pieces of a text that has escapes.
pub open spec fn is_request(source: Seq<u8>, failure: ParseFailure) -> bool {
    match failure {
        ParseFailure::AllocationFailed { resource, requested_additional } => match resource {
            NdjsonResource::Events | NdjsonResource::ParserStack => requested_additional == 1,
            NdjsonResource::DecodedStrings => has_backslash(source, 0, source.len() as int)
                && is_text_piece(source, requested_additional as int),
            NdjsonResource::RecordBuffer => false,
        },
        _ => false,
    }
}

/// Whether the string token at `start` comes to the point where it asks for memory: it ends, it is
/// short enough, it has escapes, and what stands before the first of them is UTF-8.
pub open spec fn string_asks(source: Seq<u8>, limits: NdjsonLimits, start: int) -> bool {
    string_end(source, start + 1) matches Ok(end) && !token_too_long(limits, start, end)
        && has_backslash(source, start + 1, end - 1) && valid_utf8(
        source.subrange(start + 1, next_backslash(source, start + 1, end - 1)),
    )
}

/// Whether this memory can be refused while the string token at `start` is read.
pub open spec fn string_request(
    source: Seq<u8>,
    limits: NdjsonLimits,
    start: int,
    failure: ParseFailure,
) -> bool {
    &&& is_request(source, failure)
    &&& is_text_refused(failure)
    &&& string_asks(source, limits, start)
}

/// Whether this memory can be refused while the beginning of a value is read: a text before its
/// event, an open container before its event, and the event once nothing else stands against it.
pub open spec fn head_request(
    source: Seq<u8>,
    limits: NdjsonLimits,
    before: Progress,
    depth: int,
    failure: ParseFailure,
) -> bool {
    let head = value_head(source, limits, before, depth);
    let at = skip_space(source, before.offset);
    ||| failure == refused(NdjsonResource::Events, 1) && !(head is Failed)
    ||| failure == refused(NdjsonResource::ParserStack, 1) && (head is Object || head is Array)
    ||| {
        &&& at < source.len() && source[at] == QUOTE
        &&& counted(limits, Progress { offset: at, ..before }) is Ok
        &&& string_request(source, limits, at, failure)
    }
}

/// Whether this memory can be refused while a document is parsed.
///
/// A failure that shows before the first request is always reported as itself.
pub open spec fn document_request(
    source: Seq<u8>,
    limits: NdjsonLimits,
    failure: ParseFailure,
) -> bool {
    let head = value_head(source, limits, fresh_progress(), 0);
    ||| head_request(source, limits, fresh_progress(), 0, failure)
    ||| is_request(source, failure) && (head is Object || head is Array)
}

} // verus!
