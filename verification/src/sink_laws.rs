//! A sink takes the items of stream after stream, in their sequence.

use vstd::prelude::*;

use crate::archive_options::{KvIrArchiveFailure, KvIrArchiveInvalidData};
use crate::kv_ir::KvIrItem;
use crate::kv_ir_archive::{place_of, settled, with_item, ActionView, SinkView};

verus! {

/// An item is located by its own numbers: its stream, its offset, and where it has them its unit
/// and its event.
pub proof fn items_are_located_by_their_own_numbers(item: KvIrItem<'_>)
    ensures
        ({
            let place = place_of(item);
            match item {
                KvIrItem::StreamStart(header) => place.stream_index == header.stream_index
                    && place.input_offset == header.input_offset && place.unit_index is None
                    && place.event_index is None,
                KvIrItem::SchemaNode(node) => place.stream_index == node.stream_index
                    && place.input_offset == node.input_offset && place.unit_index == Some(
                    node.unit_index,
                ) && place.event_index is None,
                KvIrItem::LogEvent(event) => place.stream_index == event.stream_index
                    && place.input_offset == event.input_offset && place.unit_index == Some(
                    event.unit_index,
                ) && place.event_index == Some(event.event_index),
                KvIrItem::UtcOffsetChange(change) => place.stream_index == change.stream_index
                    && place.input_offset == change.input_offset && place.unit_index == Some(
                    change.unit_index,
                ) && place.event_index is None,
                KvIrItem::StreamEnd(end) => place.stream_index == end.stream_index
                    && place.input_offset == end.input_offset && place.unit_index == Some(
                    end.unit_index,
                ) && place.event_index is None,
            }
        }),
{
}

/// A sink goes from stream to stream: a stream starts where none is open and where the bytes before
/// it end, with schemas that have their roots alone; it ends where it is open; and only a record
/// that was appended, and only a stream that was begun, is counted, by one.
pub proof fn sinks_go_from_stream_to_stream(
    view: SinkView,
    item: KvIrItem<'_>,
    succeeded: bool,
    committed: bool,
)
    requires
        !(view.source matches Some(has_fields) && has_fields),
    ensures
        with_item(view, item) matches Ok((after, _)) ==> {
            let end = settled(after, succeeded, committed);
            match item {
                KvIrItem::StreamStart(header) => {
                    &&& view.stream is None && header.input_offset == view.accounted
                    &&& end.accounted == view.accounted && end.stats.records == view.stats.records
                    &&& if succeeded || view.source is None {
                        &&& end.stats.streams == view.stats.streams + 1
                        &&& end.stream matches Some(stream) && stream.auto.len() == 1
                            && stream.user.len() == 1 && stream.key_bytes == 0
                    } else {
                        end.stream is None && end.stats.streams == view.stats.streams
                    }
                },
                KvIrItem::LogEvent(event) => {
                    &&& view.stream is Some && end.stream == view.stream
                    &&& event.input_offset >= view.accounted
                    &&& end.stats.streams == view.stats.streams
                    &&& if succeeded || committed {
                        end.stats.records == view.stats.records + 1 && end.accounted
                            == event.input_offset + event.unit_bytes
                    } else {
                        end.stats.records == view.stats.records && end.accounted == view.accounted
                    }
                },
                KvIrItem::StreamEnd(stop) => {
                    &&& view.stream is Some && stop.input_offset >= view.accounted
                    &&& end.stats.records == view.stats.records
                    &&& if succeeded {
                        end.stream is None && end.accounted == stop.input_offset + stop.unit_bytes
                    } else {
                        end.stream == view.stream && end.accounted == view.accounted
                    }
                },
                _ => view.stream is Some && end.accounted == view.accounted && end.stats
                    == view.stats,
            }
        },
{
}

/// An item out of sequence is refused for what is out of sequence: a start within a stream, another
/// item outside of one, a start that is not where the bytes before it end, a unit before that end,
/// and a count or an end that no counter holds.
pub proof fn sinks_refuse_what_is_out_of_sequence(view: SinkView, item: KvIrItem<'_>)
    ensures
        ({
            let reply = with_item(view, item);
            let refusal = |reason: KvIrArchiveInvalidData|
                reply matches Err(KvIrArchiveFailure::Invalid(given)) && given == reason;
            &&& item is StreamStart && view.stream is Some ==> refusal(
                KvIrArchiveInvalidData::NestedStreamStart,
            )
            &&& !(item is StreamStart) && view.stream is None ==> refusal(
                KvIrArchiveInvalidData::ItemOutsideStream,
            )
            &&& (item matches KvIrItem::StreamStart(header) ==> view.stream is None ==> if (
            header.input_offset != view.accounted) {
                refusal(KvIrArchiveInvalidData::NonContiguousInput)
            } else if view.stats.streams == u64::MAX {
                reply matches Err(KvIrArchiveFailure::SizeOverflow)
            } else {
                match view.source {
                    None => reply matches Ok((_, action)) && action is Done,
                    Some(false) => reply matches Ok((_, action)) && action is BeginSource,
                    Some(true) => reply matches Ok((_, action)) ==> action is OfferFields,
                }
            })
            &&& (item matches KvIrItem::LogEvent(event) ==> view.stream is Some ==> if (
            event.input_offset < view.accounted) {
                refusal(KvIrArchiveInvalidData::NonContiguousInput)
            } else if event.input_offset + event.unit_bytes > u64::MAX || view.stats.records
                == u64::MAX {
                reply matches Err(KvIrArchiveFailure::SizeOverflow)
            } else {
                reply matches Ok((_, action)) ==> (action matches ActionView::AppendRecord {
                    source_bytes,
                } && view.accounted + source_bytes == event.input_offset + event.unit_bytes)
            })
            &&& (item matches KvIrItem::UtcOffsetChange(_) ==> view.stream is Some ==> (
            reply matches Ok((after, action)) && action is Done && after.stream == view.stream))
            &&& (item matches KvIrItem::StreamEnd(stop) ==> view.stream is Some ==> if (
            stop.input_offset < view.accounted) {
                refusal(KvIrArchiveInvalidData::NonContiguousInput)
            } else if stop.input_offset + stop.unit_bytes > u64::MAX {
                reply matches Err(KvIrArchiveFailure::SizeOverflow)
            } else {
                reply matches Ok((_, action)) && match action {
                    ActionView::EndSource { source_bytes } => view.source is Some && view.accounted
                        + source_bytes == stop.input_offset + stop.unit_bytes,
                    ActionView::AddUncompressedBytes { source_bytes } => view.source is None
                        && view.accounted + source_bytes == stop.input_offset + stop.unit_bytes,
                    _ => false,
                }
            })
        }),
{
}

} // verus!
