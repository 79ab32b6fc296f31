//! What values show is what they hold.

use vstd::prelude::*;

use crate::archive_metadata::{tree_of, RangeIndexValue, RangeTree};
use crate::archive_record::{RecordEvent, RecordEventView, RecordValue, RecordValueView};
use crate::kv_ir::KvIrEncodedText;
use crate::kv_ir_archive::{ActionView, ArchiveAction};
use crate::kv_ir_serializer::{Primitive, PrimitiveView};
use crate::msgpack::{Header, HeaderView};

verus! {

/// A value of a record shows its kind and what it holds.
pub proof fn record_values_show_what_they_hold(value: RecordValue<'_>)
    ensures
        match value {
            RecordValue::Integer(number) => value@ matches RecordValueView::Integer(same) && same
                == number,
            RecordValue::Float { bits } => value@ matches RecordValueView::Float { bits: same }
                && same == bits,
            RecordValue::Boolean(truth) => value@ matches RecordValueView::Boolean(same) && same
                == truth,
            RecordValue::String(text) => value@ matches RecordValueView::String(same) && same
                == text@,
            RecordValue::UnstructuredArray(text) => value@
                matches RecordValueView::UnstructuredArray(same) && same == text@,
            RecordValue::Null => value@ is Null,
            RecordValue::Timestamp(timestamp) => value@ matches RecordValueView::Timestamp(same)
                && same == timestamp@,
        },
{
}

/// An event of a record shows its kind, its key and its value.
pub proof fn record_events_show_what_they_hold(event: RecordEvent<'_>)
    ensures
        match event {
            RecordEvent::ObjectStart { key } => event@ matches RecordEventView::ObjectStart {
                key: same,
            } && same == key@,
            RecordEvent::ObjectEnd => event@ is ObjectEnd,
            RecordEvent::Value { key, value } => event@ matches RecordEventView::Value {
                key: same,
                value: shown,
            } && same == key@ && shown == value@,
        },
{
}

/// A MessagePack value shows its kind and what it holds.
pub proof fn headers_show_what_they_hold(header: Header<'_>)
    ensures
        match header {
            Header::Nil => header@ is Nil,
            Header::Boolean(truth) => header@ matches HeaderView::Boolean(same) && same == truth,
            Header::Integer(number) => header@ matches HeaderView::Integer(same) && same == number,
            Header::Float(bits) => header@ matches HeaderView::Float(same) && same == bits,
            Header::String(text) => header@ matches HeaderView::String(same) && same == text@,
            Header::ArrayHead(count) => header@ matches HeaderView::ArrayHead(same) && same
                == count,
            Header::MapHead(count) => header@ matches HeaderView::MapHead(same) && same == count,
            Header::Unsupported(kind) => header@ matches HeaderView::Unsupported(same) && same
                == kind,
        },
{
}

/// A leaf shows its kind and what it holds.
pub proof fn leaves_show_what_they_hold(leaf: Primitive<'_>)
    ensures
        match leaf {
            Primitive::Nil => leaf@ is Nil,
            Primitive::Boolean(truth) => leaf@ matches PrimitiveView::Boolean(same) && same
                == truth,
            Primitive::Integer(number) => leaf@ matches PrimitiveView::Integer(same) && same
                == number,
            Primitive::Float(bits) => leaf@ matches PrimitiveView::Float(same) && same == bits,
            Primitive::String(text) => leaf@ matches PrimitiveView::String(same) && same == text@,
            Primitive::EncodedText(text) => leaf@ matches PrimitiveView::EncodedText(same) && same
                == text@,
            Primitive::EmptyObject => leaf@ is EmptyObject,
        },
{
}

/// An encoded text shows its parts as they are.
pub proof fn encoded_texts_show_what_they_hold(text: KvIrEncodedText<'_>, index: int)
    ensures
        text@.encoding == text.encoding,
        text@.variables == text.encoded_variables@,
        text@.logtype == text.logtype@,
        text@.dictionary.len() == text.dictionary_variables@.len(),
        0 <= index < text.dictionary_variables@.len() ==> text@.dictionary[index]
            == text.dictionary_variables@[index]@,
{
}

/// A typed metadata value shows its kind and what it holds.
pub proof fn range_values_show_what_they_hold(value: RangeIndexValue)
    ensures
        match value {
            RangeIndexValue::Null => tree_of(value) is Null,
            RangeIndexValue::Boolean(truth) => tree_of(value) matches RangeTree::Boolean(same)
                && same == truth,
            RangeIndexValue::Signed(number) => tree_of(value) matches RangeTree::Signed(same)
                && same == number,
            RangeIndexValue::Unsigned(number) => tree_of(value) matches RangeTree::Unsigned(same)
                && same == number,
            RangeIndexValue::Float(bits) => tree_of(value) matches RangeTree::Float(same) && same
                == bits,
            RangeIndexValue::String(text) => tree_of(value) matches RangeTree::String(same) && same
                == text@,
            RangeIndexValue::Array(values) => tree_of(value) matches RangeTree::Array(same)
                && same.len() == values@.len() && forall|i: int|
                0 <= i < same.len() ==> #[trigger] same[i] == tree_of(values@[i]),
            RangeIndexValue::Object(_) => tree_of(value) is Object,
        },
{
}

/// A request to an archive set shows its kind and its bytes.
pub proof fn actions_show_what_they_hold(action: ArchiveAction)
    ensures
        match action {
            ArchiveAction::Done => action@ is Done,
            ArchiveAction::OfferFields { .. } => action@ is OfferFields,
            ArchiveAction::BeginSource => action@ is BeginSource,
            ArchiveAction::AppendRecord { source_bytes } => action@
                matches ActionView::AppendRecord { source_bytes: same } && same == source_bytes,
            ArchiveAction::EndSource { source_bytes } => action@ matches ActionView::EndSource {
                source_bytes: same,
            } && same == source_bytes,
            ArchiveAction::AddUncompressedBytes { source_bytes } => action@
                matches ActionView::AddUncompressedBytes { source_bytes: same } && same
                == source_bytes,
        },
{
}

} // verus!
