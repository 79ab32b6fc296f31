//! Converts the items of decoded streams into what an archive set is asked to do.
//!
//! The archive set itself is carried along untouched. For every item the sink says which request
//! the archive set is to be given, and is told afterwards what came of it.

use vstd::prelude::*;

use crate::archive_metadata::{
    field_trees, is_ordered, user_defined_metadata, user_fields, RangeIndexField, RangeTree,
};
use crate::archive_options::{
    archive_limit, archive_refused, report_archive_limit, ArchiveSourceContextError, ItemPlace,
    KvIrArchiveError, KvIrArchiveErrorKind, KvIrArchiveFailure, KvIrArchiveInvalidData,
    KvIrArchiveLimitResource, KvIrArchiveOptions, KvIrArchiveResource, KvIrArchiveStats,
};
use crate::archive_plan::{
    event_plan, is_event_plan_request, is_plan_ok, path_in, resolver_view, PlanContext, PlanState,
    RecordPlanner, Trees,
};
use crate::archive_record::PlannedRecord;
use crate::archive_schema::{
    archive_root, is_declaration_request, path_view, with_declared, ArchiveNode, ArchiveTree,
};
use crate::kv_ir::{
    KvIrItem, KvIrLogEvent, KvIrNamespace, KvIrPair, KvIrSchemaNode, KvIrStreamEnd,
    KvIrStreamHeader,
};
use crate::timestamp::KvIrTimestampResolver;
use crate::timestamp_path::PathView;

verus! {

/// What is to be settled once the archive set has answered.
#[derive(Clone, Copy, Debug, PartialEq, Eq, Structural)]
pub enum Pending {
    Nothing,
    Fields { place: ItemPlace, streams: u64 },
    StreamStart { place: ItemPlace, streams: u64 },
    Record { place: ItemPlace, input_end: u64, records: u64 },
    StreamEnd { place: ItemPlace, input_end: u64 },
}

/// The open stream.
pub struct StreamView {
    pub auto: Seq<ArchiveNode>,
    pub user: Seq<ArchiveNode>,
    pub key_bytes: int,
}

/// State of a sink.
pub struct SinkView {
    pub options: KvIrArchiveOptions,
    /// Whether each stream is bracketed by a source, and whether sources carry fields.
    pub source: Option<bool>,
    pub stream: Option<StreamView>,
    pub accounted: u64,
    pub stats: KvIrArchiveStats,
    pub pending: Pending,
    pub resolver: Option<(PathView, Option<KvIrNamespace>)>,
}

/// What the archive set is asked to do.
#[derive(Debug)]
pub enum ArchiveAction {
    /// Nothing.
    Done,
    /// Say whether the source takes these fields besides its own.
    OfferFields { fields: Vec<RangeIndexField> },
    /// Begin a source, with the fields that it was offered.
    BeginSource,
    /// Append the planned record.
    AppendRecord { source_bytes: u64 },
    /// End the source.
    EndSource { source_bytes: u64 },
    /// Account for bytes that hold no record.
    AddUncompressedBytes { source_bytes: u64 },
}

/// What the archive set is asked to do, by its meaning.
pub enum ActionView {
    Done,
    OfferFields { fields: Map<Seq<u8>, RangeTree> },
    BeginSource,
    AppendRecord { source_bytes: int },
    EndSource { source_bytes: int },
    AddUncompressedBytes { source_bytes: int },
}

impl View for ArchiveAction {
    type V = ActionView;

    open spec fn view(&self) -> ActionView {
        match *self {
            ArchiveAction::Done => ActionView::Done,
            ArchiveAction::OfferFields { fields } => ActionView::OfferFields {
                fields: field_trees(fields@),
            },
            ArchiveAction::BeginSource => ActionView::BeginSource,
            ArchiveAction::AppendRecord { source_bytes } => ActionView::AppendRecord {
                source_bytes: source_bytes as int,
            },
            ArchiveAction::EndSource { source_bytes } => ActionView::EndSource {
                source_bytes: source_bytes as int,
            },
            ArchiveAction::AddUncompressedBytes { source_bytes } =>
                ActionView::AddUncompressedBytes { source_bytes: source_bytes as int },
        }
    }
}

/// A conversion failure at its item.
#[derive(Clone, Debug)]
pub struct ConversionError {
    pub place: ItemPlace,
    pub failure: KvIrArchiveFailure,
}

impl ConversionError {
    /// Returns the failure as an error of the whole conversion.
    pub fn into_error<E>(self) -> (error: KvIrArchiveError<E>)
        ensures
            error.place == self.place,
            error.kind == KvIrArchiveErrorKind::<E>::Conversion(self.failure),
    {
        KvIrArchiveError { place: self.place, kind: KvIrArchiveErrorKind::Conversion(self.failure) }
    }
}

pub open spec fn invalid(data: KvIrArchiveInvalidData) -> KvIrArchiveFailure {
    KvIrArchiveFailure::Invalid(data)
}

/// Where an item stands.
pub open spec fn place_of(item: KvIrItem<'_>) -> ItemPlace {
    match item {
        KvIrItem::StreamStart(header) => ItemPlace {
            stream_index: header.stream_index,
            unit_index: None,
            event_index: None,
            input_offset: header.input_offset,
        },
        KvIrItem::SchemaNode(node) => ItemPlace {
            stream_index: node.stream_index,
            unit_index: Some(node.unit_index),
            event_index: None,
            input_offset: node.input_offset,
        },
        KvIrItem::LogEvent(event) => ItemPlace {
            stream_index: event.stream_index,
            unit_index: Some(event.unit_index),
            event_index: Some(event.event_index),
            input_offset: event.input_offset,
        },
        KvIrItem::UtcOffsetChange(change) => ItemPlace {
            stream_index: change.stream_index,
            unit_index: Some(change.unit_index),
            event_index: None,
            input_offset: change.input_offset,
        },
        KvIrItem::StreamEnd(end) => ItemPlace {
            stream_index: end.stream_index,
            unit_index: Some(end.unit_index),
            event_index: None,
            input_offset: end.input_offset,
        },
    }
}

/// The sink with a stream that just started.
pub open spec fn started(view: SinkView, streams: u64) -> SinkView {
    SinkView {
        stream: Some(StreamView { auto: archive_root(), user: archive_root(), key_bytes: 0 }),
        stats: KvIrArchiveStats { streams, ..view.stats },
        pending: Pending::Nothing,
        ..view
    }
}

pub open spec fn with_start(view: SinkView, header: KvIrStreamHeader<'_>) -> Result<
    (SinkView, ActionView),
    KvIrArchiveFailure,
> {
    if view.stream is Some {
        Err(invalid(KvIrArchiveInvalidData::NestedStreamStart))
    } else if header.input_offset != view.accounted {
        Err(invalid(KvIrArchiveInvalidData::NonContiguousInput))
    } else if view.stats.streams == u64::MAX {
        Err(KvIrArchiveFailure::SizeOverflow)
    } else {
        let streams = (view.stats.streams + 1) as u64;
        match view.source {
            None => Ok((started(view, streams), ActionView::Done)),
            Some(has_fields) => {
                let place = place_of(KvIrItem::StreamStart(header));
                if has_fields {
                    match user_fields(header.metadata@) {
                        Err(failure) => Err(failure),
                        Ok(fields) => Ok(
                            (
                                SinkView { pending: Pending::Fields { place, streams }, ..view },
                                ActionView::OfferFields { fields },
                            ),
                        ),
                    }
                } else {
                    Ok(
                        (
                            SinkView { pending: Pending::StreamStart { place, streams }, ..view },
                            ActionView::BeginSource,
                        ),
                    )
                }
            },
        }
    }
}

pub open spec fn tree_of_stream(stream: StreamView, namespace: KvIrNamespace) -> Seq<ArchiveNode> {
    match namespace {
        KvIrNamespace::AutoGenerated => stream.auto,
        KvIrNamespace::UserGenerated => stream.user,
    }
}

pub open spec fn with_schema(view: SinkView, node: KvIrSchemaNode<'_>) -> Result<
    (SinkView, ActionView),
    KvIrArchiveFailure,
> {
    match view.stream {
        None => Err(invalid(KvIrArchiveInvalidData::ItemOutsideStream)),
        Some(stream) => {
            let tree = tree_of_stream(stream, node.namespace);
            let limits = view.options.limits;
            let key_bytes = stream.key_bytes + node.key@.len();
            if tree.len() > limits.schema_nodes_per_namespace {
                Err(
                    archive_limit(
                        KvIrArchiveLimitResource::SchemaNodesPerNamespace,
                        tree.len() as int,
                        limits.schema_nodes_per_namespace,
                    ),
                )
            } else if node.depth > limits.nesting_depth {
                Err(
                    archive_limit(
                        KvIrArchiveLimitResource::NestingDepth,
                        node.depth as int,
                        limits.nesting_depth,
                    ),
                )
            } else if key_bytes > u64::MAX {
                Err(KvIrArchiveFailure::SizeOverflow)
            } else if key_bytes > limits.schema_key_bytes {
                Err(
                    archive_limit(
                        KvIrArchiveLimitResource::SchemaKeyBytes,
                        key_bytes,
                        limits.schema_key_bytes,
                    ),
                )
            } else {
                match with_declared(tree, node) {
                    Err(failure) => Err(failure),
                    Ok(grown_tree) => Ok(
                        (
                            SinkView {
                                stream: Some(
                                    match node.namespace {
                                        KvIrNamespace::AutoGenerated => StreamView {
                                            auto: grown_tree,
                                            key_bytes,
                                            ..stream
                                        },
                                        KvIrNamespace::UserGenerated => StreamView {
                                            user: grown_tree,
                                            key_bytes,
                                            ..stream
                                        },
                                    },
                                ),
                                pending: Pending::Nothing,
                                ..view
                            },
                            ActionView::Done,
                        ),
                    ),
                }
            }
        },
    }
}

pub open spec fn stream_trees(stream: StreamView) -> Trees {
    Trees { auto: stream.auto, user: stream.user }
}

pub open spec fn with_event(view: SinkView, event: KvIrLogEvent<'_>) -> Result<
    (SinkView, ActionView),
    KvIrArchiveFailure,
> {
    let input_end = event.input_offset + event.unit_bytes;
    match view.stream {
        None => Err(invalid(KvIrArchiveInvalidData::ItemOutsideStream)),
        Some(stream) => if event.input_offset < view.accounted {
            Err(invalid(KvIrArchiveInvalidData::NonContiguousInput))
        } else if input_end > u64::MAX || view.stats.records == u64::MAX {
            Err(KvIrArchiveFailure::SizeOverflow)
        } else {
            match event_plan(
                view.options.limits,
                stream_trees(stream),
                event.pairs@,
                view.resolver,
            ) {
                Err(failure) => Err(failure),
                Ok(_) => Ok(
                    (
                        SinkView {
                            pending: Pending::Record {
                                place: place_of(KvIrItem::LogEvent(event)),
                                input_end: input_end as u64,
                                records: (view.stats.records + 1) as u64,
                            },
                            ..view
                        },
                        ActionView::AppendRecord { source_bytes: input_end - view.accounted },
                    ),
                ),
            }
        },
    }
}

pub open spec fn with_end(view: SinkView, end: KvIrStreamEnd) -> Result<
    (SinkView, ActionView),
    KvIrArchiveFailure,
> {
    let input_end = end.input_offset + end.unit_bytes;
    if view.stream is None {
        Err(invalid(KvIrArchiveInvalidData::ItemOutsideStream))
    } else if end.input_offset < view.accounted {
        Err(invalid(KvIrArchiveInvalidData::NonContiguousInput))
    } else if input_end > u64::MAX {
        Err(KvIrArchiveFailure::SizeOverflow)
    } else {
        let source_bytes = input_end - view.accounted;
        Ok(
            (
                SinkView {
                    pending: Pending::StreamEnd {
                        place: place_of(KvIrItem::StreamEnd(end)),
                        input_end: input_end as u64,
                    },
                    ..view
                },
                if view.source is Some {
                    ActionView::EndSource { source_bytes }
                } else {
                    ActionView::AddUncompressedBytes { source_bytes }
                },
            ),
        )
    }
}

/// The sink and the request after one item.
pub open spec fn with_item(view: SinkView, item: KvIrItem<'_>) -> Result<
    (SinkView, ActionView),
    KvIrArchiveFailure,
> {
    match item {
        KvIrItem::StreamStart(header) => with_start(view, header),
        KvIrItem::SchemaNode(node) => with_schema(view, node),
        KvIrItem::LogEvent(event) => with_event(view, event),
        KvIrItem::UtcOffsetChange(_) => if view.stream is Some {
            Ok((unsettled(view), ActionView::Done))
        } else {
            Err(invalid(KvIrArchiveInvalidData::ItemOutsideStream))
        },
        KvIrItem::StreamEnd(end) => with_end(view, end),
    }
}

/// The sink with nothing to settle.
pub open spec fn unsettled(view: SinkView) -> SinkView {
    SinkView { pending: Pending::Nothing, ..view }
}

/// Whether this memory can be refused to an item. What breaks the sequence of items, a counter, or
/// a limit of the schema is reported as itself, and the other items ask for nothing.
pub open spec fn is_item_request(
    view: SinkView,
    item: KvIrItem<'_>,
    failure: KvIrArchiveFailure,
) -> bool {
    match item {
        KvIrItem::StreamStart(header) => {
            &&& view.stream is None
            &&& header.input_offset == view.accounted
            &&& view.stats.streams < u64::MAX
            &&& failure == archive_refused(KvIrArchiveResource::SchemaNodes, 1)
        },
        KvIrItem::SchemaNode(node) => with_schema(view, node) is Ok && is_declaration_request(
            node,
            failure,
        ),
        KvIrItem::LogEvent(event) => {
            &&& event.input_offset >= view.accounted
            &&& event.input_offset + event.unit_bytes <= u64::MAX
            &&& view.stats.records < u64::MAX
            &&& view.stream matches Some(stream) && is_event_plan_request(
                view.options.limits,
                stream_trees(stream),
                event.pairs@,
                view.resolver is Some,
                failure,
            )
        },
        _ => false,
    }
}

/// What an item came to: a request, or a failure that changes nothing.
pub open spec fn converted(
    before: SinkView,
    item: KvIrItem<'_>,
    after: SinkView,
    result: Result<ArchiveAction, ConversionError>,
) -> bool {
    match result {
        Ok(action) => with_item(before, item) == Ok::<(SinkView, ActionView), KvIrArchiveFailure>(
            (after, action@),
        ) && (action matches ArchiveAction::OfferFields { fields } ==> is_ordered(fields@)),
        Err(error) => {
            &&& after == unsettled(before)
            &&& error.place == place_of(item)
            &&& is_item_request(before, item, error.failure) || with_item(before, item) == Err::<
                (SinkView, ActionView),
                KvIrArchiveFailure,
            >(error.failure)
        },
    }
}

/// The sink once its source has taken the fields of a stream.
pub open spec fn with_fields_taken(view: SinkView) -> SinkView {
    match view.pending {
        Pending::Fields { place, streams } => SinkView {
            pending: Pending::StreamStart { place, streams },
            ..view
        },
        _ => view,
    }
}

/// The sink once the archive set has answered: with success, or with a failure before or after it
/// committed the record.
pub open spec fn settled(view: SinkView, succeeded: bool, committed: bool) -> SinkView {
    match view.pending {
        Pending::Nothing | Pending::Fields { .. } => view,
        Pending::StreamStart { streams, .. } => if succeeded {
            started(view, streams)
        } else {
            unsettled(view)
        },
        Pending::Record { input_end, records, .. } => if succeeded || committed {
            SinkView {
                accounted: input_end,
                stats: KvIrArchiveStats { source_bytes: input_end, records, ..view.stats },
                pending: Pending::Nothing,
                ..view
            }
        } else {
            unsettled(view)
        },
        Pending::StreamEnd { input_end, .. } => if succeeded {
            SinkView {
                stream: None,
                accounted: input_end,
                stats: KvIrArchiveStats { source_bytes: input_end, ..view.stats },
                pending: Pending::Nothing,
                ..view
            }
        } else {
            unsettled(view)
        },
    }
}

/// Where the item to be settled stands.
pub open spec fn pending_place(pending: Pending) -> ItemPlace {
    match pending {
        Pending::Nothing => arbitrary(),
        Pending::Fields { place, .. } => place,
        Pending::StreamStart { place, .. } => place,
        Pending::Record { place, .. } => place,
        Pending::StreamEnd { place, .. } => place,
    }
}

/// A failed request to the archive set.
#[derive(Debug)]
pub struct ArchiveSetFailure<E> {
    pub source: E,
    pub record_committed: bool,
}

/// Returns the components that a namespace is matched against.
fn components_in(resolver: Option<&KvIrTimestampResolver>, namespace: KvIrNamespace) -> (components:
    Option<&[Vec<u8>]>)
    ensures
        path_view(components) == path_in(resolver_view(resolver), namespace),
{
    match resolver {
        None => None,
        Some(resolver) => match resolver.namespace() {
            None => None,
            Some(selected) => if selected == namespace {
                Some(resolver.path().components())
            } else {
                None
            },
        },
    }
}

/// Reusable sink that turns the items of decoded streams into requests to an archive set.
pub struct KvIrArchiveSetSink<A, C> {
    archive_set: A,
    source_context: Option<C>,
    records_log_order: bool,
    options: KvIrArchiveOptions,
    auto_schema: ArchiveTree,
    user_schema: ArchiveTree,
    schema_key_bytes: u64,
    planner: RecordPlanner,
    active_stream: bool,
    accounted_input_bytes: u64,
    stats: KvIrArchiveStats,
    pending: Pending,
    resolver: Ghost<Option<(PathView, Option<KvIrNamespace>)>>,
}

/// State of a fresh sink.
pub open spec fn fresh_sink(options: KvIrArchiveOptions, source: Option<bool>) -> SinkView {
    SinkView {
        options,
        source,
        stream: None,
        accounted: 0,
        stats: KvIrArchiveStats { streams: 0, records: 0, source_bytes: 0 },
        pending: Pending::Nothing,
        resolver: None,
    }
}

impl<A, C> View for KvIrArchiveSetSink<A, C> {
    type V = SinkView;

    closed spec fn view(&self) -> SinkView {
        SinkView {
            options: self.options,
            source: if self.source_context is Some {
                Some(self.records_log_order)
            } else {
                None
            },
            stream: if self.active_stream {
                Some(
                    StreamView {
                        auto: self.auto_schema@,
                        user: self.user_schema@,
                        key_bytes: self.schema_key_bytes as int,
                    },
                )
            } else {
                None
            },
            accounted: self.accounted_input_bytes,
            stats: self.stats,
            pending: self.pending,
            resolver: self.resolver@,
        }
    }
}

impl<A, C> KvIrArchiveSetSink<A, C> {
    /// The carried archive set.
    pub closed spec fn carried(&self) -> A {
        self.archive_set
    }

    /// The source that brackets each stream.
    pub closed spec fn source(&self) -> Option<C> {
        self.source_context
    }

    pub closed spec fn wf(&self) -> bool {
        &&& self.auto_schema.wf()
        &&& self.user_schema.wf()
        &&& self.active_stream || self.pending is Fields || self.pending is StreamStart ==> {
            &&& self.auto_schema@.len() > 0
            &&& self.user_schema@.len() > 0
            &&& self.auto_schema.path() == path_in(self.resolver@, KvIrNamespace::AutoGenerated)
            &&& self.user_schema.path() == path_in(self.resolver@, KvIrNamespace::UserGenerated)
        }
        &&& self.pending is Fields || self.pending is StreamStart ==> {
            &&& !self.active_stream
            &&& self.auto_schema@ == archive_root()
            &&& self.user_schema@ == archive_root()
        }
    }

    /// Whether the last plan is the one of an event with these pairs.
    pub closed spec fn is_planned(&self, pairs: Seq<KvIrPair<'_>>) -> bool {
        &&& self.active_stream
        &&& event_plan(
            self.options.limits,
            Trees { auto: self.auto_schema@, user: self.user_schema@ },
            pairs,
            self.resolver@,
        ) == Ok::<PlanState, KvIrArchiveFailure>(self.planner.plan_view())
        &&& is_plan_ok(
            self.planner.plan_view().plan,
            Trees { auto: self.auto_schema@, user: self.user_schema@ },
            pairs,
            self.planner.plan_view().text.len() as int,
            self.resolver@ is Some,
        )
    }

    fn new_inner(
        archive_set: A,
        options: KvIrArchiveOptions,
        source_context: Option<C>,
        records_log_order: bool,
    ) -> (sink: Self)
        ensures
            sink.wf(),
            sink@ == fresh_sink(
                options,
                if source_context is Some {
                    Some(records_log_order)
                } else {
                    None
                },
            ),
            sink.carried() == archive_set,
            sink.source() == source_context,
    {
        KvIrArchiveSetSink {
            archive_set,
            source_context,
            records_log_order,
            options,
            auto_schema: ArchiveTree::empty(),
            user_schema: ArchiveTree::empty(),
            schema_key_bytes: 0,
            planner: RecordPlanner::new(),
            active_stream: false,
            accounted_input_bytes: 0,
            stats: KvIrArchiveStats::default(),
            pending: Pending::Nothing,
            resolver: Ghost(None),
        }
    }

    /// Creates a bounded adapter over one archive set.
    pub fn new(archive_set: A, options: KvIrArchiveOptions) -> (sink: Self)
        ensures
            sink.wf(),
            sink@ == fresh_sink(options, None),
            sink.carried() == archive_set,
            sink.source() is None,
    {
        Self::new_inner(archive_set, options, None, false)
    }

    /// Creates an adapter that brackets each stream with a source. Where the archive set records
    /// the log order, the source carries the fields of the stream's user-defined metadata.
    pub fn for_source(
        archive_set: A,
        options: KvIrArchiveOptions,
        source: C,
        records_log_order: bool,
    ) -> (sink: Self)
        ensures
            sink.wf(),
            sink@ == fresh_sink(options, Some(records_log_order)),
            sink.carried() == archive_set,
            sink.source() == Some(source),
    {
        Self::new_inner(archive_set, options, Some(source), records_log_order)
    }

    fn configure_timestamp(&mut self, resolver: Option<&KvIrTimestampResolver>)
        requires
            old(self).wf(),
        ensures
            final(self).wf(),
            final(self)@ == (SinkView { resolver: resolver_view(resolver), ..old(self)@ }),
            final(self).carried() == old(self).carried(),
            final(self).source() == old(self).source(),
            final(self).auto_schema@ == old(self).auto_schema@,
            final(self).user_schema@ == old(self).user_schema@,
            final(self).auto_schema.path() == path_in(
                resolver_view(resolver),
                KvIrNamespace::AutoGenerated,
            ),
            final(self).user_schema.path() == path_in(
                resolver_view(resolver),
                KvIrNamespace::UserGenerated,
            ),
    {
        self.auto_schema.configure_timestamp(
            components_in(resolver, KvIrNamespace::AutoGenerated),
        );
        self.user_schema.configure_timestamp(
            components_in(resolver, KvIrNamespace::UserGenerated),
        );
        self.resolver = Ghost(resolver_view(resolver));
    }

    /// Makes the adapter recognise timestamps.
    pub fn with_timestamp_resolver<'r>(self, resolver: &'r KvIrTimestampResolver) -> (sink:
        TimestampedKvIrArchiveSetSink<'r, A, C>)
        requires
            self.wf(),
        ensures
            sink.wf(),
            sink@ == (SinkView { resolver: Some(resolver@), ..self@ }),
            sink.timestamp_resolver() == *resolver,
            sink.carried() == self.carried(),
            sink.source() == self.source(),
    {
        let mut inner = self;
        inner.configure_timestamp(Some(resolver));
        TimestampedKvIrArchiveSetSink { inner, resolver }
    }

    /// Returns the options.
    pub fn options(&self) -> (options: KvIrArchiveOptions)
        ensures
            options == self@.options,
    {
        self.options
    }

    /// Returns successfully committed counters.
    pub fn stats(&self) -> (stats: KvIrArchiveStats)
        ensures
            stats == self@.stats,
    {
        self.stats
    }

    /// Returns the source bytes already attributed to the archive set.
    pub fn accounted_input_bytes(&self) -> (bytes: u64)
        ensures
            bytes == self@.accounted,
    {
        self.accounted_input_bytes
    }

    /// Returns the archive set.
    pub fn archive_set(&self) -> (archive_set: &A)
        ensures
            *archive_set == self.carried(),
    {
        &self.archive_set
    }

    /// Returns the archive set for a change.
    pub fn archive_set_mut(&mut self) -> (archive_set: &mut A)
        ensures
            *archive_set == old(self).carried(),
            final(self).carried() == *final(archive_set),
            final(self)@ == old(self)@,
            final(self).source() == old(self).source(),
            old(self).wf() ==> final(self).wf(),
            forall|pairs: Seq<KvIrPair<'_>>| #[trigger]
                final(self).is_planned(pairs) == old(self).is_planned(pairs),
    {
        &mut self.archive_set
    }

    /// Returns the source that brackets each stream.
    pub fn source_context(&self) -> (source: Option<&C>)
        ensures
            match source {
                Some(source) => self.source() == Some(*source),
                None => self.source() is None,
            },
    {
        self.source_context.as_ref()
    }

    /// Gives the archive set back. A stream that is still open stays open in it.
    pub fn into_inner(self) -> (archive_set: A)
        ensures
            archive_set == self.carried(),
    {
        self.archive_set
    }

    fn start_stream(
        &mut self,
        header: KvIrStreamHeader<'_>,
        resolver: Option<&KvIrTimestampResolver>,
        place: ItemPlace,
    ) -> (result: Result<ArchiveAction, KvIrArchiveFailure>)
        requires
            old(self).wf(),
            old(self)@.pending is Nothing,
            old(self)@.resolver == resolver_view(resolver),
            place == place_of(KvIrItem::StreamStart(header)),
        ensures
            final(self).wf(),
            final(self).carried() == old(self).carried(),
            final(self).source() == old(self).source(),
            converted(
                old(self)@,
                KvIrItem::StreamStart(header),
                final(self)@,
                located(result, place),
            ),
    {
        if self.active_stream {
            return Err(KvIrArchiveFailure::Invalid(KvIrArchiveInvalidData::NestedStreamStart));
        }
        if header.input_offset != self.accounted_input_bytes {
            return Err(KvIrArchiveFailure::Invalid(KvIrArchiveInvalidData::NonContiguousInput));
        }
        if self.stats.streams == u64::MAX {
            return Err(KvIrArchiveFailure::SizeOverflow);
        }
        let streams = self.stats.streams + 1;
        self.auto_schema.reset()?;
        self.user_schema.reset()?;
        self.configure_timestamp(resolver);
        if self.source_context.is_some() {
            if self.records_log_order {
                let fields = user_defined_metadata(header.metadata)?;
                self.pending = Pending::Fields { place, streams };
                return Ok(ArchiveAction::OfferFields { fields });
            }
            self.pending = Pending::StreamStart { place, streams };
            return Ok(ArchiveAction::BeginSource);
        }
        self.schema_key_bytes = 0;
        self.active_stream = true;
        self.stats.streams = streams;
        Ok(ArchiveAction::Done)
    }

    fn insert_schema(
        &mut self,
        node: KvIrSchemaNode<'_>,
        resolver: Option<&KvIrTimestampResolver>,
    ) -> (result: Result<ArchiveAction, KvIrArchiveFailure>)
        requires
            old(self).wf(),
            old(self)@.pending is Nothing,
            old(self)@.resolver == resolver_view(resolver),
        ensures
            final(self).wf(),
            final(self).carried() == old(self).carried(),
            final(self).source() == old(self).source(),
            converted(
                old(self)@,
                KvIrItem::SchemaNode(node),
                final(self)@,
                located(result, place_of(KvIrItem::SchemaNode(node))),
            ),
    {
        if !self.active_stream {
            return Err(KvIrArchiveFailure::Invalid(KvIrArchiveInvalidData::ItemOutsideStream));
        }
        let limits = self.options.limits;
        let nodes = match node.namespace {
            KvIrNamespace::AutoGenerated => self.auto_schema.len(),
            KvIrNamespace::UserGenerated => self.user_schema.len(),
        } as u64;
        if nodes > limits.schema_nodes_per_namespace {
            return Err(
                report_archive_limit(
                    KvIrArchiveLimitResource::SchemaNodesPerNamespace,
                    nodes,
                    limits.schema_nodes_per_namespace,
                ),
            );
        }
        if node.depth > limits.nesting_depth {
            return Err(
                report_archive_limit(
                    KvIrArchiveLimitResource::NestingDepth,
                    node.depth,
                    limits.nesting_depth,
                ),
            );
        }
        let key_bytes = match self.schema_key_bytes.checked_add(node.key.len() as u64) {
            Some(key_bytes) => key_bytes,
            None => {
                return Err(KvIrArchiveFailure::SizeOverflow);
            },
        };
        if key_bytes > limits.schema_key_bytes {
            return Err(
                report_archive_limit(
                    KvIrArchiveLimitResource::SchemaKeyBytes,
                    key_bytes,
                    limits.schema_key_bytes,
                ),
            );
        }
        let components = components_in(resolver, node.namespace);
        match node.namespace {
            KvIrNamespace::AutoGenerated => {
                self.auto_schema.insert(node, components)?;
            },
            KvIrNamespace::UserGenerated => {
                self.user_schema.insert(node, components)?;
            },
        }
        self.schema_key_bytes = key_bytes;
        Ok(ArchiveAction::Done)
    }

    fn append_event(
        &mut self,
        event: KvIrLogEvent<'_>,
        resolver: Option<&KvIrTimestampResolver>,
        place: ItemPlace,
    ) -> (result: Result<ArchiveAction, KvIrArchiveFailure>)
        requires
            old(self).wf(),
            old(self)@.pending is Nothing,
            old(self)@.resolver == resolver_view(resolver),
            place == place_of(KvIrItem::LogEvent(event)),
        ensures
            final(self).wf(),
            final(self).carried() == old(self).carried(),
            final(self).source() == old(self).source(),
            result is Ok ==> final(self).is_planned(event.pairs@),
            converted(
                old(self)@,
                KvIrItem::LogEvent(event),
                final(self)@,
                located(result, place),
            ),
    {
        if !self.active_stream {
            return Err(KvIrArchiveFailure::Invalid(KvIrArchiveInvalidData::ItemOutsideStream));
        }
        if event.input_offset < self.accounted_input_bytes {
            return Err(KvIrArchiveFailure::Invalid(KvIrArchiveInvalidData::NonContiguousInput));
        }
        let input_end = match event.input_offset.checked_add(event.unit_bytes) {
            Some(input_end) => input_end,
            None => {
                return Err(KvIrArchiveFailure::SizeOverflow);
            },
        };
        let source_bytes = input_end - self.accounted_input_bytes;
        if self.stats.records == u64::MAX {
            return Err(KvIrArchiveFailure::SizeOverflow);
        }
        let records = self.stats.records + 1;
        let context = PlanContext {
            limits: self.options.limits,
            auto_tree: &self.auto_schema,
            user_tree: &self.user_schema,
            pairs: event.pairs,
            resolver,
        };
        self.planner.plan_event(&context)?;
        self.pending = Pending::Record { place, input_end, records };
        Ok(ArchiveAction::AppendRecord { source_bytes })
    }

    fn end_stream(&mut self, end: KvIrStreamEnd, place: ItemPlace) -> (result: Result<
        ArchiveAction,
        KvIrArchiveFailure,
    >)
        requires
            old(self).wf(),
            old(self)@.pending is Nothing,
            place == place_of(KvIrItem::StreamEnd(end)),
        ensures
            final(self).wf(),
            final(self).carried() == old(self).carried(),
            final(self).source() == old(self).source(),
            converted(
                old(self)@,
                KvIrItem::StreamEnd(end),
                final(self)@,
                located(result, place),
            ),
    {
        if !self.active_stream {
            return Err(KvIrArchiveFailure::Invalid(KvIrArchiveInvalidData::ItemOutsideStream));
        }
        if end.input_offset < self.accounted_input_bytes {
            return Err(KvIrArchiveFailure::Invalid(KvIrArchiveInvalidData::NonContiguousInput));
        }
        let input_end = match end.input_offset.checked_add(end.unit_bytes) {
            Some(input_end) => input_end,
            None => {
                return Err(KvIrArchiveFailure::SizeOverflow);
            },
        };
        let source_bytes = input_end - self.accounted_input_bytes;
        self.pending = Pending::StreamEnd { place, input_end };
        if self.source_context.is_some() {
            Ok(ArchiveAction::EndSource { source_bytes })
        } else {
            Ok(ArchiveAction::AddUncompressedBytes { source_bytes })
        }
    }

    fn write_item_with_resolver(
        &mut self,
        item: KvIrItem<'_>,
        resolver: Option<&KvIrTimestampResolver>,
    ) -> (result: Result<ArchiveAction, ConversionError>)
        requires
            old(self).wf(),
            old(self)@.resolver == resolver_view(resolver),
        ensures
            final(self).wf(),
            final(self).carried() == old(self).carried(),
            final(self).source() == old(self).source(),
            converted(old(self)@, item, final(self)@, result),
            item matches KvIrItem::LogEvent(event) ==> result is Ok ==> final(self).is_planned(
                event.pairs@,
            ),
    {
        self.pending = Pending::Nothing;
        let place = item_place(&item);
        let result = match item {
            KvIrItem::StreamStart(header) => self.start_stream(header, resolver, place),
            KvIrItem::SchemaNode(node) => self.insert_schema(node, resolver),
            KvIrItem::LogEvent(event) => self.append_event(event, resolver, place),
            KvIrItem::UtcOffsetChange(_) => if self.active_stream {
                Ok(ArchiveAction::Done)
            } else {
                Err(KvIrArchiveFailure::Invalid(KvIrArchiveInvalidData::ItemOutsideStream))
            },
            KvIrItem::StreamEnd(end) => self.end_stream(end, place),
        };
        match result {
            Ok(action) => Ok(action),
            Err(failure) => Err(ConversionError { place, failure }),
        }
    }

    /// Takes one item, and says what the archive set is to do.
    pub fn write_item(&mut self, item: KvIrItem<'_>) -> (result: Result<
        ArchiveAction,
        ConversionError,
    >)
        requires
            old(self).wf(),
            old(self)@.resolver is None,
        ensures
            final(self).wf(),
            final(self).carried() == old(self).carried(),
            final(self).source() == old(self).source(),
            converted(old(self)@, item, final(self)@, result),
            item matches KvIrItem::LogEvent(event) ==> result is Ok ==> final(self).is_planned(
                event.pairs@,
            ),
    {
        self.write_item_with_resolver(item, None)
    }

    fn record_with_resolver<'a>(
        &'a self,
        event: KvIrLogEvent<'a>,
        resolver: Option<&'a KvIrTimestampResolver>,
    ) -> (record: PlannedRecord<'a>)
        requires
            self.is_planned(event.pairs@),
            self@.resolver == resolver_view(resolver),
        ensures
            record.wf(),
            is_record_of(record, self@, event),
            record.resolver == resolver,
    {
        PlannedRecord {
            planner: &self.planner,
            auto_tree: &self.auto_schema,
            user_tree: &self.user_schema,
            pairs: event.pairs,
            resolver,
        }
    }

    /// Returns the record of the event that was just taken.
    pub fn record<'a>(&'a self, event: KvIrLogEvent<'a>) -> (record: PlannedRecord<'a>)
        requires
            self.is_planned(event.pairs@),
            self@.resolver is None,
        ensures
            record.wf(),
            is_record_of(record, self@, event),
    {
        self.record_with_resolver(event, None)
    }

    /// Takes the answer of the source to the fields that it was offered: none of them is rejected,
    /// or the one of this name is. A rejected field fails the stream before its source is begun, and
    /// leaves the sink as it was before the stream.
    pub fn settle_fields(&mut self, rejected: Option<String>) -> (result: Result<
        ArchiveAction,
        ConversionError,
    >)
        requires
            old(self).wf(),
            old(self)@.pending is Fields,
        ensures
            final(self).wf(),
            final(self).carried() == old(self).carried(),
            final(self).source() == old(self).source(),
            match rejected {
                None => {
                    &&& result matches Ok(action) && action@ == ActionView::BeginSource
                    &&& final(self)@ == with_fields_taken(old(self)@)
                },
                Some(name) => {
                    &&& final(self)@ == unsettled(old(self)@)
                    &&& result == Err::<ArchiveAction, ConversionError>(
                        ConversionError {
                            place: pending_place(old(self)@.pending),
                            failure: KvIrArchiveFailure::SourceContext(
                                ArchiveSourceContextError::ReservedField { name },
                            ),
                        },
                    )
                },
            },
    {
        let (place, streams) = match self.pending {
            Pending::Fields { place, streams } => (place, streams),
            _ => {
                return Ok(ArchiveAction::Done);
            },
        };
        match rejected {
            None => {
                self.pending = Pending::StreamStart { place, streams };
                Ok(ArchiveAction::BeginSource)
            },
            Some(name) => {
                self.pending = Pending::Nothing;
                Err(
                    ConversionError {
                        place,
                        failure: KvIrArchiveFailure::SourceContext(
                            ArchiveSourceContextError::ReservedField { name },
                        ),
                    },
                )
            },
        }
    }

    /// Takes what the archive set answered to the last request.
    pub fn settle<E>(&mut self, outcome: Result<(), ArchiveSetFailure<E>>) -> (result: Result<
        (),
        KvIrArchiveError<E>,
    >)
        requires
            old(self).wf(),
            !(old(self)@.pending is Nothing || old(self)@.pending is Fields),
        ensures
            final(self).wf(),
            final(self).carried() == old(self).carried(),
            final(self).source() == old(self).source(),
            final(self)@ == settled(
                old(self)@,
                outcome is Ok,
                outcome matches Err(failure) && failure.record_committed,
            ),
            settled_result(old(self)@.pending, outcome, result),
    {
        let pending = self.pending;
        self.pending = Pending::Nothing;
        let (succeeded, committed) = match &outcome {
            Ok(_) => (true, true),
            Err(failure) => (false, failure.record_committed),
        };
        let place = match pending {
            Pending::StreamStart { place, streams } => {
                if succeeded {
                    self.schema_key_bytes = 0;
                    self.active_stream = true;
                    self.stats.streams = streams;
                }
                place
            },
            Pending::Record { place, input_end, records } => {
                if committed {
                    self.accounted_input_bytes = input_end;
                    self.stats.source_bytes = input_end;
                    self.stats.records = records;
                }
                place
            },
            Pending::StreamEnd { place, input_end } => {
                if succeeded {
                    self.accounted_input_bytes = input_end;
                    self.stats.source_bytes = input_end;
                    self.active_stream = false;
                }
                place
            },
            Pending::Nothing | Pending::Fields { .. } => {
                return Ok(());
            },
        };
        match outcome {
            Ok(_) => Ok(()),
            Err(failure) => Err(
                KvIrArchiveError {
                    place,
                    kind: KvIrArchiveErrorKind::ArchiveSet {
                        source: failure.source,
                        record_committed: failure.record_committed,
                    },
                },
            ),
        }
    }
}

/// What a settled request is reported as.
pub open spec fn settled_result<E>(
    pending: Pending,
    outcome: Result<(), ArchiveSetFailure<E>>,
    result: Result<(), KvIrArchiveError<E>>,
) -> bool {
    match outcome {
        Ok(_) => result is Ok,
        Err(failure) => result == Err::<(), KvIrArchiveError<E>>(
            KvIrArchiveError {
                place: pending_place(pending),
                kind: KvIrArchiveErrorKind::ArchiveSet {
                    source: failure.source,
                    record_committed: failure.record_committed,
                },
            },
        ),
    }
}

/// Whether a record is the one that the sink planned for an event.
pub open spec fn is_record_of(
    record: PlannedRecord<'_>,
    view: SinkView,
    event: KvIrLogEvent<'_>,
) -> bool {
    &&& view.stream is Some
    &&& record.trees() == stream_trees(view.stream->0)
    &&& record.pairs@ == event.pairs@
    &&& resolver_view(record.resolver) == view.resolver
    &&& event_plan(view.options.limits, record.trees(), event.pairs@, view.resolver) == Ok::<
        PlanState,
        KvIrArchiveFailure,
    >(record.planner.plan_view())
}

/// The result with the place of its item.
pub open spec fn located(
    result: Result<ArchiveAction, KvIrArchiveFailure>,
    place: ItemPlace,
) -> Result<ArchiveAction, ConversionError> {
    match result {
        Ok(action) => Ok(action),
        Err(failure) => Err(ConversionError { place, failure }),
    }
}

/// Returns where an item stands.
fn item_place(item: &KvIrItem<'_>) -> (place: ItemPlace)
    ensures
        place == place_of(*item),
{
    match item {
        KvIrItem::StreamStart(header) => ItemPlace {
            stream_index: header.stream_index,
            unit_index: None,
            event_index: None,
            input_offset: header.input_offset,
        },
        KvIrItem::SchemaNode(node) => ItemPlace {
            stream_index: node.stream_index,
            unit_index: Some(node.unit_index),
            event_index: None,
            input_offset: node.input_offset,
        },
        KvIrItem::LogEvent(event) => ItemPlace {
            stream_index: event.stream_index,
            unit_index: Some(event.unit_index),
            event_index: Some(event.event_index),
            input_offset: event.input_offset,
        },
        KvIrItem::UtcOffsetChange(change) => ItemPlace {
            stream_index: change.stream_index,
            unit_index: Some(change.unit_index),
            event_index: None,
            input_offset: change.input_offset,
        },
        KvIrItem::StreamEnd(end) => ItemPlace {
            stream_index: end.stream_index,
            unit_index: Some(end.unit_index),
            event_index: None,
            input_offset: end.input_offset,
        },
    }
}

/// Sink that recognises timestamps.
pub struct TimestampedKvIrArchiveSetSink<'r, A, C> {
    inner: KvIrArchiveSetSink<A, C>,
    resolver: &'r KvIrTimestampResolver,
}

impl<'r, A, C> View for TimestampedKvIrArchiveSetSink<'r, A, C> {
    type V = SinkView;

    closed spec fn view(&self) -> SinkView {
        self.inner@
    }
}

impl<'r, A, C> TimestampedKvIrArchiveSetSink<'r, A, C> {
    pub closed spec fn wf(&self) -> bool {
        self.inner.wf() && self.inner@.resolver == Some(self.resolver@)
    }

    /// The carried archive set.
    pub closed spec fn carried(&self) -> A {
        self.inner.carried()
    }

    /// The source that brackets each stream.
    pub closed spec fn source(&self) -> Option<C> {
        self.inner.source()
    }

    /// The resolver that recognises timestamps.
    pub closed spec fn timestamp_resolver(&self) -> KvIrTimestampResolver {
        *self.resolver
    }

    /// Whether the last plan is the one of an event with these pairs.
    pub closed spec fn is_planned(&self, pairs: Seq<KvIrPair<'_>>) -> bool {
        self.inner.is_planned(pairs)
    }

    /// Returns the timestamp resolver.
    pub fn resolver(&self) -> (resolver: &'r KvIrTimestampResolver)
        ensures
            *resolver == self.timestamp_resolver(),
            self.wf() ==> self@.resolver == Some(resolver@),
    {
        self.resolver
    }

    /// Returns the options.
    pub fn options(&self) -> (options: KvIrArchiveOptions)
        ensures
            options == self@.options,
    {
        self.inner.options()
    }

    /// Returns successfully committed counters.
    pub fn stats(&self) -> (stats: KvIrArchiveStats)
        ensures
            stats == self@.stats,
    {
        self.inner.stats()
    }

    /// Returns the source bytes already attributed to the archive set.
    pub fn accounted_input_bytes(&self) -> (bytes: u64)
        ensures
            bytes == self@.accounted,
    {
        self.inner.accounted_input_bytes()
    }

    /// Returns the archive set.
    pub fn archive_set(&self) -> (archive_set: &A)
        ensures
            *archive_set == self.carried(),
    {
        self.inner.archive_set()
    }

    /// Returns the archive set for a change.
    pub fn archive_set_mut(&mut self) -> (archive_set: &mut A)
        ensures
            *archive_set == old(self).carried(),
            final(self).carried() == *final(archive_set),
            final(self)@ == old(self)@,
            final(self).source() == old(self).source(),
            final(self).timestamp_resolver() == old(self).timestamp_resolver(),
            old(self).wf() ==> final(self).wf(),
            forall|pairs: Seq<KvIrPair<'_>>| #[trigger]
                final(self).is_planned(pairs) == old(self).is_planned(pairs),
    {
        self.inner.archive_set_mut()
    }

    /// Returns the source that brackets each stream.
    pub fn source_context(&self) -> (source: Option<&C>)
        ensures
            match source {
                Some(source) => self.source() == Some(*source),
                None => self.source() is None,
            },
    {
        self.inner.source_context()
    }

    /// Stops the recognition of timestamps.
    pub fn without_timestamp_resolver(self) -> (sink: KvIrArchiveSetSink<A, C>)
        requires
            self.wf(),
        ensures
            sink.wf(),
            sink@ == (SinkView { resolver: None, ..self@ }),
            sink.carried() == self.carried(),
            sink.source() == self.source(),
    {
        let mut inner = self.inner;
        inner.configure_timestamp(None);
        inner
    }

    /// Gives the archive set back. A stream that is still open stays open in it.
    pub fn into_inner(self) -> (archive_set: A)
        ensures
            archive_set == self.carried(),
    {
        self.inner.into_inner()
    }

    /// Takes one item, and says what the archive set is to do.
    pub fn write_item(&mut self, item: KvIrItem<'_>) -> (result: Result<
        ArchiveAction,
        ConversionError,
    >)
        requires
            old(self).wf(),
        ensures
            final(self).wf(),
            final(self).carried() == old(self).carried(),
            final(self).source() == old(self).source(),
            final(self).timestamp_resolver() == old(self).timestamp_resolver(),
            converted(old(self)@, item, final(self)@, result),
            item matches KvIrItem::LogEvent(event) ==> result is Ok ==> final(self).is_planned(
                event.pairs@,
            ),
    {
        self.inner.write_item_with_resolver(item, Some(self.resolver))
    }

    /// Returns the record of the event that was just taken.
    pub fn record<'a>(&'a self, event: KvIrLogEvent<'a>) -> (record: PlannedRecord<'a>)
        requires
            self.wf(),
            self.is_planned(event.pairs@),
        ensures
            record.wf(),
            is_record_of(record, self@, event),
    {
        self.inner.record_with_resolver(event, Some(self.resolver))
    }

    /// Takes the answer of the source to the fields that it was offered: none of them is rejected,
    /// or the one of this name is. A rejected field fails the stream before its source is begun, and
    /// leaves the sink as it was before the stream.
    pub fn settle_fields(&mut self, rejected: Option<String>) -> (result: Result<
        ArchiveAction,
        ConversionError,
    >)
        requires
            old(self).wf(),
            old(self)@.pending is Fields,
        ensures
            final(self).wf(),
            final(self).carried() == old(self).carried(),
            final(self).source() == old(self).source(),
            final(self).timestamp_resolver() == old(self).timestamp_resolver(),
            match rejected {
                None => {
                    &&& result matches Ok(action) && action@ == ActionView::BeginSource
                    &&& final(self)@ == with_fields_taken(old(self)@)
                },
                Some(name) => {
                    &&& final(self)@ == unsettled(old(self)@)
                    &&& result == Err::<ArchiveAction, ConversionError>(
                        ConversionError {
                            place: pending_place(old(self)@.pending),
                            failure: KvIrArchiveFailure::SourceContext(
                                ArchiveSourceContextError::ReservedField { name },
                            ),
                        },
                    )
                },
            },
    {
        self.inner.settle_fields(rejected)
    }

    /// Takes what the archive set answered to the last request.
    pub fn settle<E>(&mut self, outcome: Result<(), ArchiveSetFailure<E>>) -> (result: Result<
        (),
        KvIrArchiveError<E>,
    >)
        requires
            old(self).wf(),
            !(old(self)@.pending is Nothing || old(self)@.pending is Fields),
        ensures
            final(self).wf(),
            final(self).carried() == old(self).carried(),
            final(self).source() == old(self).source(),
            final(self).timestamp_resolver() == old(self).timestamp_resolver(),
            final(self)@ == settled(
                old(self)@,
                outcome is Ok,
                outcome matches Err(failure) && failure.record_committed,
            ),
            settled_result(old(self)@.pending, outcome, result),
    {
        self.inner.settle(outcome)
    }
}

/// A sink that has settled everything has attributed to the archive set exactly the bytes that
/// its counters report, and it never takes an item that lies before them.
pub proof fn bytes_are_accounted_once(
    view: SinkView,
    item: KvIrItem<'_>,
    succeeded: bool,
    committed: bool,
)
    requires
        view.accounted == view.stats.source_bytes,
    ensures
        with_item(view, item) matches Ok((after, action)) ==> {
            let end = settled(after, succeeded, committed);
            &&& end.accounted == end.stats.source_bytes
            &&& view.accounted <= end.accounted
            &&& match action {
                ActionView::AppendRecord { source_bytes } => end.accounted == view.accounted
                    + if succeeded || committed {
                    source_bytes
                } else {
                    0
                },
                ActionView::EndSource { source_bytes } => end.accounted == view.accounted
                    + if succeeded {
                    source_bytes
                } else {
                    0
                },
                ActionView::AddUncompressedBytes { source_bytes } => end.accounted
                    == view.accounted + if succeeded {
                    source_bytes
                } else {
                    0
                },
                _ => end.accounted == view.accounted,
            }
        },
{
}

} // verus!
