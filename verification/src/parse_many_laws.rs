//! What holds of a whole run over a stream of adjacent objects.

use vstd::prelude::*;

use crate::grammar::document;
use crate::ndjson_laws::all_bytes;
use crate::parse_many::{
    accepted_state, after_documents, after_separators, document_limits, documents_are_slices,
    framed, fresh_scan, is_at, is_delivery, is_state_ok, lemma_document_progress, lemma_framed_end,
    lemma_framed_goes_on, lemma_skip_space_goes_on, next_document_outcome, object_bytes,
    object_outcome, object_window, objects_do_not_depend_on_chunks, scan_step, with_consumed,
    DocumentView, Framing, ManyOutcome, ManyState, ObjectScanState, ParseManyDocumentSink,
    ParseManyOptions, ScanStep,
};
use crate::text::{is_json_space, lemma_skip_space, skip_space, LEFT_BRACE, RIGHT_BRACE};

verus! {

/// What reading document after document comes to, each of them accepted: the documents, and what
/// ended the run.
pub struct DocumentRun {
    pub documents: Seq<DocumentView>,
    pub last: ManyOutcome,
}

/// Bytes that no document was made of yet.
pub open spec fn unread_bytes(state: ManyState) -> nat {
    state.partial.len() + state.pending.len()
}

/// The run from a state on.
pub open spec fn document_run(options: ParseManyOptions, state: ManyState) -> DocumentRun
    decreases unread_bytes(state),
{
    match next_document_outcome(options, state) {
        ManyOutcome::Document(document, after) => if unread_bytes(after) < unread_bytes(state)
            && after.stats.documents < u64::MAX {
            let rest = document_run(options, accepted_state(after));
            DocumentRun { documents: seq![document] + rest.documents, last: rest.last }
        } else {
            DocumentRun { documents: seq![document], last: ManyOutcome::SizeOverflow }
        },
        outcome => DocumentRun { documents: Seq::empty(), last: outcome },
    }
}

/// A state with more bytes behind those that wait.
pub open spec fn followed(state: ManyState, second: Seq<u8>, ended: bool) -> ManyState {
    ManyState { pending: state.pending + second, ended, ..state }
}

/// Whether an input that goes on by `more` bytes can be read and counted to its end.
pub open spec fn is_countable(options: ParseManyOptions, state: ManyState, more: int) -> bool {
    &&& is_state_ok(options, state)
    &&& !state.ended
    &&& state.partial.len() <= state.stats.input_bytes
    &&& state.stats.separator_bytes <= state.stats.input_bytes
    &&& state.stats.input_bytes + state.pending.len() + more <= u64::MAX
}

/// What an object comes to when more bytes follow those that wait.
#[verifier::rlimit(40)]
#[verifier::spinoff_prover]
proof fn lemma_object_followed(
    options: ParseManyOptions,
    state: ManyState,
    second: Seq<u8>,
    ended: bool,
)
    requires
        is_countable(options, state, second.len() as int),
    ensures
        ({
            let whole = object_outcome(options, followed(state, second, ended));
            match object_outcome(options, state) {
                ManyOutcome::Document(document, after) => {
                    &&& whole == ManyOutcome::Document(document, followed(after, second, ended))
                    &&& is_countable(options, after, second.len() as int)
                },
                ManyOutcome::Invalid(invalid, after) => whole == ManyOutcome::Invalid(
                    invalid,
                    followed(after, second, ended),
                ),
                ManyOutcome::NeedInput(waiting) => is_countable(
                    options,
                    waiting,
                    second.len() as int,
                ),
                ManyOutcome::SizeOverflow => true,
                _ => false,
            }
        }),
{
    let more = followed(state, second, ended);
    let bytes = object_bytes(state);
    let longer = object_bytes(more);
    assert(longer =~= bytes + second);
    let window = object_window(options, bytes);
    let long_window = object_window(options, longer);
    assert(long_window.take(window.len() as int) =~= window);
    lemma_framed_goes_on(window, long_window, 0, fresh_scan());
    if state.partial.len() > 0 {
        assert(window.take(state.partial.len() as int) =~= state.partial);
        lemma_framed_goes_on(state.partial, window, 0, fresh_scan());
        let open = framed(state.partial, 0, fresh_scan())->Open_0;
        lemma_framed_end(window, state.partial.len() as int, open);
    } else {
        lemma_framed_end(window, 0, fresh_scan());
    }
    let limit = options.limits.document_bytes;
    let end = match framed(window, 0, fresh_scan()) {
        Framing::Complete(end) => end,
        Framing::Invalid { end, .. } => end,
        Framing::Open(_) => if bytes.len() > limit {
            limit + 1
        } else {
            bytes.len() as int
        },
    };
    let count = end - state.partial.len();
    assert(longer.take(end) =~= bytes.take(end));
    assert(more.pending.skip(count) =~= state.pending.skip(count) + second);
    assert(with_consumed(more, count) == followed(with_consumed(state, count), second, ended));
    if bytes.len() > limit {
        assert(long_window =~= window);
    }
}

/// What a read comes to when more bytes follow those that wait.
#[verifier::spinoff_prover]
proof fn lemma_document_followed(
    options: ParseManyOptions,
    state: ManyState,
    second: Seq<u8>,
    ended: bool,
)
    requires
        is_countable(options, state, second.len() as int),
    ensures
        ({
            let whole = next_document_outcome(options, followed(state, second, ended));
            match next_document_outcome(options, state) {
                ManyOutcome::Document(document, after) => {
                    &&& whole == ManyOutcome::Document(document, followed(after, second, ended))
                    &&& is_countable(options, after, second.len() as int)
                },
                ManyOutcome::Invalid(invalid, after) => whole == ManyOutcome::Invalid(
                    invalid,
                    followed(after, second, ended),
                ),
                ManyOutcome::NeedInput(waiting) => {
                    &&& whole == next_document_outcome(options, followed(waiting, second, ended))
                    &&& is_countable(options, waiting, second.len() as int)
                },
                ManyOutcome::SizeOverflow => true,
                ManyOutcome::Stopped => whole is Stopped,
                ManyOutcome::End(_) => false,
            }
        }),
{
    if state.stopped {
    } else if state.partial.len() > 0 {
        lemma_object_followed(options, state, second, ended);
    } else {
        let more = followed(state, second, ended);
        lemma_skip_space(state.pending, 0);
        lemma_skip_space_goes_on(state.pending, second, 0);
        let middle = after_separators(state);
        let count = skip_space(state.pending, 0);
        if count < state.pending.len() {
            assert(more.pending.skip(count) =~= state.pending.skip(count) + second);
            assert(after_separators(more) == followed(middle, second, ended));
            assert(followed(middle, second, ended).pending[0] == middle.pending[0]);
            assert(more.pending.skip(count).skip(0) =~= more.pending.skip(count));
            assert(middle.pending.skip(0) =~= middle.pending);
            lemma_object_followed(options, middle, second, ended);
        }
    }
    objects_do_not_depend_on_chunks(options, state, second, ended);
    match next_document_outcome(options, state) {
        ManyOutcome::NeedInput(waiting) => {
            assert(waiting.pending =~= Seq::<u8>::empty());
            assert(followed(waiting, second, ended) == (ManyState {
                pending: second,
                ended,
                ..waiting
            })) by {
                assert(waiting.pending + second =~= second);
            }
        },
        _ => {},
    }
}

/// A run is cut where its bytes are: what waited, together with the bytes that come next, leads to
/// the documents and the end that the bytes lead to when they come at once.
pub proof fn document_runs_are_joined(
    options: ParseManyOptions,
    state: ManyState,
    second: Seq<u8>,
    ended: bool,
)
    requires
        is_countable(options, state, second.len() as int),
    ensures
        ({
            let first = document_run(options, state);
            let whole = document_run(options, followed(state, second, ended));
            match first.last {
                ManyOutcome::NeedInput(waiting) => {
                    let rest = document_run(options, followed(waiting, second, ended));
                    &&& whole.documents == first.documents + rest.documents
                    &&& whole.last == rest.last
                    &&& is_countable(options, waiting, second.len() as int)
                },
                ManyOutcome::Invalid(invalid, after) => {
                    &&& whole.documents == first.documents
                    &&& whole.last == ManyOutcome::Invalid(invalid, followed(after, second, ended))
                },
                ManyOutcome::Stopped => whole == first,
                ManyOutcome::SizeOverflow => true,
                _ => false,
            }
        }),
    decreases unread_bytes(state),
{
    lemma_document_followed(options, state, second, ended);
    lemma_document_progress(options, state);
    let more = followed(state, second, ended);
    lemma_document_progress(options, more);
    match next_document_outcome(options, state) {
        ManyOutcome::Document(document, after) => {
            if after.stats.documents < u64::MAX {
                let next = accepted_state(after);
                document_runs_are_joined(options, next, second, ended);
                assert(accepted_state(followed(after, second, ended)) == followed(
                    next,
                    second,
                    ended,
                ));
                let found = document_run(options, next).documents;
                let waiting = document_run(options, state).last->NeedInput_0;
                let rest = document_run(options, followed(waiting, second, ended)).documents;
                assert((seq![document] + found) + rest =~= seq![document] + (found + rest));
            }
        },
        ManyOutcome::NeedInput(waiting) => {
            lemma_document_progress(options, followed(waiting, second, ended));
            let rest = document_run(options, followed(waiting, second, ended)).documents;
            assert(Seq::<DocumentView>::empty() + rest =~= rest);
        },
        _ => {},
    }
}

/// The run over a stream that comes in chunks, each read as far as it goes before the next one
/// comes, and then ends.
pub open spec fn chunked_documents(
    options: ParseManyOptions,
    state: ManyState,
    chunks: Seq<Seq<u8>>,
) -> DocumentRun
    decreases chunks.len(),
{
    if chunks.len() == 0 {
        document_run(options, ManyState { ended: true, ..state })
    } else {
        let first = document_run(options, followed(state, chunks[0], false));
        match first.last {
            ManyOutcome::NeedInput(waiting) => {
                let rest = chunked_documents(options, waiting, chunks.drop_first());
                DocumentRun { documents: first.documents + rest.documents, last: rest.last }
            },
            _ => first,
        }
    }
}

/// Whether two runs ended for the same reason.
pub open spec fn is_same_stop(first: ManyOutcome, second: ManyOutcome) -> bool {
    match (first, second) {
        (ManyOutcome::Invalid(left, _), ManyOutcome::Invalid(right, _)) => left == right,
        _ => first == second,
    }
}

/// How a whole stream is cut into chunks does not matter: unless a counter runs over, the documents
/// and the end of the run are those of the stream that comes at once.
pub proof fn documents_do_not_depend_on_chunks(
    options: ParseManyOptions,
    state: ManyState,
    chunks: Seq<Seq<u8>>,
)
    requires
        is_countable(options, state, all_bytes(chunks).len() as int),
        !(chunked_documents(options, state, chunks).last is SizeOverflow),
    ensures
        ({
            let parts = chunked_documents(options, state, chunks);
            let whole = document_run(options, followed(state, all_bytes(chunks), true));
            &&& parts.documents == whole.documents
            &&& is_same_stop(parts.last, whole.last)
        }),
    decreases chunks.len(),
{
    let bytes = all_bytes(chunks);
    if chunks.len() == 0 {
        assert(state.pending + bytes =~= state.pending);
    } else {
        let rest_bytes = all_bytes(chunks.drop_first());
        let head = followed(state, chunks[0], false);
        assert(followed(head, rest_bytes, true).pending =~= followed(state, bytes, true).pending);
        document_runs_are_joined(options, head, rest_bytes, true);
        match document_run(options, head).last {
            ManyOutcome::NeedInput(waiting) => {
                documents_do_not_depend_on_chunks(options, waiting, chunks.drop_first());
            },
            _ => {},
        }
    }
}

/// Whether `sinks` are the states of one sink that was handed these documents, in order, and accepted
/// each.
pub open spec fn are_handed<S: ParseManyDocumentSink>(sinks: Seq<S>, documents: Seq<DocumentView>) -> bool {
    &&& sinks.len() == documents.len() + 1
    &&& forall|i: int|
        0 <= i < documents.len() ==> #[trigger] sinks[i].takes(documents[i], &sinks[i + 1], Ok(()))
}

/// What is left of a run once some of its documents were read is the run from there on.
proof fn lemma_run_after(options: ParseManyOptions, start: ManyState, count: nat)
    requires
        is_state_ok(options, start),
    ensures
        after_documents(options, start, count) matches Some(state) ==> is_state_ok(options, state),
        after_documents(options, start, count) matches Some(state) ==> {
            let whole = document_run(options, start);
            let rest = document_run(options, state);
            &&& whole.documents.len() == count + rest.documents.len()
            &&& whole.documents.skip(count as int) == rest.documents
            &&& whole.last == rest.last
        },
    decreases count,
{
    let whole = document_run(options, start).documents;
    if count == 0 {
        assert(whole.skip(0) =~= whole);
    } else {
        lemma_run_after(options, start, (count - 1) as nat);
        match after_documents(options, start, (count - 1) as nat) {
            Some(before) => {
                lemma_document_progress(options, before);
                let rest = document_run(options, before).documents;
                match after_documents(options, start, count) {
                    Some(state) => {
                        let found = document_run(options, state).documents;
                        assert(rest =~= seq![rest[0]] + found);
                        assert(whole.skip(count as int) =~= rest.skip(1));
                        assert(rest.skip(1) =~= found);
                    },
                    None => {},
                }
            },
            None => {},
        }
    }
}

/// A sink that a run was delivered to was handed the documents of the run.
proof fn lemma_delivered<S: ParseManyDocumentSink>(
    options: ParseManyOptions,
    start: ManyState,
    sinks: Seq<S>,
)
    requires
        is_state_ok(options, start),
        is_delivery(options, start, sinks),
        after_documents(options, start, (sinks.len() - 1) as nat) is Some,
    ensures
        document_run(options, start).documents.len() >= sinks.len() - 1,
        forall|i: int|
            0 <= i < sinks.len() - 1 ==> #[trigger] sinks[i].takes(
                document_run(options, start).documents[i],
                &sinks[i + 1],
                Ok(()),
            ),
    decreases sinks.len(),
{
    let whole = document_run(options, start).documents;
    lemma_run_after(options, start, (sinks.len() - 1) as nat);
    if sinks.len() > 1 {
        let shorter = sinks.drop_last();
        lemma_run_after(options, start, (sinks.len() - 2) as nat);
        lemma_delivered(options, start, shorter);
        let state = after_documents(options, start, (sinks.len() - 2) as nat)->Some_0;
        lemma_document_progress(options, state);
        let rest = document_run(options, state).documents;
        assert(rest[0] == whole.skip(sinks.len() - 2)[0]);
        assert forall|i: int| 0 <= i < sinks.len() - 1 implies #[trigger] sinks[i].takes(
            whole[i],
            &sinks[i + 1],
            Ok(()),
        ) by {
            if i < sinks.len() - 2 {
                assert(shorter[i].takes(whole[i], &shorter[i + 1], Ok(())));
            }
        }
    }
}

/// Reading to the end of what was supplied hands a sink the documents of the run, and ends as the run
/// does.
pub proof fn deliveries_are_document_runs<S: ParseManyDocumentSink>(
    options: ParseManyOptions,
    start: ManyState,
    sinks: Seq<S>,
)
    requires
        is_state_ok(options, start),
        is_delivery(options, start, sinks),
    ensures
        after_documents(options, start, (sinks.len() - 1) as nat) matches Some(state)
            ==> !(next_document_outcome(options, state) is Document) ==> {
            &&& are_handed(sinks, document_run(options, start).documents)
            &&& document_run(options, start).last == next_document_outcome(options, state)
        },
{
    match after_documents(options, start, (sinks.len() - 1) as nat) {
        Some(state) => {
            if !(next_document_outcome(options, state) is Document) {
                lemma_run_after(options, start, (sinks.len() - 1) as nat);
                lemma_delivered(options, start, sinks);
            }
        },
        None => {},
    }
}

/// Whether `sinks` are the states of a sink while a reader is supplied with some chunks, one after
/// the other, each read to its end before the next one comes, until the input has ended or a read
/// has failed; `last` is what the last read came to.
pub open spec fn is_chunk_delivery<S: ParseManyDocumentSink>(
    options: ParseManyOptions,
    state: ManyState,
    chunks: Seq<Seq<u8>>,
    sinks: Seq<S>,
    last: ManyOutcome,
) -> bool
    decreases chunks.len(),
{
    if chunks.len() == 0 {
        is_read_out(options, ManyState { ended: true, ..state }, sinks, last)
    } else {
        let head = followed(state, chunks[0], false);
        ||| is_read_out(options, head, sinks, last) && !(last is NeedInput)
        ||| exists|cut: int, waiting: ManyState|
            {
                &&& 0 <= cut < sinks.len()
                &&& #[trigger] is_read_out(
                    options,
                    head,
                    sinks.take(cut + 1),
                    ManyOutcome::NeedInput(waiting),
                )
                &&& is_chunk_delivery(
                    options,
                    waiting,
                    chunks.drop_first(),
                    sinks.skip(cut),
                    last,
                )
            }
    }
}

/// Whether `sinks` are the states of a sink while documents are read until a read comes to `last`,
/// which is no document.
pub open spec fn is_read_out<S: ParseManyDocumentSink>(
    options: ParseManyOptions,
    start: ManyState,
    sinks: Seq<S>,
    last: ManyOutcome,
) -> bool {
    &&& is_delivery(options, start, sinks)
    &&& after_documents(options, start, (sinks.len() - 1) as nat) matches Some(state)
        && next_document_outcome(options, state) == last
    &&& !(last is Document)
}

/// A sink that was handed some documents and then others was handed all of them.
proof fn lemma_handed_on<S: ParseManyDocumentSink>(
    sinks: Seq<S>,
    cut: int,
    first: Seq<DocumentView>,
    rest: Seq<DocumentView>,
)
    requires
        0 <= cut < sinks.len(),
        are_handed(sinks.take(cut + 1), first),
        are_handed(sinks.skip(cut), rest),
    ensures
        are_handed(sinks, first + rest),
{
    let front = sinks.take(cut + 1);
    let back = sinks.skip(cut);
    let documents = first + rest;
    assert forall|i: int| 0 <= i < documents.len() implies #[trigger] sinks[i].takes(
        documents[i],
        &sinks[i + 1],
        Ok(()),
    ) by {
        if i < cut {
            assert(front[i].takes(first[i], &front[i + 1], Ok(())));
        } else {
            assert(back[i - cut].takes(rest[i - cut], &back[i - cut + 1], Ok(())));
        }
    }
}

#[verifier::rlimit(40)]
#[verifier::spinoff_prover]
proof fn lemma_chunks_are_run<S: ParseManyDocumentSink>(
    options: ParseManyOptions,
    state: ManyState,
    chunks: Seq<Seq<u8>>,
    sinks: Seq<S>,
    last: ManyOutcome,
)
    requires
        is_countable(options, state, all_bytes(chunks).len() as int),
        is_chunk_delivery(options, state, chunks, sinks, last),
    ensures
        are_handed(sinks, chunked_documents(options, state, chunks).documents),
        chunked_documents(options, state, chunks).last == last,
    decreases chunks.len(),
{
    if chunks.len() == 0 {
        deliveries_are_document_runs(options, ManyState { ended: true, ..state }, sinks);
    } else {
        let head = followed(state, chunks[0], false);
        if is_read_out(options, head, sinks, last) && !(last is NeedInput) {
            deliveries_are_document_runs(options, head, sinks);
        } else {
            let (cut, waiting) = choose|cut: int, waiting: ManyState|
                {
                    &&& 0 <= cut < sinks.len()
                    &&& #[trigger] is_read_out(
                        options,
                        head,
                        sinks.take(cut + 1),
                        ManyOutcome::NeedInput(waiting),
                    )
                    &&& is_chunk_delivery(
                        options,
                        waiting,
                        chunks.drop_first(),
                        sinks.skip(cut),
                        last,
                    )
                };
            let front = sinks.take(cut + 1);
            let back = sinks.skip(cut);
            deliveries_are_document_runs(options, head, front);
            document_runs_are_joined(options, head, all_bytes(chunks.drop_first()), false);
            lemma_chunks_are_run(options, waiting, chunks.drop_first(), back, last);
            lemma_handed_on(
                sinks,
                cut,
                document_run(options, head).documents,
                chunked_documents(options, waiting, chunks.drop_first()).documents,
            );
        }
    }
}

/// However a stream is cut into the chunks that a reader is supplied with, a sink is handed the
/// documents of the stream that comes at once, and the last read comes to the same, unless a counter
/// runs over.
pub proof fn document_sinks_do_not_see_chunks<S: ParseManyDocumentSink>(
    options: ParseManyOptions,
    state: ManyState,
    chunks: Seq<Seq<u8>>,
    sinks: Seq<S>,
    last: ManyOutcome,
)
    requires
        is_countable(options, state, all_bytes(chunks).len() as int),
        is_chunk_delivery(options, state, chunks, sinks, last),
        !(last is SizeOverflow),
    ensures
        ({
            let whole = document_run(options, followed(state, all_bytes(chunks), true));
            &&& are_handed(sinks, whole.documents)
            &&& is_same_stop(last, whole.last)
        }),
{
    lemma_chunks_are_run(options, state, chunks, sinks, last);
    documents_do_not_depend_on_chunks(options, state, chunks);
}

/// Whether documents are slices of a stream, each at its offset, with only whitespace before it back
/// to the one before, which ends at `from`.
pub open spec fn are_slices(
    options: ParseManyOptions,
    stream: Seq<u8>,
    from: int,
    documents: Seq<DocumentView>,
) -> bool
    decreases documents.len(),
{
    documents.len() > 0 ==> {
        let found = documents[0];
        let start = found.input_offset as int;
        let end = start + found.json.len();
        &&& from <= start < end <= stream.len()
        &&& forall|i: int| from <= i < start ==> is_json_space(#[trigger] stream[i])
        &&& found.json == stream.subrange(start, end)
        &&& is_object_text(options, found)
        &&& are_slices(options, stream, end, documents.drop_first())
    }
}

/// Whether a document is one JSON object, within its braces and within the limits, that was parsed
/// as a whole.
pub open spec fn is_object_text(options: ParseManyOptions, found: DocumentView) -> bool {
    &&& found.json.len() <= options.limits.document_bytes
    &&& found.json[0] == LEFT_BRACE
    &&& found.json.last() == RIGHT_BRACE
    &&& document(found.json, document_limits(options.limits)) matches Ok(progress)
        && found.decoded == progress.decoded && found.events == progress.events
}

/// The byte that completes an object closes it.
proof fn lemma_framed_closes(source: Seq<u8>, at: int, state: ObjectScanState)
    requires
        0 <= at <= source.len(),
    ensures
        framed(source, at, state) matches Framing::Complete(end) ==> at < end <= source.len()
            && source[end - 1] == RIGHT_BRACE,
    decreases source.len() - at,
{
    if at < source.len() {
        match scan_step(source[at], at, state) {
            ScanStep::Next(next) => {
                lemma_framed_closes(source, at + 1, next);
            },
            _ => {},
        }
    }
}

/// A document that is read between two others is one JSON object.
#[verifier::spinoff_prover]
proof fn lemma_object_text(options: ParseManyOptions, state: ManyState)
    requires
        state.partial.len() == 0,
    ensures
        next_document_outcome(options, state) matches ManyOutcome::Document(found, _)
            ==> found.json.len() > 0 && is_object_text(options, found),
{
    lemma_skip_space(state.pending, 0);
    let begun = after_separators(state);
    let window = object_window(options, begun.pending);
    assert(object_bytes(begun) =~= begun.pending);
    lemma_framed_closes(window, 0, fresh_scan());
    match next_document_outcome(options, state) {
        ManyOutcome::Document(found, _) => {
            let end = framed(window, 0, fresh_scan())->Complete_0;
            assert(found.json == begun.pending.take(end));
            assert(found.json[0] == begun.pending[0]);
            assert(found.json[end - 1] == window[end - 1]);
        },
        _ => {},
    }
}

/// The documents of a stream are the slices of it at their offsets, each one JSON object, with only
/// whitespace between them and before the first.
#[verifier::rlimit(40)]
#[verifier::spinoff_prover]
pub proof fn streams_are_sliced(options: ParseManyOptions, stream: Seq<u8>, state: ManyState)
    requires
        state.partial.len() == 0,
        is_at(stream, state),
    ensures
        are_slices(
            options,
            stream,
            state.stats.input_bytes as int,
            document_run(options, state).documents,
        ),
    decreases unread_bytes(state),
{
    documents_are_slices(options, stream, state);
    lemma_document_progress(options, state);
    lemma_object_text(options, state);
    let outcome = next_document_outcome(options, state);
    match outcome {
        ManyOutcome::Document(found, after) => {
            let documents = document_run(options, state).documents;
            let start = found.input_offset as int;
            let end = start + found.json.len();
            assert(documents[0] == found);
            assert(end == after.stats.input_bytes);
            assert(end <= stream.len());
            if after.stats.documents < u64::MAX {
                let next = accepted_state(after);
                assert(is_at(stream, next));
                streams_are_sliced(options, stream, next);
                assert(documents.drop_first() =~= document_run(options, next).documents);
            } else {
                assert(documents.drop_first() =~= Seq::<DocumentView>::empty());
            }
            assert(are_slices(options, stream, end, documents.drop_first()));
        },
        _ => {},
    }
}

} // verus!
