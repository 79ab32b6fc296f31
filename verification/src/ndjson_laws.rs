//! What holds of a whole run over a stream of lines: neither its cut into chunks nor an invalid line
//! changes what comes of the other lines.

use vstd::prelude::*;

use crate::ndjson::{
    accepted_record, after_line, after_records, is_delivery, is_passed_over, lemma_line_end,
    lemma_line_end_is, lemma_outcome_progress, lemma_passed_over, line_completed, line_end,
    line_meaning, next_outcome, taken_line, unread, InvalidRecordPolicy, LineMeaning, LineOutcome,
    LineState, NdjsonLimits, NdjsonOptions, NdjsonRecordSink, NdjsonStats, RecordView, TakenLine,
};
use crate::text::LINE_FEED;

verus! {

/// What reading record after record comes to, each of them accepted: the records, and what ended
/// the run.
pub struct Run {
    pub records: Seq<RecordView>,
    pub last: LineOutcome,
}

/// The run from a state on.
pub open spec fn run(options: NdjsonOptions, state: LineState) -> Run
    decreases unread(state),
{
    match next_outcome(options, state) {
        LineOutcome::Record(record, after) => if unread(after) < unread(state)
            && after.stats.records < u64::MAX {
            let rest = run(options, accepted_record(after));
            Run { records: seq![record] + rest.records, last: rest.last }
        } else {
            Run { records: seq![record], last: LineOutcome::SizeOverflow }
        },
        outcome => Run { records: Seq::empty(), last: outcome },
    }
}

/// A state with more bytes behind those that wait.
pub open spec fn joined(state: LineState, second: Seq<u8>, ended: bool) -> LineState {
    LineState { pending: state.pending + second, ended, ..state }
}

/// A complete line is the same whatever follows it.
proof fn lemma_line_stays(state: LineState, second: Seq<u8>, ended: bool)
    requires
        line_end(state.pending, 0) < state.pending.len(),
    ensures
        taken_line(joined(state, second, ended)) == (match taken_line(state) {
            TakenLine::Line { line, input_offset, after } => TakenLine::Line {
                line,
                input_offset,
                after: joined(after, second, ended),
            },
            other => other,
        }),
{
    let whole = state.pending + second;
    let end = line_end(state.pending, 0);
    lemma_line_end(state.pending, 0);
    assert forall|i: int| 0 <= i < end implies #[trigger] whole[i] != LINE_FEED by {
        assert(whole[i] == state.pending[i]);
    }
    assert(whole[end] == state.pending[end]);
    lemma_line_end_is(whole, 0, end);
    assert(whole.take(end) =~= state.pending.take(end));
    assert(whole.skip(end + 1) =~= state.pending.skip(end + 1) + second);
}

/// Bytes that were consumed while waiting lead to the line that they lead to together with the
/// rest.
proof fn lemma_line_is_joined(state: LineState, second: Seq<u8>, ended: bool)
    requires
        !state.ended,
        state.line.len() <= state.stats.input_bytes,
        taken_line(state) is NeedInput,
    ensures
        taken_line(joined(taken_line(state)->NeedInput_0, second, ended)) == taken_line(
            joined(state, second, ended),
        ),
{
    let first = state.pending;
    let whole = first + second;
    let end = line_end(second, 0);
    lemma_line_end(first, 0);
    lemma_line_end(second, 0);
    assert(line_end(first, 0) == first.len());
    assert forall|i: int| 0 <= i < first.len() + end implies #[trigger] whole[i] != LINE_FEED by {
        if i < first.len() {
            assert(whole[i] == first[i]);
        } else {
            assert(whole[i] == second[i - first.len()]);
        }
    }
    if end < second.len() {
        assert(whole[first.len() + end] == second[end]);
    }
    lemma_line_end_is(whole, 0, first.len() + end);
    assert(first.take(first.len() as int) =~= first);
    let waiting = taken_line(state)->NeedInput_0;
    assert(waiting.pending + second =~= second);
    assert((state.line + first) + second.take(end) =~= state.line + whole.take(first.len() + end));
    if end < second.len() {
        assert(whole.skip(first.len() + end + 1) =~= second.skip(end + 1));
    }
}

/// What a read comes to when more bytes follow those that wait.
proof fn lemma_outcome_joined(
    options: NdjsonOptions,
    state: LineState,
    second: Seq<u8>,
    ended: bool,
)
    requires
        !state.ended,
        state.line.len() <= state.stats.input_bytes,
    ensures
        ({
            let whole = next_outcome(options, joined(state, second, ended));
            match next_outcome(options, state) {
                LineOutcome::Record(record, after) => {
                    &&& whole == LineOutcome::Record(record, joined(after, second, ended))
                    &&& !after.ended
                    &&& after.line.len() <= after.stats.input_bytes
                },
                LineOutcome::Invalid(invalid, after) => whole == LineOutcome::Invalid(
                    invalid,
                    joined(after, second, ended),
                ),
                LineOutcome::NeedInput(waiting) => {
                    &&& whole == next_outcome(options, joined(waiting, second, ended))
                    &&& !waiting.ended
                    &&& waiting.line.len() <= waiting.stats.input_bytes
                },
                LineOutcome::End(_) => false,
                LineOutcome::SizeOverflow => true,
            }
        }),
    decreases unread(state),
{
    let more = joined(state, second, ended);
    lemma_line_end(state.pending, 0);
    match taken_line(state) {
        TakenLine::Line { line, input_offset, after } => {
            lemma_line_stays(state, second, ended);
            let longer = joined(after, second, ended);
            assert(unread(after) < unread(state));
            assert(unread(longer) < unread(more));
            if is_passed_over(options, line, after) {
                let next = after_line(options, line, after);
                lemma_passed_over(options, line, input_offset, after);
                lemma_passed_over(options, line, input_offset, longer);
                assert(after_line(options, line, longer) == joined(next, second, ended));
                lemma_outcome_joined(options, next, second, ended);
            }
        },
        TakenLine::NeedInput(_) => {
            lemma_line_is_joined(state, second, ended);
            let waiting = taken_line(state)->NeedInput_0;
            lemma_same_line(options, joined(waiting, second, ended), more);
        },
        _ => {},
    }
}

/// A read depends on the next line and on how many bytes are left alone.
proof fn lemma_same_line(options: NdjsonOptions, first: LineState, second: LineState)
    requires
        taken_line(first) == taken_line(second),
        unread(first) == unread(second),
    ensures
        next_outcome(options, first) == next_outcome(options, second),
{
}

/// A run is cut where its bytes are: what waited, together with the bytes that come next, leads to
/// the records and the end that the bytes lead to when they come at once.
pub proof fn runs_are_joined(
    options: NdjsonOptions,
    state: LineState,
    second: Seq<u8>,
    ended: bool,
)
    requires
        !state.ended,
        state.line.len() <= state.stats.input_bytes,
    ensures
        run(options, state).last matches LineOutcome::NeedInput(waiting) ==> {
            let rest = run(options, joined(waiting, second, ended));
            let whole = run(options, joined(state, second, ended));
            &&& whole.records == run(options, state).records + rest.records
            &&& whole.last == rest.last
            &&& !waiting.ended
            &&& waiting.line.len() <= waiting.stats.input_bytes
        },
        run(options, state).last matches LineOutcome::Invalid(invalid, after) ==> {
            let whole = run(options, joined(state, second, ended));
            &&& whole.records == run(options, state).records
            &&& whole.last == LineOutcome::Invalid(invalid, joined(after, second, ended))
        },
        !(run(options, state).last is End),
        !(run(options, state).last is Record),
    decreases unread(state),
{
    lemma_outcome_joined(options, state, second, ended);
    lemma_outcome_progress(options, state);
    lemma_outcome_progress(options, joined(state, second, ended));
    let none = Seq::<RecordView>::empty();
    match next_outcome(options, state) {
        LineOutcome::Record(record, after) => {
            if after.stats.records < u64::MAX {
                let next = accepted_record(after);
                runs_are_joined(options, next, second, ended);
                assert(accepted_record(joined(after, second, ended)) == joined(
                    next,
                    second,
                    ended,
                ));
                let waiting = run(options, state).last->NeedInput_0;
                let rest = run(options, joined(waiting, second, ended)).records;
                assert((seq![record] + run(options, next).records) + rest =~= seq![record] + (run(
                    options,
                    next,
                ).records + rest));
            }
        },
        LineOutcome::NeedInput(waiting) => {
            lemma_outcome_progress(options, joined(waiting, second, ended));
            let rest = run(options, joined(waiting, second, ended)).records;
            assert(none + rest =~= rest);
        },
        _ => {},
    }
}

/// All bytes of some chunks.
pub open spec fn all_bytes(chunks: Seq<Seq<u8>>) -> Seq<u8>
    decreases chunks.len(),
{
    if chunks.len() == 0 {
        Seq::empty()
    } else {
        chunks[0] + all_bytes(chunks.drop_first())
    }
}

/// The run over a stream that comes in chunks, each read as far as it goes before the next one
/// comes, and then ends.
pub open spec fn chunk_run(options: NdjsonOptions, state: LineState, chunks: Seq<Seq<u8>>) -> Run
    decreases chunks.len(),
{
    if chunks.len() == 0 {
        run(options, LineState { ended: true, ..state })
    } else {
        let first = run(options, joined(state, chunks[0], false));
        match first.last {
            LineOutcome::NeedInput(waiting) => {
                let rest = chunk_run(options, waiting, chunks.drop_first());
                Run { records: first.records + rest.records, last: rest.last }
            },
            _ => first,
        }
    }
}

/// Whether two runs ended for the same reason.
pub open spec fn is_same_end(first: LineOutcome, second: LineOutcome) -> bool {
    match (first, second) {
        (LineOutcome::Invalid(left, _), LineOutcome::Invalid(right, _)) => left == right,
        _ => first == second,
    }
}

/// How a whole stream is cut into chunks does not matter: unless a counter runs over, the records
/// and the end of the run are those of the stream that comes at once.
pub proof fn streams_do_not_depend_on_chunks(
    options: NdjsonOptions,
    state: LineState,
    chunks: Seq<Seq<u8>>,
)
    requires
        !state.ended,
        state.line.len() <= state.stats.input_bytes,
        !(chunk_run(options, state, chunks).last is SizeOverflow),
    ensures
        ({
            let whole = run(options, joined(state, all_bytes(chunks), true));
            &&& chunk_run(options, state, chunks).records == whole.records
            &&& is_same_end(chunk_run(options, state, chunks).last, whole.last)
        }),
    decreases chunks.len(),
{
    let bytes = all_bytes(chunks);
    if chunks.len() == 0 {
        assert(state.pending + bytes =~= state.pending);
    } else {
        let rest_bytes = all_bytes(chunks.drop_first());
        let head = joined(state, chunks[0], false);
        let first = run(options, head);
        assert(joined(head, rest_bytes, true).pending =~= joined(state, bytes, true).pending);
        runs_are_joined(options, head, rest_bytes, true);
        match first.last {
            LineOutcome::NeedInput(waiting) => {
                streams_do_not_depend_on_chunks(options, waiting, chunks.drop_first());
            },
            _ => {},
        }
    }
}

/// Whether `sinks` are the states of one sink that was handed these records, in order, and accepted
/// each.
pub open spec fn are_handed<S: NdjsonRecordSink>(sinks: Seq<S>, records: Seq<RecordView>) -> bool {
    &&& sinks.len() == records.len() + 1
    &&& forall|i: int|
        0 <= i < records.len() ==> #[trigger] sinks[i].takes(records[i], &sinks[i + 1], Ok(()))
}

/// What is left of a run once some of its records were read is the run from there on.
proof fn lemma_run_after(options: NdjsonOptions, start: LineState, count: nat)
    ensures
        after_records(options, start, count) matches Some(state) ==> {
            let whole = run(options, start);
            let rest = run(options, state);
            &&& whole.records.len() == count + rest.records.len()
            &&& whole.records.skip(count as int) == rest.records
            &&& whole.last == rest.last
        },
    decreases count,
{
    let whole = run(options, start).records;
    if count == 0 {
        assert(whole.skip(0) =~= whole);
    } else {
        lemma_run_after(options, start, (count - 1) as nat);
        match after_records(options, start, (count - 1) as nat) {
            Some(before) => {
                lemma_outcome_progress(options, before);
                let rest = run(options, before).records;
                match after_records(options, start, count) {
                    Some(state) => {
                        let found = run(options, state).records;
                        assert(rest =~= seq![rest[0]] + found);
                        assert(whole.skip(count as int) =~= rest.skip(1));
                        assert(rest.skip(1) =~= found);
                    },
                    None => {},
                }
            },
            None => {},
        }
    }
}

/// A sink that a run was delivered to was handed the records of the run.
proof fn lemma_delivered<S: NdjsonRecordSink>(
    options: NdjsonOptions,
    start: LineState,
    sinks: Seq<S>,
)
    requires
        is_delivery(options, start, sinks),
        after_records(options, start, (sinks.len() - 1) as nat) is Some,
    ensures
        run(options, start).records.len() >= sinks.len() - 1,
        forall|i: int|
            0 <= i < sinks.len() - 1 ==> #[trigger] sinks[i].takes(
                run(options, start).records[i],
                &sinks[i + 1],
                Ok(()),
            ),
    decreases sinks.len(),
{
    let whole = run(options, start).records;
    lemma_run_after(options, start, (sinks.len() - 1) as nat);
    if sinks.len() > 1 {
        let shorter = sinks.drop_last();
        lemma_run_after(options, start, (sinks.len() - 2) as nat);
        lemma_delivered(options, start, shorter);
        let state = after_records(options, start, (sinks.len() - 2) as nat)->Some_0;
        lemma_outcome_progress(options, state);
        let rest = run(options, state).records;
        assert(rest[0] == whole.skip(sinks.len() - 2)[0]);
        assert forall|i: int| 0 <= i < sinks.len() - 1 implies #[trigger] sinks[i].takes(
            whole[i],
            &sinks[i + 1],
            Ok(()),
        ) by {
            if i < sinks.len() - 2 {
                assert(shorter[i].takes(whole[i], &shorter[i + 1], Ok(())));
            }
        }
    }
}

/// Reading to the end of what was supplied hands a sink the records of the run, and ends as the run
/// does.
pub proof fn deliveries_are_runs<S: NdjsonRecordSink>(
    options: NdjsonOptions,
    start: LineState,
    sinks: Seq<S>,
)
    requires
        is_delivery(options, start, sinks),
    ensures
        after_records(options, start, (sinks.len() - 1) as nat) matches Some(state)
            ==> !(next_outcome(options, state) is Record) ==> {
            &&& are_handed(sinks, run(options, start).records)
            &&& run(options, start).last == next_outcome(options, state)
        },
{
    match after_records(options, start, (sinks.len() - 1) as nat) {
        Some(state) => {
            if !(next_outcome(options, state) is Record) {
                lemma_run_after(options, start, (sinks.len() - 1) as nat);
                lemma_delivered(options, start, sinks);
            }
        },
        None => {},
    }
}

/// Whether `sinks` are the states of a sink while a reader is supplied with some chunks, one after
/// the other, each read to its end before the next one comes, until the input has ended or a read
/// has failed; `last` is what the last read came to.
pub open spec fn is_chunk_delivery<S: NdjsonRecordSink>(
    options: NdjsonOptions,
    state: LineState,
    chunks: Seq<Seq<u8>>,
    sinks: Seq<S>,
    last: LineOutcome,
) -> bool
    decreases chunks.len(),
{
    if chunks.len() == 0 {
        is_read_out(options, LineState { ended: true, ..state }, sinks, last)
    } else {
        let head = joined(state, chunks[0], false);
        ||| is_read_out(options, head, sinks, last) && !(last is NeedInput)
        ||| exists|cut: int, waiting: LineState|
            {
                &&& 0 <= cut < sinks.len()
                &&& #[trigger] is_read_out(
                    options,
                    head,
                    sinks.take(cut + 1),
                    LineOutcome::NeedInput(waiting),
                )
                &&& is_chunk_delivery(
                    options,
                    waiting,
                    chunks.drop_first(),
                    sinks.skip(cut),
                    last,
                )
            }
    }
}

/// Whether `sinks` are the states of a sink while records are read until a read comes to `last`,
/// which is no record.
pub open spec fn is_read_out<S: NdjsonRecordSink>(
    options: NdjsonOptions,
    start: LineState,
    sinks: Seq<S>,
    last: LineOutcome,
) -> bool {
    &&& is_delivery(options, start, sinks)
    &&& after_records(options, start, (sinks.len() - 1) as nat) matches Some(state)
        && next_outcome(options, state) == last
    &&& !(last is Record)
}

/// A sink that was handed some records and then others was handed all of them.
proof fn lemma_handed_on<S: NdjsonRecordSink>(
    sinks: Seq<S>,
    cut: int,
    first: Seq<RecordView>,
    rest: Seq<RecordView>,
)
    requires
        0 <= cut < sinks.len(),
        are_handed(sinks.take(cut + 1), first),
        are_handed(sinks.skip(cut), rest),
    ensures
        are_handed(sinks, first + rest),
{
    let front = sinks.take(cut + 1);
    let back = sinks.skip(cut);
    let records = first + rest;
    assert forall|i: int| 0 <= i < records.len() implies #[trigger] sinks[i].takes(
        records[i],
        &sinks[i + 1],
        Ok(()),
    ) by {
        if i < cut {
            assert(front[i].takes(first[i], &front[i + 1], Ok(())));
        } else {
            assert(back[i - cut].takes(rest[i - cut], &back[i - cut + 1], Ok(())));
        }
    }
}

#[verifier::rlimit(40)]
#[verifier::spinoff_prover]
proof fn lemma_chunks_are_run<S: NdjsonRecordSink>(
    options: NdjsonOptions,
    state: LineState,
    chunks: Seq<Seq<u8>>,
    sinks: Seq<S>,
    last: LineOutcome,
)
    requires
        is_chunk_delivery(options, state, chunks, sinks, last),
    ensures
        are_handed(sinks, chunk_run(options, state, chunks).records),
        chunk_run(options, state, chunks).last == last,
    decreases chunks.len(),
{
    if chunks.len() == 0 {
        deliveries_are_runs(options, LineState { ended: true, ..state }, sinks);
    } else {
        let head = joined(state, chunks[0], false);
        if is_read_out(options, head, sinks, last) && !(last is NeedInput) {
            deliveries_are_runs(options, head, sinks);
        } else {
            let (cut, waiting) = choose|cut: int, waiting: LineState|
                {
                    &&& 0 <= cut < sinks.len()
                    &&& #[trigger] is_read_out(
                        options,
                        head,
                        sinks.take(cut + 1),
                        LineOutcome::NeedInput(waiting),
                    )
                    &&& is_chunk_delivery(
                        options,
                        waiting,
                        chunks.drop_first(),
                        sinks.skip(cut),
                        last,
                    )
                };
            let front = sinks.take(cut + 1);
            let back = sinks.skip(cut);
            deliveries_are_runs(options, head, front);
            lemma_chunks_are_run(options, waiting, chunks.drop_first(), back, last);
            lemma_handed_on(
                sinks,
                cut,
                run(options, head).records,
                chunk_run(options, waiting, chunks.drop_first()).records,
            );
        }
    }
}

/// However a stream is cut into the chunks that a reader is supplied with, a sink is handed the
/// records of the stream that comes at once, and the last read comes to the same, unless a counter
/// runs over.
pub proof fn sinks_do_not_see_chunks<S: NdjsonRecordSink>(
    options: NdjsonOptions,
    state: LineState,
    chunks: Seq<Seq<u8>>,
    sinks: Seq<S>,
    last: LineOutcome,
)
    requires
        !state.ended,
        state.line.len() <= state.stats.input_bytes,
        is_chunk_delivery(options, state, chunks, sinks, last),
        !(last is SizeOverflow),
    ensures
        ({
            let whole = run(options, joined(state, all_bytes(chunks), true));
            &&& are_handed(sinks, whole.records)
            &&& is_same_end(last, whole.last)
        }),
{
    lemma_chunks_are_run(options, state, chunks, sinks, last);
    streams_do_not_depend_on_chunks(options, state, chunks);
}

/// The lines of a stream, without their line feeds. Nothing comes after the last line feed.
pub open spec fn stream_lines(bytes: Seq<u8>) -> Seq<Seq<u8>>
    decreases bytes.len(),
{
    let end = line_end(bytes, 0);
    if bytes.len() == 0 {
        Seq::empty()
    } else if 0 <= end < bytes.len() {
        seq![bytes.take(end)] + stream_lines(bytes.skip(end + 1))
    } else {
        seq![bytes]
    }
}

/// What comes of one line that is a stream of its own, when an invalid record stops the reader.
pub open spec fn alone(limits: NdjsonLimits, line: Seq<u8>) -> LineOutcome {
    next_outcome(
        NdjsonOptions { limits, invalid_records: InvalidRecordPolicy::Stop },
        fresh_stream(line),
    )
}

/// A stream that was not read yet.
pub open spec fn fresh_stream(bytes: Seq<u8>) -> LineState {
    LineState {
        line: Seq::empty(),
        pending: bytes,
        ended: true,
        stats: NdjsonStats {
            input_bytes: 0,
            physical_lines: 0,
            blank_lines: 0,
            skipped_invalid_records: 0,
            records: 0,
        },
    }
}

/// The lines that are records by themselves.
pub open spec fn record_lines(limits: NdjsonLimits, lines: Seq<Seq<u8>>) -> Seq<Seq<u8>>
    decreases lines.len(),
{
    if lines.len() == 0 {
        Seq::empty()
    } else if alone(limits, lines[0]) is Record {
        seq![lines[0]] + record_lines(limits, lines.drop_first())
    } else {
        record_lines(limits, lines.drop_first())
    }
}

/// How many lines are invalid by themselves.
pub open spec fn invalid_lines(limits: NdjsonLimits, lines: Seq<Seq<u8>>) -> nat
    decreases lines.len(),
{
    if lines.len() == 0 {
        0
    } else if alone(limits, lines[0]) is Invalid {
        1 + invalid_lines(limits, lines.drop_first())
    } else {
        invalid_lines(limits, lines.drop_first())
    }
}

/// How many lines hold nothing by themselves.
pub open spec fn empty_lines(limits: NdjsonLimits, lines: Seq<Seq<u8>>) -> nat
    decreases lines.len(),
{
    if lines.len() == 0 {
        0
    } else if alone(limits, lines[0]) is End {
        1 + empty_lines(limits, lines.drop_first())
    } else {
        empty_lines(limits, lines.drop_first())
    }
}

/// Whether a record is the one that its line is by itself.
pub open spec fn is_record_of_line(limits: NdjsonLimits, record: RecordView, line: Seq<u8>) -> bool {
    &&& record.line == line
    &&& alone(limits, line) matches LineOutcome::Record(by_itself, _) && record.json
        == by_itself.json && record.events == by_itself.events && record.decoded
        == by_itself.decoded
}

proof fn lemma_alone(limits: NdjsonLimits, line: Seq<u8>)
    requires
        line.len() <= u64::MAX,
        forall|i: int| 0 <= i < line.len() ==> #[trigger] line[i] != LINE_FEED,
    ensures
        match line_meaning(line, limits) {
            LineMeaning::Record { start, end, progress } => {
                &&& alone(limits, line) matches LineOutcome::Record(record, _) && record.json
                    == line.subrange(start, end) && record.events == progress.events
                    && record.decoded == progress.decoded
            },
            LineMeaning::Invalid(_) => alone(limits, line) is Invalid,
            LineMeaning::Blank => alone(limits, line) is End,
            LineMeaning::SizeOverflow => alone(limits, line) is SizeOverflow,
        },
{
    let options = NdjsonOptions { limits, invalid_records: InvalidRecordPolicy::Stop };
    let state = fresh_stream(line);
    lemma_line_end_is(line, 0, line.len() as int);
    assert(state.line + line.take(line.len() as int) =~= line);
    if line.len() == 0 {
        assert(crate::ndjson::trimmed(line) is None);
    } else {
        let after = taken_line(state)->after;
        assert(taken_line(state)->line =~= line);
        if is_passed_over(options, line, after) {
            lemma_passed_over(options, line, 0, after);
            let next = after_line(options, line, after);
            assert(next.pending =~= Seq::<u8>::empty());
            assert(line_end(next.pending, 0) == 0);
            assert(next.line + next.pending.take(0) =~= Seq::<u8>::empty());
            assert(taken_line(next) is End);
        }
    }
}

proof fn lemma_run_of_lines(options: NdjsonOptions, state: LineState)
    requires
        options.invalid_records == InvalidRecordPolicy::Skip,
        state.ended,
        state.line.len() == 0,
        state.stats.input_bytes + state.pending.len() <= u64::MAX,
        !(run(options, state).last is SizeOverflow),
    ensures
        ({
            let lines = stream_lines(state.pending);
            let kept = record_lines(options.limits, lines);
            let records = run(options, state).records;
            &&& records.len() == kept.len()
            &&& forall|i: int|
                0 <= i < kept.len() ==> is_record_of_line(
                    options.limits,
                    #[trigger] records[i],
                    kept[i],
                )
            &&& run(options, state).last matches LineOutcome::End(last) && last.stats.records
                == state.stats.records + kept.len() && last.stats.skipped_invalid_records
                == state.stats.skipped_invalid_records + invalid_lines(options.limits, lines)
                && last.stats.blank_lines == state.stats.blank_lines + empty_lines(
                options.limits,
                lines,
            )
        }),
    decreases unread(state),
{
    let lines = stream_lines(state.pending);
    let limits = options.limits;
    lemma_line_end(state.pending, 0);
    let end = line_end(state.pending, 0);
    assert(state.line + state.pending.take(end) =~= state.pending.take(end));
    if state.pending.len() > 0 {
        let line = taken_line(state)->line;
        let input_offset = taken_line(state)->input_offset;
        let after = taken_line(state)->after;
        assert(line =~= state.pending.take(end));
        assert(unread(after) < unread(state));
        assert forall|i: int| 0 <= i < line.len() implies #[trigger] line[i] != LINE_FEED by {
            assert(line[i] == state.pending[i]);
        }
        lemma_alone(limits, line);
        assert(lines[0] == line);
        if end < state.pending.len() {
            assert(lines.drop_first() =~= stream_lines(after.pending));
        } else {
            assert(stream_lines(after.pending) =~= Seq::<Seq<u8>>::empty());
            assert(lines.drop_first() =~= Seq::<Seq<u8>>::empty());
        }
        lemma_outcome_progress(options, state);
        let outcome = line_completed(options, line, input_offset, after);
        assert(next_outcome(options, state) == outcome);
        if is_passed_over(options, line, after) {
            let next = after_line(options, line, after);
            lemma_passed_over(options, line, input_offset, after);
            lemma_outcome_progress(options, next);
            assert(run(options, state) == run(options, next));
            lemma_run_of_lines(options, next);
        } else {
            match outcome {
                LineOutcome::Record(record, counted) => {
                    let next = accepted_record(counted);
                    lemma_run_of_lines(options, next);
                    let kept = record_lines(limits, lines);
                    let records = run(options, state).records;
                    assert forall|i: int| 0 <= i < kept.len() implies is_record_of_line(
                        limits,
                        #[trigger] records[i],
                        kept[i],
                    ) by {
                        if i > 0 {
                            assert(records[i] == run(options, next).records[i - 1]);
                            assert(kept[i] == record_lines(limits, lines.drop_first())[i - 1]);
                        }
                    }
                },
                _ => {},
            }
        }
    }
}

/// An invalid line never affects its neighbours: where invalid records are skipped and no counter
/// runs over, a stream gives exactly the records that its lines are by themselves, in order, and
/// counts each line that is invalid or holds nothing by itself.
pub proof fn invalid_lines_leave_their_neighbours(options: NdjsonOptions, bytes: Seq<u8>)
    requires
        options.invalid_records == InvalidRecordPolicy::Skip,
        bytes.len() <= u64::MAX,
        !(run(options, fresh_stream(bytes)).last is SizeOverflow),
    ensures
        ({
            let lines = stream_lines(bytes);
            let kept = record_lines(options.limits, lines);
            let records = run(options, fresh_stream(bytes)).records;
            &&& records.len() == kept.len()
            &&& forall|i: int|
                0 <= i < kept.len() ==> is_record_of_line(
                    options.limits,
                    #[trigger] records[i],
                    kept[i],
                )
            &&& run(options, fresh_stream(bytes)).last matches LineOutcome::End(last)
                && last.stats.records == kept.len() && last.stats.skipped_invalid_records
                == invalid_lines(options.limits, lines) && last.stats.blank_lines == empty_lines(
                options.limits,
                lines,
            )
        }),
{
    lemma_run_of_lines(options, fresh_stream(bytes));
}

} // verus!
