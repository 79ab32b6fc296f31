//! An object that a parser reads from the front of some bytes is the one that a scan frames there.

use vstd::prelude::*;

use crate::grammar::{
    array_element, array_rest, array_start, document, document_prefix, escaped_scalar,
    false_literal, fresh_progress, has_backslash, lemma_next_backslash, literal_value,
    next_backslash, null_literal, object_colon, object_key, object_member, object_rest,
    object_start, object_value, string_end, string_token, true_literal, unescaped, unicode_quad,
    value, value_head, Head, Progress,
};
use crate::ndjson::NdjsonLimits;
use crate::number::{exponent_token, fraction_token, number_token};
use crate::parse_many::{framed, fresh_scan, Framing, ObjectScanState};
use crate::parser::{lemma_value_progress, ParseFailure, StoredEvent};
use crate::text::{
    byte_at, digit_at, hex_quad, is_json_space, lemma_skip_digits, lemma_skip_space, skip_digits,
    skip_space, BACKSLASH, LEFT_BRACE, QUOTE, RIGHT_BRACE,
};

verus! {

/// Outside strings, inside `depth` objects.
spec fn outside(depth: u64) -> ObjectScanState {
    ObjectScanState { object_depth: depth, in_string: false, escaped: false }
}

/// Inside a string.
spec fn inside(depth: u64) -> ObjectScanState {
    ObjectScanState { object_depth: depth, in_string: true, escaped: false }
}

/// The scan after an object was closed, inside `depth` others.
spec fn after_closed(source: Seq<u8>, at: int, depth: u64) -> Framing {
    if depth == 0 {
        Framing::Complete(at)
    } else {
        framed(source, at, outside(depth))
    }
}

/// Whether a byte means nothing to a scan outside strings.
spec fn is_plain(byte: u8) -> bool {
    byte != QUOTE && byte != LEFT_BRACE && byte != RIGHT_BRACE
}

/// Whether a byte means nothing to a scan inside a string.
spec fn is_content(byte: u8) -> bool {
    byte != QUOTE && byte != BACKSLASH && byte >= 0x20
}

proof fn lemma_scan_plain(source: Seq<u8>, at: int, to: int, depth: u64)
    requires
        0 <= at <= to <= source.len(),
        forall|i: int| at <= i < to ==> is_plain(#[trigger] source[i]),
    ensures
        framed(source, at, outside(depth)) == framed(source, to, outside(depth)),
    decreases to - at,
{
    if at < to {
        assert(is_plain(source[at]));
        lemma_scan_plain(source, at + 1, to, depth);
    }
}

proof fn lemma_scan_content(source: Seq<u8>, at: int, to: int, depth: u64)
    requires
        0 <= at <= to <= source.len(),
        forall|i: int| at <= i < to ==> is_content(#[trigger] source[i]),
    ensures
        framed(source, at, inside(depth)) == framed(source, to, inside(depth)),
    decreases to - at,
{
    if at < to {
        assert(is_content(source[at]));
        lemma_scan_content(source, at + 1, to, depth);
    }
}

proof fn lemma_scan_space(source: Seq<u8>, at: int, depth: u64)
    requires
        0 <= at <= source.len(),
    ensures
        at <= skip_space(source, at) <= source.len(),
        framed(source, at, outside(depth)) == framed(
            source,
            skip_space(source, at),
            outside(depth),
        ),
{
    lemma_skip_space(source, at);
    lemma_scan_plain(source, at, skip_space(source, at), depth);
}

/// Whether some bytes start with others.
spec fn is_cut(cut: Seq<u8>, source: Seq<u8>) -> bool {
    cut.len() <= source.len() && forall|i: int|
        0 <= i < cut.len() ==> #[trigger] cut[i] == source[i]
}

proof fn lemma_cut_subrange(cut: Seq<u8>, source: Seq<u8>, start: int, end: int)
    requires
        is_cut(cut, source),
        0 <= start <= end <= cut.len(),
    ensures
        cut.subrange(start, end) == source.subrange(start, end),
{
    assert(cut.subrange(start, end) =~= source.subrange(start, end));
}

proof fn lemma_cut_space(cut: Seq<u8>, source: Seq<u8>, at: int)
    requires
        is_cut(cut, source),
        0 <= at,
        skip_space(source, at) < cut.len(),
    ensures
        skip_space(cut, at) == skip_space(source, at),
    decreases cut.len() - at,
{
    if at < source.len() {
        lemma_skip_space(source, at);
        assert(cut[at] == source[at]);
        if is_json_space(source[at]) {
            lemma_cut_space(cut, source, at + 1);
        }
    }
}

proof fn lemma_cut_digits(cut: Seq<u8>, source: Seq<u8>, at: int)
    requires
        is_cut(cut, source),
        0 <= at <= source.len(),
        skip_digits(source, at) <= cut.len(),
    ensures
        skip_digits(cut, at) == skip_digits(source, at),
    decreases cut.len() - at,
{
    lemma_skip_digits(source, at);
    if digit_at(source, at) {
        assert(cut[at] == source[at]);
        lemma_cut_digits(cut, source, at + 1);
    }
}

proof fn lemma_cut_exponent(
    cut: Seq<u8>,
    source: Seq<u8>,
    start: int,
    at: int,
    dot: Option<int>,
)
    requires
        is_cut(cut, source),
        0 <= at <= source.len(),
        exponent_token(source, start, at, dot) matches Ok((end, _)) && end <= cut.len(),
    ensures
        exponent_token(cut, start, at, dot) == exponent_token(source, start, at, dot),
        ({
            let end = (exponent_token(source, start, at, dot)->Ok_0).0;
            at <= end && forall|i: int| at <= i < end ==> is_plain(#[trigger] source[i])
        }),
{
    if byte_at(source, at, 0x65) || byte_at(source, at, 0x45) {
        let digits = if byte_at(source, at + 1, 0x2b) || byte_at(source, at + 1, 0x2d) {
            at + 2
        } else {
            at + 1
        };
        lemma_skip_digits(source, digits);
        lemma_cut_digits(cut, source, digits);
        assert(cut[at] == source[at]);
        assert(cut[at + 1] == source[at + 1]);
        assert(cut[digits] == source[digits]);
    }
}

proof fn lemma_cut_fraction(cut: Seq<u8>, source: Seq<u8>, start: int, at: int)
    requires
        is_cut(cut, source),
        0 <= at <= source.len(),
        fraction_token(source, start, at) matches Ok((end, _)) && end <= cut.len(),
    ensures
        fraction_token(cut, start, at) == fraction_token(source, start, at),
        ({
            let end = (fraction_token(source, start, at)->Ok_0).0;
            at <= end && forall|i: int| at <= i < end ==> is_plain(#[trigger] source[i])
        }),
{
    if byte_at(source, at, 0x2e) {
        let digits = skip_digits(source, at + 1);
        lemma_skip_digits(source, at + 1);
        lemma_cut_exponent(cut, source, start, digits, Some(at - start));
        lemma_cut_digits(cut, source, at + 1);
        assert(cut[at] == source[at]);
        assert(cut[at + 1] == source[at + 1]);
    } else {
        lemma_cut_exponent(cut, source, start, at, None);
    }
}

proof fn lemma_cut_number(cut: Seq<u8>, source: Seq<u8>, start: int)
    requires
        is_cut(cut, source),
        0 <= start <= source.len(),
        number_token(source, start) matches Ok((end, _)) && end <= cut.len(),
    ensures
        number_token(cut, start) == number_token(source, start),
        ({
            let end = (number_token(source, start)->Ok_0).0;
            start < end && forall|i: int| start <= i < end ==> is_plain(#[trigger] source[i])
        }),
{
    let first = if byte_at(source, start, 0x2d) {
        start + 1
    } else {
        start
    };
    lemma_skip_digits(source, first);
    if byte_at(source, first, 0x30) {
        lemma_cut_fraction(cut, source, start, first + 1);
    } else {
        lemma_cut_fraction(cut, source, start, skip_digits(source, first));
        lemma_cut_digits(cut, source, first);
    }
    assert(cut[start] == source[start]);
    assert(cut[first] == source[first]);
}

proof fn lemma_string_end_moves(source: Seq<u8>, at: int)
    requires
        0 <= at,
    ensures
        string_end(source, at) matches Ok(end) ==> at < end <= source.len(),
    decreases source.len() - at + 1,
{
    if at < source.len() && source[at] != QUOTE {
        if source[at] == BACKSLASH {
            lemma_string_end_moves(source, at + 2);
        } else if source[at] >= 0x20 {
            lemma_string_end_moves(source, at + 1);
        }
    }
}

proof fn lemma_cut_string_end(cut: Seq<u8>, source: Seq<u8>, at: int)
    requires
        is_cut(cut, source),
        0 <= at,
        string_end(source, at) matches Ok(end) && end <= cut.len(),
    ensures
        string_end(cut, at) == string_end(source, at),
    decreases source.len() - at + 1,
{
    lemma_string_end_moves(source, at);
    assert(cut[at] == source[at]);
    if source[at] != QUOTE {
        if source[at] == BACKSLASH {
            lemma_cut_string_end(cut, source, at + 2);
        } else {
            lemma_cut_string_end(cut, source, at + 1);
        }
    }
}

proof fn lemma_cut_backslash(cut: Seq<u8>, source: Seq<u8>, at: int, end: int)
    requires
        is_cut(cut, source),
        0 <= at,
        end <= cut.len(),
    ensures
        next_backslash(cut, at, end) == next_backslash(source, at, end),
    decreases end - at,
{
    if at < end {
        assert(cut[at] == source[at]);
        lemma_cut_backslash(cut, source, at + 1, end);
    }
}

proof fn lemma_cut_scalar(cut: Seq<u8>, source: Seq<u8>, at: int, end: int)
    requires
        is_cut(cut, source),
        0 <= at < end < cut.len(),
    ensures
        escaped_scalar(cut, at, end) == escaped_scalar(source, at, end),
{
    assert(cut[at + 1] == source[at + 1]);
    if at + 6 <= end {
        assert(cut[at + 2] == source[at + 2]);
        assert(cut[at + 3] == source[at + 3]);
        assert(cut[at + 4] == source[at + 4]);
        assert(cut[at + 5] == source[at + 5]);
    }
    if at + 12 <= end {
        assert(cut[at + 6] == source[at + 6]);
        assert(cut[at + 7] == source[at + 7]);
        assert(cut[at + 8] == source[at + 8]);
        assert(cut[at + 9] == source[at + 9]);
        assert(cut[at + 10] == source[at + 10]);
        assert(cut[at + 11] == source[at + 11]);
    }
}

/// Within a closed string, a run without backslashes is content.
proof fn lemma_run_is_content(source: Seq<u8>, at: int, to: int, end: int)
    requires
        0 <= at <= to <= end < source.len(),
        string_end(source, at) == Ok::<int, ParseFailure>(end + 1),
        forall|i: int| at <= i < to ==> #[trigger] source[i] != BACKSLASH,
    ensures
        string_end(source, to) == Ok::<int, ParseFailure>(end + 1),
        forall|i: int| at <= i < to ==> is_content(#[trigger] source[i]),
    decreases to - at,
{
    if at < to {
        assert(source[at] != BACKSLASH);
        assert(is_content(source[at]));
        lemma_run_is_content(source, at + 1, to, end);
    }
}

/// Four hexadecimal digits are content.
proof fn lemma_quad_is_content(source: Seq<u8>, at: int, end: int, error_offset: int)
    requires
        0 <= at,
        unicode_quad(source, at, end, error_offset) is Ok,
    ensures
        at + 4 <= end,
        forall|i: int| at <= i < at + 4 ==> #[trigger] source[i] != BACKSLASH,
{
    assert(hex_quad(source, at) is Some);
    assert forall|i: int| at <= i < at + 4 implies #[trigger] source[i] != BACKSLASH by {
        assert(i == at || i == at + 1 || i == at + 2 || i == at + 3);
        assert(crate::text::hex_value(source[i]) is Some);
    }
}

/// A scan passes an escape.
proof fn lemma_scan_escape(source: Seq<u8>, at: int, end: int, depth: u64)
    requires
        0 <= at < end < source.len(),
        string_end(source, at) == Ok::<int, ParseFailure>(end + 1),
        source[at] == BACKSLASH,
        escaped_scalar(source, at, end) is Ok,
    ensures
        ({
            let next = (escaped_scalar(source, at, end)->Ok_0).0;
            &&& at < next <= end
            &&& string_end(source, next) == Ok::<int, ParseFailure>(end + 1)
            &&& framed(source, at, inside(depth)) == framed(source, next, inside(depth))
        }),
{
    lemma_string_end_moves(source, at + 2);
    let marked = ObjectScanState { object_depth: depth, in_string: true, escaped: true };
    assert(framed(source, at, inside(depth)) == framed(source, at + 1, marked));
    assert(source[at + 1] >= 0x20);
    assert(framed(source, at + 1, marked) == framed(source, at + 2, inside(depth)));
    if source[at + 1] == 0x75 {
        lemma_quad_is_content(source, at + 2, end, at);
        lemma_run_is_content(source, at + 2, at + 6, end);
        lemma_scan_content(source, at + 2, at + 6, depth);
        let next = (escaped_scalar(source, at, end)->Ok_0).0;
        if next != at + 6 {
            assert(source[at + 6] == BACKSLASH && source[at + 7] == 0x75);
            assert(framed(source, at + 6, inside(depth)) == framed(source, at + 7, marked));
            assert(framed(source, at + 7, marked) == framed(source, at + 8, inside(depth)));
            lemma_quad_is_content(source, at + 8, end, at + 6);
            lemma_run_is_content(source, at + 8, at + 12, end);
            lemma_scan_content(source, at + 8, at + 12, depth);
        }
    }
}

/// The content of a string reads the same where less follows it, and a scan passes it.
proof fn lemma_string_content(
    cut: Seq<u8>,
    source: Seq<u8>,
    at: int,
    end: int,
    before: Seq<u8>,
    depth: u64,
)
    requires
        is_cut(cut, source),
        0 <= at <= end < cut.len(),
        string_end(source, at) == Ok::<int, ParseFailure>(end + 1),
        unescaped(source, at, end, before) is Ok,
    ensures
        unescaped(cut, at, end, before) == unescaped(source, at, end, before),
        framed(source, at, inside(depth)) == framed(source, end + 1, outside(depth)),
    decreases end - at + 1,
{
    let escape = next_backslash(source, at, end);
    lemma_next_backslash(source, at, end);
    lemma_cut_backslash(cut, source, at, end);
    lemma_cut_subrange(cut, source, at, escape);
    lemma_run_is_content(source, at, escape, end);
    lemma_scan_content(source, at, escape, depth);
    if escape < end {
        lemma_cut_scalar(cut, source, escape, end);
        let (next, scalar) = escaped_scalar(source, escape, end)->Ok_0;
        lemma_scan_escape(source, escape, end, depth);
        lemma_string_content(
            cut,
            source,
            next,
            end,
            before + source.subrange(at, escape) + vstd::utf8::encode_scalar(scalar as u32),
            depth,
        );
    } else {
        lemma_string_end_moves(source, end + 1);
        lemma_string_end_moves(source, end + 2);
        assert(source[end] == QUOTE);
        assert(framed(source, end, inside(depth)) == framed(source, end + 1, outside(depth)));
    }
}

proof fn lemma_string(
    cut: Seq<u8>,
    source: Seq<u8>,
    limits: NdjsonLimits,
    progress: Progress,
    depth: u64,
)
    requires
        is_cut(cut, source),
        byte_at(source, progress.offset, QUOTE),
        string_token(source, limits, progress) matches Ok((next, _, _)) && next.offset
            <= cut.len(),
    ensures
        string_token(cut, limits, progress) == string_token(source, limits, progress),
        ({
            let next = (string_token(source, limits, progress)->Ok_0).0;
            &&& progress.offset < next.offset
            &&& framed(source, progress.offset, outside(depth)) == framed(
                source,
                next.offset,
                outside(depth),
            )
        }),
{
    let start = progress.offset;
    let end = string_end(source, start + 1)->Ok_0;
    lemma_string_end_moves(source, start + 1);
    lemma_cut_string_end(cut, source, start + 1);
    lemma_cut_subrange(cut, source, start + 1, end - 1);
    assert(has_backslash(cut, start + 1, end - 1) == has_backslash(source, start + 1, end - 1)) by {
        if has_backslash(source, start + 1, end - 1) {
            let i = choose|i: int| start + 1 <= i < end - 1 && #[trigger] source[i] == BACKSLASH;
            assert(cut[i] == BACKSLASH);
        }
        if has_backslash(cut, start + 1, end - 1) {
            let i = choose|i: int| start + 1 <= i < end - 1 && #[trigger] cut[i] == BACKSLASH;
            assert(source[i] == BACKSLASH);
        }
    }
    assert(framed(source, start, outside(depth)) == framed(source, start + 1, inside(depth)));
    if has_backslash(source, start + 1, end - 1) {
        lemma_string_content(cut, source, start + 1, end - 1, progress.decoded, depth);
    } else {
        lemma_run_is_content(source, start + 1, end - 1, end - 1);
        lemma_scan_content(source, start + 1, end - 1, depth);
        lemma_string_end_moves(source, end);
        lemma_string_end_moves(source, end + 1);
        assert(source[end - 1] == QUOTE);
        assert(framed(source, end - 1, inside(depth)) == framed(source, end, outside(depth)));
    }
}

proof fn lemma_literal(
    cut: Seq<u8>,
    source: Seq<u8>,
    limits: NdjsonLimits,
    progress: Progress,
    literal: Seq<u8>,
    event: StoredEvent,
    depth: u64,
)
    requires
        is_cut(cut, source),
        0 <= progress.offset,
        literal.len() > 0,
        forall|i: int| 0 <= i < literal.len() ==> is_plain(#[trigger] literal[i]),
        literal_value(source, limits, progress, literal, event) matches Ok(next) && next.offset
            <= cut.len(),
    ensures
        literal_value(cut, limits, progress, literal, event) == literal_value(
            source,
            limits,
            progress,
            literal,
            event,
        ),
        ({
            let next = literal_value(source, limits, progress, literal, event)->Ok_0;
            &&& progress.offset < next.offset
            &&& framed(source, progress.offset, outside(depth)) == framed(
                source,
                next.offset,
                outside(depth),
            )
        }),
{
    let start = progress.offset;
    let end = start + literal.len();
    lemma_cut_subrange(cut, source, start, end as int);
    assert forall|i: int| start <= i < end implies is_plain(#[trigger] source[i]) by {
        assert(source.subrange(start, end as int)[i - start] == source[i]);
    }
    lemma_scan_plain(source, start, end as int, depth);
}

/// Progress of what stands at an offset.
spec fn head_progress(head: Head) -> Progress {
    match head {
        Head::Scalar(progress) => progress,
        Head::Object(progress) => progress,
        Head::Array(progress, _) => progress,
        Head::Failed(_) => arbitrary(),
    }
}

/// The scan after what stands at an offset.
spec fn after_head(source: Seq<u8>, head: Head, depth: u64) -> Framing {
    match head {
        Head::Object(progress) => framed(source, progress.offset, outside((depth + 1) as u64)),
        _ => framed(source, head_progress(head).offset, outside(depth)),
    }
}

#[verifier::rlimit(40)]
#[verifier::spinoff_prover]
proof fn lemma_head(
    cut: Seq<u8>,
    source: Seq<u8>,
    limits: NdjsonLimits,
    before: Progress,
    nesting: int,
    depth: u64,
)
    requires
        is_cut(cut, source),
        0 <= before.offset <= source.len(),
        depth < u64::MAX,
        !(value_head(source, limits, before, nesting) is Failed),
        head_progress(value_head(source, limits, before, nesting)).offset <= cut.len(),
    ensures
        value_head(cut, limits, before, nesting) == value_head(source, limits, before, nesting),
        before.offset < head_progress(value_head(source, limits, before, nesting)).offset,
        framed(source, before.offset, outside(depth)) == after_head(
            source,
            value_head(source, limits, before, nesting),
            depth,
        ),
{
    let head = value_head(source, limits, before, nesting);
    let at = skip_space(source, before.offset);
    lemma_skip_space(source, before.offset);
    lemma_scan_space(source, before.offset, depth);
    let progress = crate::grammar::counted(limits, Progress { offset: at, ..before })->Ok_0;
    let first = source[at];
    if first == LEFT_BRACE {
    } else if first == crate::text::LEFT_BRACKET {
    } else if first == QUOTE {
        lemma_string(cut, source, limits, progress, depth);
    } else if first == 0x74 {
        lemma_literal(
            cut,
            source,
            limits,
            progress,
            true_literal(),
            StoredEvent::Boolean(true),
            depth,
        );
    } else if first == 0x66 {
        lemma_literal(
            cut,
            source,
            limits,
            progress,
            false_literal(),
            StoredEvent::Boolean(false),
            depth,
        );
    } else if first == 0x6e {
        lemma_literal(cut, source, limits, progress, null_literal(), StoredEvent::Null, depth);
    } else {
        lemma_cut_number(cut, source, at);
        let end = (number_token(source, at)->Ok_0).0;
        lemma_scan_plain(source, at, end, depth);
    }
    assert(at < cut.len());
    assert(cut[at] == source[at]);
    lemma_cut_space(cut, source, before.offset);
}

proof fn lemma_value(
    cut: Seq<u8>,
    source: Seq<u8>,
    limits: NdjsonLimits,
    before: Progress,
    nesting: int,
    depth: u64,
)
    requires
        is_cut(cut, source),
        source.len() < u64::MAX,
        1 <= depth <= before.offset <= source.len(),
        value(source, limits, before, nesting) matches Ok(after) && after.offset <= cut.len(),
    ensures
        value(cut, limits, before, nesting) == value(source, limits, before, nesting),
        ({
            let after = value(source, limits, before, nesting)->Ok_0;
            &&& before.offset < after.offset <= source.len()
            &&& framed(source, before.offset, outside(depth)) == framed(
                source,
                after.offset,
                outside(depth),
            )
        }),
    decreases source.len() - before.offset, 2int,
{
    let head = value_head(source, limits, before, nesting);
    match head {
        Head::Failed(_) => {},
        Head::Scalar(_) => {},
        Head::Object(opened) => {
            lemma_object_start(cut, source, limits, opened, nesting + 1, (depth + 1) as u64);
        },
        Head::Array(opened, start_event) => {
            lemma_array_start(cut, source, limits, opened, nesting + 1, start_event, depth);
        },
    }
    lemma_head(cut, source, limits, before, nesting, depth);
}

proof fn lemma_object_start(
    cut: Seq<u8>,
    source: Seq<u8>,
    limits: NdjsonLimits,
    before: Progress,
    nesting: int,
    depth: u64,
)
    requires
        is_cut(cut, source),
        source.len() < u64::MAX,
        1 <= depth <= before.offset <= source.len(),
        object_start(source, limits, before, nesting) matches Ok(after) && after.offset
            <= cut.len(),
    ensures
        object_start(cut, limits, before, nesting) == object_start(
            source,
            limits,
            before,
            nesting,
        ),
        ({
            let after = object_start(source, limits, before, nesting)->Ok_0;
            &&& before.offset < after.offset <= source.len()
            &&& framed(source, before.offset, outside(depth)) == after_closed(
                source,
                after.offset,
                (depth - 1) as u64,
            )
        }),
    decreases source.len() - before.offset, 1int,
{
    let at = skip_space(source, before.offset);
    lemma_scan_space(source, before.offset, depth);
    if byte_at(source, at, RIGHT_BRACE) {
        assert(cut[at] == source[at]);
        lemma_cut_space(cut, source, before.offset);
    } else {
        lemma_object_member(cut, source, limits, before, nesting, depth);
        lemma_cut_space(cut, source, before.offset);
        assert(cut[at] == source[at]);
    }
}

proof fn lemma_object_member(
    cut: Seq<u8>,
    source: Seq<u8>,
    limits: NdjsonLimits,
    before: Progress,
    nesting: int,
    depth: u64,
)
    requires
        is_cut(cut, source),
        source.len() < u64::MAX,
        1 <= depth <= before.offset <= source.len(),
        object_member(source, limits, before, nesting) matches Ok(after) && after.offset
            <= cut.len(),
    ensures
        object_member(cut, limits, before, nesting) == object_member(
            source,
            limits,
            before,
            nesting,
        ),
        ({
            let after = object_member(source, limits, before, nesting)->Ok_0;
            &&& skip_space(source, before.offset) < after.offset <= source.len()
            &&& before.offset < after.offset
            &&& framed(source, before.offset, outside(depth)) == after_closed(
                source,
                after.offset,
                (depth - 1) as u64,
            )
        }),
    decreases source.len() - before.offset, 0int,
{
    let at = skip_space(source, before.offset);
    lemma_scan_space(source, before.offset, depth);
    let progress = Progress { offset: at, ..before };
    let keyed = object_key(source, limits, progress)->Ok_0;
    lemma_object_colon(cut, source, limits, keyed, nesting, depth);
    lemma_string(cut, source, limits, progress, depth);
    lemma_cut_space(cut, source, before.offset);
    assert(cut[at] == source[at]);
}

#[verifier::rlimit(40)]
#[verifier::spinoff_prover]
proof fn lemma_object_colon(
    cut: Seq<u8>,
    source: Seq<u8>,
    limits: NdjsonLimits,
    before: Progress,
    nesting: int,
    depth: u64,
)
    requires
        is_cut(cut, source),
        source.len() < u64::MAX,
        1 <= depth <= before.offset <= source.len(),
        object_colon(source, limits, before, nesting) matches Ok(after) && after.offset
            <= cut.len(),
    ensures
        object_colon(cut, limits, before, nesting) == object_colon(
            source,
            limits,
            before,
            nesting,
        ),
        ({
            let after = object_colon(source, limits, before, nesting)->Ok_0;
            &&& before.offset < after.offset <= source.len()
            &&& framed(source, before.offset, outside(depth)) == after_closed(
                source,
                after.offset,
                (depth - 1) as u64,
            )
        }),
    decreases source.len() - before.offset, 0int,
{
    let at = skip_space(source, before.offset);
    lemma_scan_space(source, before.offset, depth);
    let moved = Progress { offset: at + 1, ..before };
    assert(object_colon(source, limits, before, nesting) == object_value(
        source,
        limits,
        moved,
        nesting,
    ));
    lemma_object_value(cut, source, limits, moved, nesting, depth);
    lemma_scan_plain(source, at, at + 1, depth);
    lemma_cut_space(cut, source, before.offset);
    assert(cut[at] == source[at]);
    assert(object_colon(cut, limits, before, nesting) == object_value(
        cut,
        limits,
        moved,
        nesting,
    ));
}

proof fn lemma_object_value(
    cut: Seq<u8>,
    source: Seq<u8>,
    limits: NdjsonLimits,
    before: Progress,
    nesting: int,
    depth: u64,
)
    requires
        is_cut(cut, source),
        source.len() < u64::MAX,
        1 <= depth <= before.offset <= source.len(),
        object_value(source, limits, before, nesting) matches Ok(after) && after.offset
            <= cut.len(),
    ensures
        object_value(cut, limits, before, nesting) == object_value(
            source,
            limits,
            before,
            nesting,
        ),
        ({
            let after = object_value(source, limits, before, nesting)->Ok_0;
            &&& before.offset < after.offset <= source.len()
            &&& framed(source, before.offset, outside(depth)) == after_closed(
                source,
                after.offset,
                (depth - 1) as u64,
            )
        }),
    decreases source.len() - before.offset, 3int,
{
    let progress = value(source, limits, before, nesting)->Ok_0;
    lemma_object_rest(cut, source, limits, progress, nesting, depth);
    lemma_value(cut, source, limits, before, nesting, depth);
}

proof fn lemma_object_rest(
    cut: Seq<u8>,
    source: Seq<u8>,
    limits: NdjsonLimits,
    before: Progress,
    nesting: int,
    depth: u64,
)
    requires
        is_cut(cut, source),
        source.len() < u64::MAX,
        1 <= depth <= before.offset <= source.len(),
        object_rest(source, limits, before, nesting) matches Ok(after) && after.offset
            <= cut.len(),
    ensures
        object_rest(cut, limits, before, nesting) == object_rest(source, limits, before, nesting),
        ({
            let after = object_rest(source, limits, before, nesting)->Ok_0;
            &&& before.offset < after.offset <= source.len()
            &&& framed(source, before.offset, outside(depth)) == after_closed(
                source,
                after.offset,
                (depth - 1) as u64,
            )
        }),
    decreases source.len() - before.offset, 1int,
{
    let at = skip_space(source, before.offset);
    lemma_scan_space(source, before.offset, depth);
    if byte_at(source, at, crate::text::COMMA) {
        lemma_object_member(
            cut,
            source,
            limits,
            Progress { offset: at + 1, ..before },
            nesting,
            depth,
        );
        lemma_scan_plain(source, at, at + 1, depth);
    }
    lemma_cut_space(cut, source, before.offset);
    assert(cut[at] == source[at]);
}

proof fn lemma_array_start(
    cut: Seq<u8>,
    source: Seq<u8>,
    limits: NdjsonLimits,
    before: Progress,
    nesting: int,
    start_event: int,
    depth: u64,
)
    requires
        is_cut(cut, source),
        source.len() < u64::MAX,
        1 <= depth <= before.offset <= source.len(),
        array_start(source, limits, before, nesting, start_event) matches Ok(after)
            && after.offset <= cut.len(),
    ensures
        array_start(cut, limits, before, nesting, start_event) == array_start(
            source,
            limits,
            before,
            nesting,
            start_event,
        ),
        ({
            let after = array_start(source, limits, before, nesting, start_event)->Ok_0;
            &&& before.offset < after.offset <= source.len()
            &&& framed(source, before.offset, outside(depth)) == framed(
                source,
                after.offset,
                outside(depth),
            )
        }),
    decreases source.len() - before.offset, 4int,
{
    let at = skip_space(source, before.offset);
    lemma_scan_space(source, before.offset, depth);
    if byte_at(source, at, crate::text::RIGHT_BRACKET) {
        lemma_scan_plain(source, at, at + 1, depth);
    } else {
        lemma_array_element(cut, source, limits, before, nesting, start_event, depth);
    }
    lemma_cut_space(cut, source, before.offset);
    assert(cut[at] == source[at]);
}

proof fn lemma_array_element(
    cut: Seq<u8>,
    source: Seq<u8>,
    limits: NdjsonLimits,
    before: Progress,
    nesting: int,
    start_event: int,
    depth: u64,
)
    requires
        is_cut(cut, source),
        source.len() < u64::MAX,
        1 <= depth <= before.offset <= source.len(),
        array_element(source, limits, before, nesting, start_event) matches Ok(after)
            && after.offset <= cut.len(),
    ensures
        array_element(cut, limits, before, nesting, start_event) == array_element(
            source,
            limits,
            before,
            nesting,
            start_event,
        ),
        ({
            let after = array_element(source, limits, before, nesting, start_event)->Ok_0;
            &&& skip_space(source, before.offset) < after.offset <= source.len()
            &&& before.offset < after.offset
            &&& framed(source, before.offset, outside(depth)) == framed(
                source,
                after.offset,
                outside(depth),
            )
        }),
    decreases source.len() - before.offset, 3int,
{
    let progress = value(source, limits, before, nesting)->Ok_0;
    lemma_array_rest(cut, source, limits, progress, nesting, start_event, depth);
    lemma_value(cut, source, limits, before, nesting, depth);
    lemma_skip_space(source, before.offset);
    lemma_value_after_space(source, limits, before, nesting);
}

/// A value stands after the space before it.
proof fn lemma_value_after_space(
    source: Seq<u8>,
    limits: NdjsonLimits,
    before: Progress,
    nesting: int,
)
    requires
        0 <= before.offset <= source.len(),
    ensures
        value(source, limits, before, nesting) matches Ok(after) ==> skip_space(
            source,
            before.offset,
        ) < after.offset,
{
    let at = skip_space(source, before.offset);
    lemma_skip_space(source, before.offset);
    let moved = Progress { offset: at, ..before };
    assert(skip_space(source, at) == at);
    assert(value_head(source, limits, moved, nesting) == value_head(
        source,
        limits,
        before,
        nesting,
    ));
    lemma_value_progress(source, limits, before, nesting);
    lemma_value_progress(source, limits, moved, nesting);
}

proof fn lemma_array_rest(
    cut: Seq<u8>,
    source: Seq<u8>,
    limits: NdjsonLimits,
    before: Progress,
    nesting: int,
    start_event: int,
    depth: u64,
)
    requires
        is_cut(cut, source),
        source.len() < u64::MAX,
        1 <= depth <= before.offset <= source.len(),
        array_rest(source, limits, before, nesting, start_event) matches Ok(after)
            && after.offset <= cut.len(),
    ensures
        array_rest(cut, limits, before, nesting, start_event) == array_rest(
            source,
            limits,
            before,
            nesting,
            start_event,
        ),
        ({
            let after = array_rest(source, limits, before, nesting, start_event)->Ok_0;
            &&& before.offset < after.offset <= source.len()
            &&& framed(source, before.offset, outside(depth)) == framed(
                source,
                after.offset,
                outside(depth),
            )
        }),
    decreases source.len() - before.offset, 1int,
{
    let at = skip_space(source, before.offset);
    lemma_scan_space(source, before.offset, depth);
    if byte_at(source, at, crate::text::COMMA) {
        lemma_array_element(
            cut,
            source,
            limits,
            Progress { offset: at + 1, ..before },
            nesting,
            start_event,
            depth,
        );
        lemma_scan_plain(source, at, at + 1, depth);
    } else {
        lemma_scan_plain(source, at, at + 1, depth);
    }
    lemma_cut_space(cut, source, before.offset);
    assert(cut[at] == source[at]);
}

/// An object that is read from the front of some bytes is the one that a scan frames there, and
/// reads the same on its own.
pub proof fn prefixes_are_framed(source: Seq<u8>, limits: NdjsonLimits)
    requires
        0 < source.len() < u64::MAX,
        source[0] == LEFT_BRACE,
    ensures
        document_prefix(source, limits) matches Ok(progress) ==> {
            &&& 0 < progress.offset <= source.len()
            &&& framed(source, 0, fresh_scan()) == Framing::Complete(progress.offset)
            &&& document(source.take(progress.offset), limits) == Ok::<Progress, ParseFailure>(
                progress,
            )
        },
{
    if document_prefix(source, limits) is Ok {
        let progress = document_prefix(source, limits)->Ok_0;
        let before = fresh_progress();
        lemma_value_progress(source, limits, before, 0);
        let cut = source.take(progress.offset);
        assert(skip_space(source, 0) == 0);
        let head = value_head(source, limits, before, 0);
        let opened = head->Object_0;
        lemma_object_start(cut, source, limits, opened, 1, 1);
        lemma_head(cut, source, limits, before, 0, 0);
        assert(skip_space(cut, progress.offset) == progress.offset);
    }
}

} // verus!
