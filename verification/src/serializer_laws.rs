//! What the serializer makes of an event depends on the two maps alone, whatever follows them.

use vstd::prelude::*;

use crate::array_text::{
    with_array, with_comma, with_element, with_elements, with_key, with_map, with_pair, with_pairs,
    with_value, TextRules,
};
use crate::kv_ir_serializer::{
    array_text, header_type, staged_event, with_entries, with_entry, with_entry_value, with_event,
    with_found_node, with_map_entries, with_root_map, EventRules, SerializerView, Stage,
};
use crate::msgpack::{
    be32, be64, claimed, depth_checked, header_at, lemma_header_progress, map_key_at, operand,
    operand_width, payload, Cursor, HeaderView, Source,
};
use crate::schema_tree::NodeView;
use crate::serializer_options::{KvIrMessagePackErrorKind, KvIrSerializerError};
use crate::stage::scalar_bytes;

verus! {

/// Whether an input ended before what it announced.
pub open spec fn is_cut_short<T>(result: Result<T, KvIrSerializerError>) -> bool {
    result matches Err(KvIrSerializerError::MessagePack { kind, .. }) && kind
        == KvIrMessagePackErrorKind::Truncated
}

/// Whether a source is another one with more bytes behind it.
spec fn is_longer(longer: Source, source: Source) -> bool {
    &&& longer.input == source.input
    &&& longer.limits == source.limits
    &&& source.bytes.len() <= longer.bytes.len()
    &&& forall|i: int| 0 <= i < source.bytes.len() ==> #[trigger] longer.bytes[i] == source.bytes[i]
}

proof fn lemma_operand_stays(longer: Source, source: Source, at: int, width: int)
    requires
        is_longer(longer, source),
        0 <= at,
        at + width <= source.bytes.len(),
        width == 1 || width == 2 || width == 4 || width == 8,
    ensures
        operand(longer.bytes, at, width) == operand(source.bytes, at, width),
        width == 4 ==> be32(longer.bytes, at) == be32(source.bytes, at),
        width == 8 ==> be64(longer.bytes, at) == be64(source.bytes, at),
{
    assert forall|i: int| at <= i < at + width implies longer.bytes[i] == source.bytes[i] by {}
}

proof fn lemma_header_stays(longer: Source, source: Source, cursor: Cursor)
    requires
        is_longer(longer, source),
        0 <= cursor.position <= source.bytes.len(),
        !is_cut_short(header_at(source, cursor)),
    ensures
        header_at(longer, cursor) == header_at(source, cursor),
        header_at(source, cursor) matches Ok((_, next)) ==> cursor.position < next.position
            <= source.bytes.len(),
{
    reveal(payload);
    let at = cursor.position + 1;
    let marker = source.bytes[cursor.position];
    if claimed(source, cursor.position, 1) is Ok {
        assert(longer.bytes[cursor.position] == marker);
        lemma_header_progress(source, cursor);
        assert forall|start: int, end: int| 0 <= start <= end <= source.bytes.len() implies
            #[trigger] longer.bytes.subrange(start, end) == source.bytes.subrange(start, end) by {
            assert(longer.bytes.subrange(start, end) =~= source.bytes.subrange(start, end));
        }
        let width = operand_width(marker);
        if claimed(source, at, width) is Ok {
            lemma_operand_stays(longer, source, at, width);
        }
    }
}

proof fn lemma_key_stays(longer: Source, source: Source, cursor: Cursor)
    requires
        is_longer(longer, source),
        0 <= cursor.position <= source.bytes.len(),
        !is_cut_short(map_key_at(source, cursor)),
    ensures
        map_key_at(longer, cursor) == map_key_at(source, cursor),
        map_key_at(source, cursor) matches Ok((_, next)) ==> cursor.position < next.position
            <= source.bytes.len(),
{
    lemma_header_stays(longer, source, cursor);
}

proof fn lemma_value_stays(
    longer: Source,
    source: Source,
    rules: TextRules,
    json: Seq<u8>,
    header: HeaderView,
    offset: int,
    cursor: Cursor,
    array_depth: int,
    map_depth: int,
)
    requires
        is_longer(longer, source),
        0 <= cursor.position <= source.bytes.len(),
        !is_cut_short(with_value(rules, source, json, header, offset, cursor, array_depth, map_depth)),
    ensures
        with_value(rules, longer, json, header, offset, cursor, array_depth, map_depth) == with_value(rules, source, json, header, offset, cursor, array_depth, map_depth),
        with_value(rules, source, json, header, offset, cursor, array_depth, map_depth) matches Ok((_, next)) ==> cursor.position
            <= next.position <= source.bytes.len(),
    decreases source.bytes.len() - cursor.position, 4int,
{
    match header {
        HeaderView::ArrayHead(elements) => {
            if scalar_bytes(json, seq![0x5bu8], rules.limit) is Ok {
                let opened = scalar_bytes(json, seq![0x5bu8], rules.limit)->Ok_0;
                lemma_array_stays(longer, source, rules, opened, cursor, elements, array_depth);
            }
        },
        HeaderView::MapHead(pairs) => {
            if scalar_bytes(json, seq![0x7bu8], rules.limit) is Ok {
                let opened = scalar_bytes(json, seq![0x7bu8], rules.limit)->Ok_0;
                lemma_map_stays(longer, source, rules, opened, cursor, pairs, map_depth);
            }
        },
        _ => {},
    }
}

proof fn lemma_array_stays(
    longer: Source,
    source: Source,
    rules: TextRules,
    json: Seq<u8>,
    cursor: Cursor,
    elements: u32,
    depth: int,
)
    requires
        is_longer(longer, source),
        0 <= cursor.position <= source.bytes.len(),
        !is_cut_short(with_array(rules, source, json, cursor, elements, depth)),
    ensures
        with_array(rules, longer, json, cursor, elements, depth) == with_array(rules, source, json, cursor, elements, depth),
        with_array(rules, source, json, cursor, elements, depth) matches Ok((_, next)) ==> cursor.position
            <= next.position <= source.bytes.len(),
    decreases source.bytes.len() - cursor.position, 3int,
{
    if depth + 1 <= u64::MAX && depth_checked(source, depth + 1) is Ok {
        lemma_elements_stay(
            longer,
            source,
            rules,
            json,
            cursor,
            elements as int,
            true,
            depth + 1,
        );
    }
}

proof fn lemma_elements_stay(
    longer: Source,
    source: Source,
    rules: TextRules,
    json: Seq<u8>,
    cursor: Cursor,
    left: int,
    first: bool,
    depth: int,
)
    requires
        is_longer(longer, source),
        0 <= cursor.position <= source.bytes.len(),
        !is_cut_short(with_elements(rules, source, json, cursor, left, first, depth)),
    ensures
        with_elements(rules, longer, json, cursor, left, first, depth) == with_elements(rules, source, json, cursor, left, first, depth),
        with_elements(rules, source, json, cursor, left, first, depth) matches Ok((_, next)) ==> cursor.position
            <= next.position <= source.bytes.len(),
    decreases source.bytes.len() - cursor.position, 2int,
{
    if left > 0 {
        lemma_element_stays(longer, source, rules, json, cursor, first, depth);
        if with_element(rules, source, json, cursor, first, depth) is Ok {
            let (content, next) = with_element(rules, source, json, cursor, first, depth)->Ok_0;
            if cursor.position < next.position <= source.bytes.len() {
                lemma_elements_stay(longer, source, rules, content, next, left - 1, false, depth);
            }
        }
    }
}

proof fn lemma_element_stays(
    longer: Source,
    source: Source,
    rules: TextRules,
    json: Seq<u8>,
    cursor: Cursor,
    first: bool,
    depth: int,
)
    requires
        is_longer(longer, source),
        0 <= cursor.position <= source.bytes.len(),
        !is_cut_short(with_element(rules, source, json, cursor, first, depth)),
    ensures
        with_element(rules, longer, json, cursor, first, depth) == with_element(rules, source, json, cursor, first, depth),
        with_element(rules, source, json, cursor, first, depth) matches Ok((_, next)) ==> cursor.position
            < next.position <= source.bytes.len(),
    decreases source.bytes.len() - cursor.position, 1int,
{
    if with_comma(json, first, rules.limit) is Ok {
        let separated = with_comma(json, first, rules.limit)->Ok_0;
        lemma_header_stays(longer, source, cursor);
        if header_at(source, cursor) is Ok {
            let (header, after) = header_at(source, cursor)->Ok_0;
            lemma_value_stays(
                longer,
                source,
                rules,
                separated,
                header,
                cursor.position,
                after,
                depth,
                depth,
            );
        }
    }
}

proof fn lemma_map_stays(
    longer: Source,
    source: Source,
    rules: TextRules,
    json: Seq<u8>,
    cursor: Cursor,
    pairs: u32,
    depth: int,
)
    requires
        is_longer(longer, source),
        0 <= cursor.position <= source.bytes.len(),
        !is_cut_short(with_map(rules, source, json, cursor, pairs, depth)),
    ensures
        with_map(rules, longer, json, cursor, pairs, depth) == with_map(rules, source, json, cursor, pairs, depth),
        with_map(rules, source, json, cursor, pairs, depth) matches Ok((_, next)) ==> cursor.position
            <= next.position <= source.bytes.len(),
    decreases source.bytes.len() - cursor.position, 3int,
{
    if depth_checked(source, depth) is Ok {
        lemma_pairs_stay(longer, source, rules, json, cursor, pairs as int, true, depth);
    }
}

proof fn lemma_pairs_stay(
    longer: Source,
    source: Source,
    rules: TextRules,
    json: Seq<u8>,
    cursor: Cursor,
    left: int,
    first: bool,
    depth: int,
)
    requires
        is_longer(longer, source),
        0 <= cursor.position <= source.bytes.len(),
        !is_cut_short(with_pairs(rules, source, json, cursor, left, first, depth)),
    ensures
        with_pairs(rules, longer, json, cursor, left, first, depth) == with_pairs(rules, source, json, cursor, left, first, depth),
        with_pairs(rules, source, json, cursor, left, first, depth) matches Ok((_, next)) ==> cursor.position
            <= next.position <= source.bytes.len(),
    decreases source.bytes.len() - cursor.position, 2int,
{
    if left > 0 {
        lemma_pair_stays(longer, source, rules, json, cursor, first, depth);
        if with_pair(rules, source, json, cursor, first, depth) is Ok {
            let (content, next) = with_pair(rules, source, json, cursor, first, depth)->Ok_0;
            if cursor.position < next.position <= source.bytes.len() {
                lemma_pairs_stay(longer, source, rules, content, next, left - 1, false, depth);
            }
        }
    }
}

proof fn lemma_pair_stays(
    longer: Source,
    source: Source,
    rules: TextRules,
    json: Seq<u8>,
    cursor: Cursor,
    first: bool,
    depth: int,
)
    requires
        is_longer(longer, source),
        0 <= cursor.position <= source.bytes.len(),
        !is_cut_short(with_pair(rules, source, json, cursor, first, depth)),
    ensures
        with_pair(rules, longer, json, cursor, first, depth) == with_pair(rules, source, json, cursor, first, depth),
        with_pair(rules, source, json, cursor, first, depth) matches Ok((_, next)) ==> cursor.position
            < next.position <= source.bytes.len(),
    decreases source.bytes.len() - cursor.position, 1int,
{
    if with_comma(json, first, rules.limit) is Ok {
        let separated = with_comma(json, first, rules.limit)->Ok_0;
        lemma_key_stays(longer, source, cursor);
        if map_key_at(source, cursor) is Ok {
            let (key, keyed) = map_key_at(source, cursor)->Ok_0;
            if with_key(separated, key, rules.limit) is Ok {
                let colon = with_key(separated, key, rules.limit)->Ok_0;
                lemma_header_stays(longer, source, keyed);
                if header_at(source, keyed) is Ok && depth + 1 <= u64::MAX {
                    let (header, after) = header_at(source, keyed)->Ok_0;
                    lemma_value_stays(
                        longer,
                        source,
                        rules,
                        colon,
                        header,
                        keyed.position,
                        after,
                        depth,
                        depth + 1,
                    );
                }
            }
        }
    }
}

proof fn lemma_array_text_stays(
    longer: Source,
    source: Source,
    rules: EventRules,
    cursor: Cursor,
    elements: u32,
    depth: int,
)
    requires
        is_longer(longer, source),
        0 <= cursor.position <= source.bytes.len(),
        !is_cut_short(array_text(rules, source, cursor, elements, depth)),
    ensures
        array_text(rules, longer, cursor, elements, depth) == array_text(
            rules,
            source,
            cursor,
            elements,
            depth,
        ),
        array_text(rules, source, cursor, elements, depth) matches Ok((_, next))
            ==> cursor.position <= next.position <= source.bytes.len(),
{
    let text_rules = TextRules { limit: rules.limits.scalar_bytes, floats: rules.floats };
    if scalar_bytes(Seq::empty(), seq![0x5bu8], text_rules.limit) is Ok {
        let opened = scalar_bytes(Seq::empty(), seq![0x5bu8], text_rules.limit)->Ok_0;
        lemma_array_stays(longer, source, text_rules, opened, cursor, elements, depth);
    }
}

proof fn lemma_map_entries_stay(
    longer: Source,
    source: Source,
    rules: EventRules,
    stage: Stage,
    cursor: Cursor,
    pairs: u32,
    parent_id: u32,
    auto_generated: bool,
    depth: int,
)
    requires
        is_longer(longer, source),
        0 <= cursor.position <= source.bytes.len(),
        !is_cut_short(with_map_entries(rules, source, stage, cursor, pairs, parent_id, auto_generated, depth)),
    ensures
        with_map_entries(rules, longer, stage, cursor, pairs, parent_id, auto_generated, depth) == with_map_entries(rules, source, stage, cursor, pairs, parent_id, auto_generated, depth),
        with_map_entries(rules, source, stage, cursor, pairs, parent_id, auto_generated, depth) matches Ok((_, next)) ==> cursor.position
            <= next.position <= source.bytes.len(),
    decreases source.bytes.len() - cursor.position, 3int,
{
    if depth_checked(source, depth) is Ok {
        lemma_entries_stay(
            longer,
            source,
            rules,
            stage,
            cursor,
            pairs as int,
            parent_id,
            auto_generated,
            depth,
        );
    }
}

proof fn lemma_entries_stay(
    longer: Source,
    source: Source,
    rules: EventRules,
    stage: Stage,
    cursor: Cursor,
    left: int,
    parent_id: u32,
    auto_generated: bool,
    depth: int,
)
    requires
        is_longer(longer, source),
        0 <= cursor.position <= source.bytes.len(),
        !is_cut_short(with_entries(rules, source, stage, cursor, left, parent_id, auto_generated, depth)),
    ensures
        with_entries(rules, longer, stage, cursor, left, parent_id, auto_generated, depth) == with_entries(rules, source, stage, cursor, left, parent_id, auto_generated, depth),
        with_entries(rules, source, stage, cursor, left, parent_id, auto_generated, depth) matches Ok((_, next)) ==> cursor.position
            <= next.position <= source.bytes.len(),
    decreases source.bytes.len() - cursor.position, 2int,
{
    if left > 0 {
        lemma_entry_stays(
            longer,
            source,
            rules,
            stage,
            cursor,
            parent_id,
            auto_generated,
            depth,
        );
        if with_entry(rules, source, stage, cursor, parent_id, auto_generated, depth) is Ok {
            let (content, next) = with_entry(
                rules,
                source,
                stage,
                cursor,
                parent_id,
                auto_generated,
                depth,
            )->Ok_0;
            if cursor.position < next.position <= source.bytes.len() {
                lemma_entries_stay(
                    longer,
                    source,
                    rules,
                    content,
                    next,
                    left - 1,
                    parent_id,
                    auto_generated,
                    depth,
                );
            }
        }
    }
}

proof fn lemma_entry_stays(
    longer: Source,
    source: Source,
    rules: EventRules,
    stage: Stage,
    cursor: Cursor,
    parent_id: u32,
    auto_generated: bool,
    depth: int,
)
    requires
        is_longer(longer, source),
        0 <= cursor.position <= source.bytes.len(),
        !is_cut_short(with_entry(rules, source, stage, cursor, parent_id, auto_generated, depth)),
    ensures
        with_entry(rules, longer, stage, cursor, parent_id, auto_generated, depth) == with_entry(rules, source, stage, cursor, parent_id, auto_generated, depth),
        with_entry(rules, source, stage, cursor, parent_id, auto_generated, depth) matches Ok((_, next)) ==> cursor.position
            < next.position <= source.bytes.len(),
    decreases source.bytes.len() - cursor.position, 1int,
{
    lemma_key_stays(longer, source, cursor);
    if map_key_at(source, cursor) is Ok {
        let (key, keyed) = map_key_at(source, cursor)->Ok_0;
        lemma_header_stays(longer, source, keyed);
        if header_at(source, keyed) is Ok {
            let (header, after) = header_at(source, keyed)->Ok_0;
            let node = NodeView { parent_id, node_type: header_type(header), key };
            if with_found_node(rules, stage, auto_generated, node) is Ok {
                let (found, node_id) = with_found_node(rules, stage, auto_generated, node)->Ok_0;
                lemma_entry_value_stays(
                    longer,
                    source,
                    rules,
                    found,
                    header,
                    after,
                    node_id,
                    auto_generated,
                    depth,
                );
            }
        }
    }
}

proof fn lemma_entry_value_stays(
    longer: Source,
    source: Source,
    rules: EventRules,
    stage: Stage,
    header: HeaderView,
    cursor: Cursor,
    node_id: u32,
    auto_generated: bool,
    depth: int,
)
    requires
        is_longer(longer, source),
        0 <= cursor.position <= source.bytes.len(),
        !is_cut_short(with_entry_value(rules, source, stage, header, cursor, node_id, auto_generated, depth)),
    ensures
        with_entry_value(rules, longer, stage, header, cursor, node_id, auto_generated, depth) == with_entry_value(rules, source, stage, header, cursor, node_id, auto_generated, depth),
        with_entry_value(rules, source, stage, header, cursor, node_id, auto_generated, depth) matches Ok((_, next)) ==> cursor.position
            <= next.position <= source.bytes.len(),
    decreases source.bytes.len() - cursor.position, 4int,
{
    match header {
        HeaderView::MapHead(pairs) => {
            if pairs != 0 && depth + 1 <= u64::MAX {
                lemma_map_entries_stay(
                    longer,
                    source,
                    rules,
                    stage,
                    cursor,
                    pairs,
                    node_id,
                    auto_generated,
                    depth + 1,
                );
            }
        },
        HeaderView::ArrayHead(elements) => {
            lemma_array_text_stays(longer, source, rules, cursor, elements, depth);
        },
        _ => {},
    }
}

proof fn lemma_root_map_stays(
    rules: EventRules,
    stage: Stage,
    bytes: Seq<u8>,
    trailer: Seq<u8>,
    auto_generated: bool,
)
    requires
        !is_cut_short(with_root_map(rules, stage, bytes, auto_generated)),
    ensures
        with_root_map(rules, stage, bytes + trailer, auto_generated) == with_root_map(
            rules,
            stage,
            bytes,
            auto_generated,
        ),
{
    let input = if auto_generated {
        crate::serializer_options::KvIrSerializerInput::AutoGenerated
    } else {
        crate::serializer_options::KvIrSerializerInput::UserGenerated
    };
    let source = Source { bytes, input, limits: rules.limits };
    let longer = Source { bytes: bytes + trailer, input, limits: rules.limits };
    let start = Cursor { position: 0, values: 0 };
    lemma_header_stays(longer, source, start);
    if header_at(source, start) is Ok {
        let (header, cursor) = header_at(source, start)->Ok_0;
        match header {
            HeaderView::MapHead(pairs) => {
                if auto_generated || pairs != 0 {
                    lemma_map_entries_stay(
                        longer,
                        source,
                        rules,
                        stage,
                        cursor,
                        pairs,
                        0,
                        auto_generated,
                        1,
                    );
                }
            },
            _ => {},
        }
    }
}

proof fn lemma_staged_event_stays(
    view: SerializerView,
    auto_generated: Seq<u8>,
    user_generated: Seq<u8>,
    auto_trailer: Seq<u8>,
    user_trailer: Seq<u8>,
)
    requires
        !is_cut_short(staged_event(view, auto_generated, user_generated)),
    ensures
        staged_event(view, auto_generated + auto_trailer, user_generated + user_trailer)
            == staged_event(view, auto_generated, user_generated),
{
    let rules = EventRules {
        encoding: view.options.encoding,
        limits: view.options.limits,
        floats: view.floats,
    };
    let empty = Stage {
        auto_schema: view.auto_schema,
        user_schema: view.user_schema,
        schema: Seq::empty(),
        sequential: Seq::empty(),
        user_values: Seq::empty(),
    };
    lemma_root_map_stays(rules, empty, auto_generated, auto_trailer, true);
    if with_root_map(rules, empty, auto_generated, true) is Ok {
        let stage = with_root_map(rules, empty, auto_generated, true)->Ok_0;
        lemma_root_map_stays(rules, stage, user_generated, user_trailer, false);
    }
}

/// Bytes after the root maps are ignored: unless an input ends before what it announces, an event
/// is serialized to the same output, or rejected for the same reason, where more bytes follow its
/// maps, as long as these stay within the input limit.
pub proof fn trailing_bytes_are_ignored(
    view: SerializerView,
    auto_generated: Seq<u8>,
    user_generated: Seq<u8>,
    auto_trailer: Seq<u8>,
    user_trailer: Seq<u8>,
)
    requires
        !is_cut_short(with_event(view, auto_generated, user_generated)),
        auto_generated.len() + auto_trailer.len() <= view.options.limits.input_bytes_per_map,
        user_generated.len() + user_trailer.len() <= view.options.limits.input_bytes_per_map,
    ensures
        with_event(view, auto_generated + auto_trailer, user_generated + user_trailer)
            == with_event(view, auto_generated, user_generated),
{
    if !view.finished {
        lemma_staged_event_stays(
            view,
            auto_generated,
            user_generated,
            auto_trailer,
            user_trailer,
        );
    }
}

} // verus!
