//! Typed metadata of a stream, from the flat events of its JSON text.

use vstd::prelude::*;

use crate::archive_options::{KvIrArchiveFailure, KvIrArchiveInvalidData};
use crate::number::{
    decimal_value, finite_bits, parse_magnitude, JsonNumberClassificationError, JsonNumberDomain,
};
use crate::text::{byte_at, bytes_equal, lemma_valid_up_to_unique, utf8_text, MINUS, PLUS};
use crate::timestamp::{all_digits, parse_i64, parsed_i64};
use vstd::slice::{slice_subrange, slice_to_vec};
use vstd::utf8::valid_utf8;

verus! {

/// One event of a metadata text. A number carries the bits of the binary64 value that its text
/// reads as, if it reads as one.
#[derive(Clone, Copy, Debug)]
pub enum MetadataEvent<'a> {
    ObjectStart,
    ObjectEnd,
    ArrayStart,
    ArrayEnd,
    Key(&'a [u8]),
    String(&'a [u8]),
    Number { source: &'a [u8], bits: Option<u64> },
    Boolean(bool),
    Null,
}

/// One typed metadata value. The fields of an object are in the order of their names.
#[derive(Debug, PartialEq, Eq)]
pub enum RangeIndexValue {
    Null,
    Boolean(bool),
    Signed(i64),
    Unsigned(u64),
    /// A binary64 value by its bits.
    Float(u64),
    String(Vec<u8>),
    Array(Vec<RangeIndexValue>),
    Object(Vec<RangeIndexField>),
}

/// One named metadata value.
#[derive(Debug, PartialEq, Eq)]
pub struct RangeIndexField {
    pub name: Vec<u8>,
    pub value: RangeIndexValue,
}

/// Whether `left` comes before `right` in the order of bytes.
pub open spec fn is_before(left: Seq<u8>, right: Seq<u8>) -> bool
    decreases left.len(),
{
    if right.len() == 0 {
        false
    } else if left.len() == 0 {
        true
    } else if left[0] != right[0] {
        left[0] < right[0]
    } else {
        is_before(left.drop_first(), right.drop_first())
    }
}

/// Whether fields are in the order of their names, and no name occurs twice.
pub open spec fn is_ordered(fields: Seq<RangeIndexField>) -> bool {
    forall|first: int, second: int|
        0 <= first < second < fields.len() ==> is_before(
            #[trigger] fields[first].name@,
            #[trigger] fields[second].name@,
        )
}

/// Place of a name among fields.
pub open spec fn name_place(fields: Seq<RangeIndexField>, name: Seq<u8>) -> int {
    choose|i: int| 0 <= i < fields.len() && #[trigger] fields[i].name@ == name
}

/// Whether a name occurs among fields.
pub open spec fn has_name(fields: Seq<RangeIndexField>, name: Seq<u8>) -> bool {
    exists|i: int| 0 <= i < fields.len() && #[trigger] fields[i].name@ == name
}

/// A value as mathematical sequences and maps.
pub enum RangeTree {
    Null,
    Boolean(bool),
    Signed(int),
    Unsigned(int),
    Float(u64),
    String(Seq<u8>),
    Array(Seq<RangeTree>),
    Object(Map<Seq<u8>, RangeTree>),
}

/// What a value says.
pub open spec fn tree_of(value: RangeIndexValue) -> RangeTree
    decreases value,
{
    match value {
        RangeIndexValue::Null => RangeTree::Null,
        RangeIndexValue::Boolean(value) => RangeTree::Boolean(value),
        RangeIndexValue::Signed(value) => RangeTree::Signed(value as int),
        RangeIndexValue::Unsigned(value) => RangeTree::Unsigned(value as int),
        RangeIndexValue::Float(bits) => RangeTree::Float(bits),
        RangeIndexValue::String(value) => RangeTree::String(value@),
        RangeIndexValue::Array(values) => RangeTree::Array(
            Seq::new(
                values@.len(),
                |i: int|
                    if 0 <= i < values.len() {
                        tree_of(values[i])
                    } else {
                        RangeTree::Null
                    },
            ),
        ),
        RangeIndexValue::Object(fields) => RangeTree::Object(
            Map::new(
                |name: Seq<u8>| has_name(fields@, name),
                |name: Seq<u8>|
                    {
                        let i = name_place(fields@, name);
                        if 0 <= i < fields.len() {
                            tree_of(fields[i].value)
                        } else {
                            RangeTree::Null
                        }
                    },
            ),
        ),
    }
}

/// Fields as a map from names to what the values say.
pub open spec fn field_trees(fields: Seq<RangeIndexField>) -> Map<Seq<u8>, RangeTree> {
    Map::new(
        |name: Seq<u8>| has_name(fields, name),
        |name: Seq<u8>| tree_of(fields[name_place(fields, name)].value),
    )
}

/// What values say.
pub open spec fn value_trees(values: Seq<RangeIndexValue>) -> Seq<RangeTree> {
    Seq::new(values.len(), |i: int| tree_of(values[i]))
}

/// An object says what its fields say, and an array what its elements say.
proof fn lemma_container_trees(fields: Vec<RangeIndexField>, values: Vec<RangeIndexValue>)
    ensures
        tree_of(RangeIndexValue::Object(fields)) == RangeTree::Object(field_trees(fields@)),
        tree_of(RangeIndexValue::Array(values)) == RangeTree::Array(value_trees(values@)),
{
    let object = tree_of(RangeIndexValue::Object(fields))->Object_0;
    assert forall|name: Seq<u8>| object.dom().contains(name) implies #[trigger] object[name]
        == field_trees(fields@)[name] by {
        assert(has_name(fields@, name));
        let i = name_place(fields@, name);
        assert(0 <= i < fields@.len() && fields@[i].name@ == name);
    }
    assert(object =~= field_trees(fields@));
    let array = tree_of(RangeIndexValue::Array(values))->Array_0;
    assert(array =~= value_trees(values@));
}

/// In ordered fields a name has one place.
proof fn lemma_name_place(fields: Seq<RangeIndexField>, i: int)
    requires
        is_ordered(fields),
        0 <= i < fields.len(),
    ensures
        has_name(fields, fields[i].name@),
        name_place(fields, fields[i].name@) == i,
{
    let name = fields[i].name@;
    let place = name_place(fields, name);
    assert(0 <= place < fields.len() && fields[place].name@ == name);
    lemma_order_irreflexive(name);
    if place < i {
        assert(is_before(fields[place].name@, fields[i].name@));
    } else if i < place {
        assert(is_before(fields[i].name@, fields[place].name@));
    }
}

/// Fields that are those of `before` with one name mapped anew say so.
proof fn lemma_field_trees(
    before: Seq<RangeIndexField>,
    after: Seq<RangeIndexField>,
    field: RangeIndexField,
)
    requires
        is_ordered(before),
        is_ordered(after),
        after.contains(field),
        forall|i: int|
            0 <= i < after.len() ==> #[trigger] after[i] == field || before.contains(after[i]),
        forall|i: int|
            0 <= i < before.len() && #[trigger] before[i].name@ != field.name@ ==> after.contains(
                before[i],
            ),
    ensures
        field_trees(after) == field_trees(before).insert(field.name@, tree_of(field.value)),
{
    let expected = field_trees(before).insert(field.name@, tree_of(field.value));
    let own = choose|i: int| 0 <= i < after.len() && after[i] == field;
    lemma_name_place(after, own);
    assert forall|name: Seq<u8>| field_trees(after).dom().contains(name)
        == expected.dom().contains(name) by {
        if has_name(after, name) {
            let i = name_place(after, name);
            assert(0 <= i < after.len() && after[i].name@ == name);
            if after[i] != field {
                assert(before.contains(after[i]));
                let j = choose|j: int| 0 <= j < before.len() && before[j] == after[i];
                assert(before[j].name@ == name);
            }
        }
        if has_name(before, name) && name != field.name@ {
            let j = name_place(before, name);
            assert(0 <= j < before.len() && before[j].name@ == name);
            assert(after.contains(before[j]));
            let i = choose|i: int| 0 <= i < after.len() && after[i] == before[j];
            assert(after[i].name@ == name);
        }
    }
    assert forall|name: Seq<u8>| field_trees(after).dom().contains(name) implies field_trees(
        after,
    )[name] == expected[name] by {
        let i = name_place(after, name);
        assert(0 <= i < after.len() && after[i].name@ == name);
        if name == field.name@ {
            assert(i == own);
        } else {
            assert(after[i] != field);
            assert(before.contains(after[i]));
            let j = choose|j: int| 0 <= j < before.len() && before[j] == after[i];
            lemma_name_place(before, j);
        }
    }
    assert(field_trees(after) =~= expected);
}

pub proof fn lemma_order_irreflexive(name: Seq<u8>)
    ensures
        !is_before(name, name),
    decreases name.len(),
{
    if name.len() > 0 {
        lemma_order_irreflexive(name.drop_first());
    }
}

pub proof fn lemma_order_transitive(first: Seq<u8>, second: Seq<u8>, third: Seq<u8>)
    requires
        is_before(first, second),
        is_before(second, third),
    ensures
        is_before(first, third),
    decreases first.len(),
{
    if first.len() > 0 && second.len() > 0 && third.len() > 0 && first[0] == second[0] && second[0]
        == third[0] {
        lemma_order_transitive(first.drop_first(), second.drop_first(), third.drop_first());
    }
}

pub proof fn lemma_order_total(left: Seq<u8>, right: Seq<u8>)
    ensures
        is_before(left, right) || is_before(right, left) || left == right,
    decreases left.len(),
{
    if left.len() > 0 && right.len() > 0 && left[0] == right[0] {
        lemma_order_total(left.drop_first(), right.drop_first());
        if left.drop_first() == right.drop_first() {
            assert(left =~= seq![left[0]] + left.drop_first());
            assert(right =~= seq![right[0]] + right.drop_first());
        }
    } else if left.len() == 0 && right.len() == 0 {
        assert(left =~= right);
    }
}

/// Whether `left` comes before `right` in the order of bytes.
fn comes_before(left: &[u8], right: &[u8]) -> (result: bool)
    ensures
        result == is_before(left@, right@),
{
    let mut at: usize = 0;
    proof {
        assert(left@.skip(0) =~= left@);
        assert(right@.skip(0) =~= right@);
    }
    while at < left.len() && at < right.len() && left[at] == right[at]
        invariant
            at <= left@.len(),
            at <= right@.len(),
            is_before(left@.skip(at as int), right@.skip(at as int)) == is_before(left@, right@),
        decreases left@.len() - at,
    {
        proof {
            assert(left@.skip(at as int).drop_first() =~= left@.skip(at + 1));
            assert(right@.skip(at as int).drop_first() =~= right@.skip(at + 1));
        }
        at += 1;
    }
    if at == right.len() {
        false
    } else if at == left.len() {
        true
    } else {
        left[at] < right[at]
    }
}

/// Maps a name to a value; a value that the name had before is replaced.
fn insert_field(fields: &mut Vec<RangeIndexField>, name: Vec<u8>, value: RangeIndexValue)
    requires
        is_ordered(old(fields)@),
    ensures
        is_ordered(final(fields)@),
        field_trees(final(fields)@) == field_trees(old(fields)@).insert(name@, tree_of(value)),
        forall|i: int|
            0 <= i < final(fields)@.len() ==> #[trigger] final(fields)@[i].value == value || old(
                fields,
            )@.contains(final(fields)@[i]),
{
    let ghost before = fields@;
    let mut at: usize = 0;
    while at < fields.len() && comes_before(fields[at].name.as_slice(), name.as_slice())
        invariant
            fields@ == before,
            at <= fields@.len(),
            forall|i: int| 0 <= i < at ==> is_before(#[trigger] before[i].name@, name@),
        decreases fields@.len() - at,
    {
        at += 1;
    }
    let field = RangeIndexField { name, value };
    if at < fields.len() && bytes_equal(fields[at].name.as_slice(), field.name.as_slice()) {
        fields.set(at, field);
        proof {
            assert forall|first: int, second: int| 0 <= first < second < fields@.len() implies
                is_before(#[trigger] fields@[first].name@, #[trigger] fields@[second].name@) by {
                assert(is_before(before[first].name@, before[second].name@));
            }
            assert(fields@[at as int] == field);
            assert forall|i: int| 0 <= i < fields@.len() implies #[trigger] fields@[i] == field
                || before.contains(fields@[i]) by {
                if i != at {
                    assert(fields@[i] == before[i]);
                }
            }
            assert forall|i: int| 0 <= i < before.len() && #[trigger] before[i].name@
                != field.name@ implies fields@.contains(before[i]) by {
                assert(fields@[i] == before[i]);
            }
            lemma_field_trees(before, fields@, field);
        }
    } else {
        proof {
            if at < before.len() {
                lemma_order_total(before[at as int].name@, field.name@);
            }
            assert forall|i: int| at <= i < before.len() implies is_before(
                field.name@,
                #[trigger] before[i].name@,
            ) by {
                if i > at {
                    assert(is_before(before[at as int].name@, before[i].name@));
                    lemma_order_transitive(field.name@, before[at as int].name@, before[i].name@);
                }
            }
        }
        fields.insert(at, field);
        proof {
            assert forall|first: int, second: int| 0 <= first < second < fields@.len() implies
                is_before(#[trigger] fields@[first].name@, #[trigger] fields@[second].name@) by {
                if first < at && second > at {
                    assert(is_before(before[first].name@, before[second - 1].name@));
                } else if first < at && second < at {
                    assert(is_before(before[first].name@, before[second].name@));
                } else if first > at {
                    assert(is_before(before[first - 1].name@, before[second - 1].name@));
                }
            }
            assert(fields@[at as int] == field);
            assert forall|i: int| 0 <= i < fields@.len() implies #[trigger] fields@[i] == field
                || before.contains(fields@[i]) by {
                if i < at {
                    assert(fields@[i] == before[i]);
                } else if i > at {
                    assert(fields@[i] == before[i - 1]);
                }
            }
            assert forall|i: int| 0 <= i < before.len() && #[trigger] before[i].name@
                != field.name@ implies fields@.contains(before[i]) by {
                if i < at {
                    assert(fields@[i] == before[i]);
                } else {
                    assert(fields@[i + 1] == before[i]);
                }
            }
            lemma_field_trees(before, fields@, field);
        }
    }
}

/// The unsigned 64-bit integer that a text spells: an optional plus sign, and one or more digits.
pub open spec fn parsed_u64(text: Seq<u8>) -> Option<int> {
    let run = if byte_at(text, 0, PLUS) {
        text.skip(1)
    } else {
        text
    };
    if run.len() > 0 && all_digits(run) && decimal_value(run) <= u64::MAX {
        Some(decimal_value(run) as int)
    } else {
        None
    }
}

/// Whether a byte of a number token makes it a float.
pub open spec fn is_float_mark(byte: u8) -> bool {
    byte == 0x2e || byte == 0x65 || byte == 0x45
}

/// Whether a number token is that of a float.
pub open spec fn has_float_mark(source: Seq<u8>) -> bool {
    exists|i: int| 0 <= i < source.len() && is_float_mark(#[trigger] source[i])
}

/// Typed value of a number token.
pub open spec fn number_meaning(source: Seq<u8>, bits: Option<u64>) -> Result<
    RangeTree,
    JsonNumberClassificationError,
> {
    if !valid_utf8(source) {
        Err(
            JsonNumberClassificationError::InvalidSyntax {
                byte_offset: crate::text::valid_up_to(source) as usize,
            },
        )
    } else if has_float_mark(source) {
        match bits {
            Some(bits) => if finite_bits(bits) {
                Ok(RangeTree::Float(bits))
            } else {
                Err(JsonNumberClassificationError::OutOfRange { domain: JsonNumberDomain::Float })
            },
            None => Err(
                JsonNumberClassificationError::OutOfRange { domain: JsonNumberDomain::Float },
            ),
        }
    } else {
        let value = if byte_at(source, 0, MINUS) {
            match parsed_i64(source) {
                Some(value) => Some(RangeTree::Signed(value)),
                None => None,
            }
        } else {
            match parsed_u64(source) {
                Some(value) => Some(RangeTree::Unsigned(value)),
                None => None,
            }
        };
        match value {
            Some(value) => Ok(value),
            None => Err(
                JsonNumberClassificationError::OutOfRange { domain: JsonNumberDomain::Integer },
            ),
        }
    }
}

fn parse_u64(text: &[u8]) -> (result: Option<u64>)
    ensures
        match result {
            Some(value) => parsed_u64(text@) == Some(value as int),
            None => parsed_u64(text@) is None,
        },
{
    let start: usize = if text.len() > 0 && text[0] == PLUS {
        1
    } else {
        0
    };
    let run = slice_subrange(text, start, text.len());
    proof {
        if start == 1 {
            assert(run@ =~= text@.skip(1));
        } else {
            assert(run@ =~= text@);
        }
        assert(run@.subrange(0, run@.len() as int) =~= run@);
    }
    if run.len() == 0 {
        return None;
    }
    let mut at: usize = 0;
    while at < run.len()
        invariant
            at <= run@.len(),
            run@.len() > 0,
            run@ == (if byte_at(text@, 0, PLUS) {
                text@.skip(1)
            } else {
                text@
            }),
            forall|i: int| 0 <= i < at ==> crate::text::is_digit(#[trigger] run@[i]),
        decreases run@.len() - at,
    {
        if !crate::text::is_ascii_digit(run[at]) {
            assert(!crate::text::is_digit(run@[at as int]));
            return None;
        }
        at += 1;
    }
    parse_magnitude(run, 0)
}

/// Types a number token.
pub fn metadata_number(source: &[u8], bits: Option<u64>) -> (result: Result<
    RangeIndexValue,
    JsonNumberClassificationError,
>)
    ensures
        match result {
            Ok(value) => number_meaning(source@, bits) == Ok::<
                RangeTree,
                JsonNumberClassificationError,
            >(tree_of(value)),
            Err(error) => number_meaning(source@, bits) == Err::<
                RangeTree,
                JsonNumberClassificationError,
            >(error),
        },
{
    match utf8_text(source) {
        Ok(_) => {},
        Err(fault) => {
            proof {
                lemma_valid_up_to_unique(source@, fault.valid_up_to as int);
            }
            return Err(
                JsonNumberClassificationError::InvalidSyntax { byte_offset: fault.valid_up_to },
            );
        },
    }
    let mut float = false;
    let mut at: usize = 0;
    while at < source.len()
        invariant
            at <= source@.len(),
            float ==> has_float_mark(source@),
            !float ==> forall|i: int| 0 <= i < at ==> !is_float_mark(#[trigger] source@[i]),
        decreases source@.len() - at,
    {
        let byte = source[at];
        if byte == 0x2e || byte == 0x65 || byte == 0x45 {
            assert(is_float_mark(source@[at as int]));
            float = true;
        }
        at += 1;
    }
    if float {
        return match bits {
            Some(bits) => {
                if (bits >> 52) & 0x7ff == 0x7ff {
                    Err(JsonNumberClassificationError::OutOfRange { domain: JsonNumberDomain::Float })
                } else {
                    Ok(RangeIndexValue::Float(bits))
                }
            },
            None => Err(
                JsonNumberClassificationError::OutOfRange { domain: JsonNumberDomain::Float },
            ),
        };
    }
    let out_of_range = JsonNumberClassificationError::OutOfRange {
        domain: JsonNumberDomain::Integer,
    };
    if source.len() > 0 && source[0] == MINUS {
        match parse_i64(source) {
            Some(value) => Ok(RangeIndexValue::Signed(value)),
            None => Err(out_of_range),
        }
    } else {
        match parse_u64(source) {
            Some(value) => Ok(RangeIndexValue::Unsigned(value)),
            None => Err(out_of_range),
        }
    }
}

/// One open container.
pub enum MetadataFrame {
    Object { fields: Vec<RangeIndexField>, pending_key: Option<Vec<u8>> },
    Array(Vec<RangeIndexValue>),
}

/// What an open container holds.
pub enum FrameView {
    Object { fields: Map<Seq<u8>, RangeTree>, pending_key: Option<Seq<u8>> },
    Array(Seq<RangeTree>),
}

impl View for MetadataFrame {
    type V = FrameView;

    open spec fn view(&self) -> FrameView {
        match *self {
            MetadataFrame::Object { fields, pending_key } => FrameView::Object {
                fields: field_trees(fields@),
                pending_key: match pending_key {
                    Some(key) => Some(key@),
                    None => None,
                },
            },
            MetadataFrame::Array(values) => FrameView::Array(value_trees(values@)),
        }
    }
}

/// Open containers and the root value, if it is complete.
pub struct MetadataState {
    pub stack: Seq<FrameView>,
    pub root: Option<RangeTree>,
}

pub open spec fn traversal_failure() -> KvIrArchiveFailure {
    KvIrArchiveFailure::Invalid(KvIrArchiveInvalidData::MetadataTraversal)
}

/// A complete value goes into the innermost container, or becomes the root.
pub open spec fn with_metadata_value(state: MetadataState, value: RangeTree) -> Result<
    MetadataState,
    KvIrArchiveFailure,
> {
    if state.stack.len() == 0 {
        if state.root is None {
            Ok(MetadataState { root: Some(value), ..state })
        } else {
            Err(traversal_failure())
        }
    } else {
        let below = state.stack.drop_last();
        match state.stack.last() {
            FrameView::Object { fields, pending_key: Some(key) } => Ok(
                MetadataState {
                    stack: below.push(
                        FrameView::Object { fields: fields.insert(key, value), pending_key: None },
                    ),
                    ..state
                },
            ),
            FrameView::Object { fields: _, pending_key: None } => Err(traversal_failure()),
            FrameView::Array(values) => Ok(
                MetadataState { stack: below.push(FrameView::Array(values.push(value))), ..state },
            ),
        }
    }
}

/// One event of a balanced traversal.
pub open spec fn with_metadata_event(state: MetadataState, event: MetadataEvent<'_>) -> Result<
    MetadataState,
    KvIrArchiveFailure,
> {
    match event {
        MetadataEvent::ObjectStart => Ok(
            MetadataState {
                stack: state.stack.push(
                    FrameView::Object { fields: Map::empty(), pending_key: None },
                ),
                ..state
            },
        ),
        MetadataEvent::ArrayStart => Ok(
            MetadataState { stack: state.stack.push(FrameView::Array(Seq::empty())), ..state },
        ),
        MetadataEvent::ObjectEnd => if state.stack.len() == 0 {
            Err(traversal_failure())
        } else {
            match state.stack.last() {
                FrameView::Object { fields, pending_key: None } => with_metadata_value(
                    MetadataState { stack: state.stack.drop_last(), ..state },
                    RangeTree::Object(fields),
                ),
                _ => Err(traversal_failure()),
            }
        },
        MetadataEvent::ArrayEnd => if state.stack.len() == 0 {
            Err(traversal_failure())
        } else {
            match state.stack.last() {
                FrameView::Array(values) => with_metadata_value(
                    MetadataState { stack: state.stack.drop_last(), ..state },
                    RangeTree::Array(values),
                ),
                _ => Err(traversal_failure()),
            }
        },
        MetadataEvent::Key(key) => if state.stack.len() == 0 {
            Err(traversal_failure())
        } else {
            match state.stack.last() {
                FrameView::Object { fields, pending_key: None } => Ok(
                    MetadataState {
                        stack: state.stack.drop_last().push(
                            FrameView::Object { fields, pending_key: Some(key@) },
                        ),
                        ..state
                    },
                ),
                _ => Err(traversal_failure()),
            }
        },
        MetadataEvent::String(value) => with_metadata_value(state, RangeTree::String(value@)),
        MetadataEvent::Number { source, bits } => match number_meaning(source@, bits) {
            Ok(value) => with_metadata_value(state, value),
            Err(error) => Err(KvIrArchiveFailure::MetadataNumber(error)),
        },
        MetadataEvent::Boolean(value) => with_metadata_value(state, RangeTree::Boolean(value)),
        MetadataEvent::Null => with_metadata_value(state, RangeTree::Null),
    }
}

/// Events from `at` on.
pub open spec fn with_metadata_events(
    state: MetadataState,
    events: Seq<MetadataEvent<'_>>,
    at: int,
) -> Result<MetadataState, KvIrArchiveFailure>
    decreases events.len() - at,
{
    if at < 0 || at >= events.len() {
        Ok(state)
    } else {
        match with_metadata_event(state, events[at]) {
            Ok(next) => with_metadata_events(next, events, at + 1),
            Err(failure) => Err(failure),
        }
    }
}

/// The one value that a balanced traversal describes.
pub open spec fn metadata_meaning(events: Seq<MetadataEvent<'_>>) -> Result<
    RangeTree,
    KvIrArchiveFailure,
> {
    match with_metadata_events(MetadataState { stack: Seq::empty(), root: None }, events, 0) {
        Err(failure) => Err(failure),
        Ok(state) => if state.stack.len() == 0 {
            match state.root {
                Some(value) => Ok(value),
                None => Err(traversal_failure()),
            }
        } else {
            Err(traversal_failure())
        },
    }
}

/// Name of the user-defined part of the metadata.
pub open spec fn user_part_name() -> Seq<u8> {
    vstd::utf8::encode_utf8("USER_DEFINED_METADATA"@)
}

/// The user-defined fields of the metadata, none where there is no such part.
pub open spec fn user_fields(events: Seq<MetadataEvent<'_>>) -> Result<
    Map<Seq<u8>, RangeTree>,
    KvIrArchiveFailure,
> {
    match metadata_meaning(events) {
        Err(failure) => Err(failure),
        Ok(RangeTree::Object(root)) => if root.dom().contains(user_part_name()) {
            match root[user_part_name()] {
                RangeTree::Object(fields) => Ok(fields),
                _ => Err(traversal_failure()),
            }
        } else {
            Ok(Map::empty())
        },
        Ok(_) => Err(traversal_failure()),
    }
}

pub open spec fn frame_views(stack: Seq<MetadataFrame>) -> Seq<FrameView> {
    stack.map_values(|frame: MetadataFrame| frame@)
}

/// Whether the fields of a value are ordered at every depth.
pub open spec fn is_ordered_value(value: RangeIndexValue) -> bool
    decreases value,
{
    match value {
        RangeIndexValue::Array(values) => forall|i: int|
            0 <= i < values@.len() ==> is_ordered_value(#[trigger] values@[i]),
        RangeIndexValue::Object(fields) => is_ordered(fields@) && forall|i: int|
            0 <= i < fields.len() ==> is_ordered_value((#[trigger] fields[i]).value),
        _ => true,
    }
}

proof fn lemma_ordered_element(values: Vec<RangeIndexValue>, i: int)
    requires
        is_ordered_value(RangeIndexValue::Array(values)),
        0 <= i < values@.len(),
    ensures
        is_ordered_value(values@[i]),
{
    reveal_with_fuel(is_ordered_value, 2);
    assert(match RangeIndexValue::Array(values) {
        RangeIndexValue::Array(values) => forall|i: int|
            0 <= i < values@.len() ==> is_ordered_value(#[trigger] values@[i]),
        _ => true,
    });
}

/// Whether the fields of an open container are ordered at every depth.
pub open spec fn is_ordered_frame(frame: MetadataFrame) -> bool {
    match frame {
        MetadataFrame::Array(values) => is_ordered_value(RangeIndexValue::Array(values)),
        MetadataFrame::Object { fields, .. } => is_ordered_value(RangeIndexValue::Object(fields)),
    }
}

pub open spec fn are_ordered_frames(stack: Seq<MetadataFrame>) -> bool {
    forall|i: int| 0 <= i < stack.len() ==> is_ordered_frame(#[trigger] stack[i])
}

pub open spec fn root_view(root: Option<RangeIndexValue>) -> Option<RangeTree> {
    match root {
        Some(value) => Some(tree_of(value)),
        None => None,
    }
}

/// Puts a complete value into the innermost container, or makes it the root.
fn push_metadata_value(
    stack: &mut Vec<MetadataFrame>,
    root: &mut Option<RangeIndexValue>,
    value: RangeIndexValue,
) -> (result: Result<(), KvIrArchiveFailure>)
    requires
        are_ordered_frames(old(stack)@),
        *old(root) matches Some(root) ==> is_ordered_value(root),
        is_ordered_value(value),
    ensures
        ({
            let expected = with_metadata_value(
                MetadataState { stack: frame_views(old(stack)@), root: root_view(*old(root)) },
                tree_of(value),
            );
            match result {
                Ok(_) => {
                    &&& are_ordered_frames(final(stack)@)
                    &&& *final(root) matches Some(root) ==> is_ordered_value(root)
                    &&& expected == Ok::<MetadataState, KvIrArchiveFailure>(
                        MetadataState {
                            stack: frame_views(final(stack)@),
                            root: root_view(*final(root)),
                        },
                    )
                },
                Err(failure) => expected == Err::<MetadataState, KvIrArchiveFailure>(failure),
            }
        }),
{
    let ghost before = stack@;
    let ghost views = frame_views(before);
    let failure = KvIrArchiveFailure::Invalid(KvIrArchiveInvalidData::MetadataTraversal);
    match stack.pop() {
        None => {
            if root.is_none() {
                *root = Some(value);
                assert(frame_views(stack@) =~= views);
                Ok(())
            } else {
                Err(failure)
            }
        },
        Some(frame) => {
            proof {
                assert(frame == before.last());
                assert(is_ordered_frame(before[before.len() - 1]));
                assert(frame_views(stack@) =~= views.drop_last());
                assert(views.last() == frame@);
                assert forall|i: int| 0 <= i < stack@.len() implies is_ordered_frame(
                    #[trigger] stack@[i],
                ) by {
                    assert(stack@[i] == before[i]);
                }
            }
            let ghost below = stack@;
            match frame {
                MetadataFrame::Object { fields, pending_key } => {
                    let key = match pending_key {
                        Some(key) => key,
                        None => {
                            return Err(failure);
                        },
                    };
                    let mut fields = fields;
                    let ghost old_fields = fields@;
                    insert_field(&mut fields, key, value);
                    let next = MetadataFrame::Object { fields, pending_key: None };
                    stack.push(next);
                    proof {
                        assert forall|i: int| 0 <= i < fields.len() implies is_ordered_value(
                            (#[trigger] fields[i]).value,
                        ) by {
                            let field = fields@[i];
                            if !(field.value == value) {
                                assert(old_fields.contains(field));
                                let j = choose|j: int|
                                    0 <= j < old_fields.len() && old_fields[j] == field;
                                assert(is_ordered_value(old_fields[j].value));
                            }
                        }
                        assert(frame_views(stack@) =~= frame_views(below).push(next@));
                    }
                    Ok(())
                },
                MetadataFrame::Array(values) => {
                    let mut values = values;
                    let ghost unchanged = values;
                    assert(is_ordered_value(RangeIndexValue::Array(unchanged)));
                    let ghost old_values = values@;
                    values.push(value);
                    let next = MetadataFrame::Array(values);
                    stack.push(next);
                    proof {
                        assert forall|i: int| 0 <= i < values@.len() implies is_ordered_value(
                            #[trigger] values@[i],
                        ) by {
                            if i < old_values.len() {
                                lemma_ordered_element(unchanged, i);
                                assert(values@[i] == unchanged@[i]);
                            }
                        }
                        assert(value_trees(values@) =~= value_trees(old_values).push(
                            tree_of(value),
                        ));
                        assert(frame_views(stack@) =~= frame_views(below).push(next@));
                    }
                    Ok(())
                },
            }
        },
    }
}

/// Opens a container.
fn push_frame(stack: &mut Vec<MetadataFrame>, frame: MetadataFrame)
    requires
        are_ordered_frames(old(stack)@),
        is_ordered_frame(frame),
    ensures
        are_ordered_frames(final(stack)@),
        frame_views(final(stack)@) == frame_views(old(stack)@).push(frame@),
{
    stack.push(frame);
    assert(frame_views(stack@) =~= frame_views(old(stack)@).push(frame@));
}

/// Closes the innermost container.
fn pop_frame(stack: &mut Vec<MetadataFrame>) -> (frame: Option<MetadataFrame>)
    requires
        are_ordered_frames(old(stack)@),
    ensures
        match frame {
            Some(frame) => {
                &&& old(stack)@.len() > 0
                &&& is_ordered_frame(frame)
                &&& are_ordered_frames(final(stack)@)
                &&& frame@ == frame_views(old(stack)@).last()
                &&& frame_views(final(stack)@) == frame_views(old(stack)@).drop_last()
            },
            None => old(stack)@.len() == 0 && final(stack)@ == old(stack)@,
        },
{
    let ghost before = stack@;
    let frame = stack.pop();
    proof {
        if before.len() > 0 {
            assert(is_ordered_frame(before[before.len() - 1]));
            assert forall|i: int| 0 <= i < stack@.len() implies is_ordered_frame(
                #[trigger] stack@[i],
            ) by {
                assert(stack@[i] == before[i]);
            }
            assert(frame_views(stack@) =~= frame_views(before).drop_last());
        }
    }
    frame
}

/// Builds the one value that a balanced traversal describes.
pub fn metadata_value(events: &[MetadataEvent<'_>]) -> (result: Result<
    RangeIndexValue,
    KvIrArchiveFailure,
>)
    ensures
        match result {
            Ok(value) => metadata_meaning(events@) == Ok::<RangeTree, KvIrArchiveFailure>(
                tree_of(value),
            ) && is_ordered_value(value),
            Err(failure) => metadata_meaning(events@) == Err::<RangeTree, KvIrArchiveFailure>(
                failure,
            ),
        },
{
    let failure = KvIrArchiveFailure::Invalid(KvIrArchiveInvalidData::MetadataTraversal);
    let mut stack: Vec<MetadataFrame> = Vec::new();
    let mut root: Option<RangeIndexValue> = None;
    assert(frame_views(stack@) =~= Seq::<FrameView>::empty());
    let ghost target = with_metadata_events(
        MetadataState { stack: Seq::empty(), root: None },
        events@,
        0,
    );
    let mut at: usize = 0;
    while at < events.len()
        invariant
            at <= events@.len(),
            are_ordered_frames(stack@),
            root matches Some(root) ==> is_ordered_value(root),
            failure == traversal_failure(),
            target == with_metadata_events(
                MetadataState { stack: Seq::empty(), root: None },
                events@,
                0,
            ),
            with_metadata_events(
                MetadataState { stack: frame_views(stack@), root: root_view(root) },
                events@,
                at as int,
            ) == target,
        decreases events@.len() - at,
    {
        match events[at] {
            MetadataEvent::ObjectStart => {
                let fields: Vec<RangeIndexField> = Vec::new();
                assert(field_trees(fields@) =~= Map::<Seq<u8>, RangeTree>::empty());
                push_frame(&mut stack, MetadataFrame::Object { fields, pending_key: None });
            },
            MetadataEvent::ArrayStart => {
                let values: Vec<RangeIndexValue> = Vec::new();
                assert(value_trees(values@) =~= Seq::<RangeTree>::empty());
                push_frame(&mut stack, MetadataFrame::Array(values));
            },
            MetadataEvent::ObjectEnd => {
                match pop_frame(&mut stack) {
                    Some(MetadataFrame::Object { fields, pending_key: None }) => {
                        proof {
                            lemma_container_trees(fields, arbitrary());
                        }
                        push_metadata_value(
                            &mut stack,
                            &mut root,
                            RangeIndexValue::Object(fields),
                        )?;
                    },
                    _ => {
                        return Err(failure);
                    },
                }
            },
            MetadataEvent::ArrayEnd => {
                match pop_frame(&mut stack) {
                    Some(MetadataFrame::Array(values)) => {
                        proof {
                            lemma_container_trees(arbitrary(), values);
                        }
                        push_metadata_value(
                            &mut stack,
                            &mut root,
                            RangeIndexValue::Array(values),
                        )?;
                    },
                    _ => {
                        return Err(failure);
                    },
                }
            },
            MetadataEvent::Key(key) => {
                match pop_frame(&mut stack) {
                    Some(MetadataFrame::Object { fields, pending_key: None }) => {
                        push_frame(
                            &mut stack,
                            MetadataFrame::Object { fields, pending_key: Some(slice_to_vec(key)) },
                        );
                    },
                    _ => {
                        return Err(failure);
                    },
                }
            },
            MetadataEvent::String(value) => {
                push_metadata_value(
                    &mut stack,
                    &mut root,
                    RangeIndexValue::String(slice_to_vec(value)),
                )?;
            },
            MetadataEvent::Number { source, bits } => {
                match metadata_number(source, bits) {
                    Ok(value) => {
                        push_metadata_value(&mut stack, &mut root, value)?;
                    },
                    Err(error) => {
                        return Err(KvIrArchiveFailure::MetadataNumber(error));
                    },
                }
            },
            MetadataEvent::Boolean(value) => {
                push_metadata_value(&mut stack, &mut root, RangeIndexValue::Boolean(value))?;
            },
            MetadataEvent::Null => {
                push_metadata_value(&mut stack, &mut root, RangeIndexValue::Null)?;
            },
        }
        at += 1;
    }
    if stack.len() > 0 {
        return Err(failure);
    }
    match root {
        Some(value) => Ok(value),
        None => Err(failure),
    }
}

/// Takes the user-defined fields out of the metadata.
pub fn user_defined_metadata(events: &[MetadataEvent<'_>]) -> (result: Result<
    Vec<RangeIndexField>,
    KvIrArchiveFailure,
>)
    ensures
        match result {
            Ok(fields) => user_fields(events@) == Ok::<
                Map<Seq<u8>, RangeTree>,
                KvIrArchiveFailure,
            >(field_trees(fields@)) && is_ordered(fields@),
            Err(failure) => user_fields(events@) == Err::<
                Map<Seq<u8>, RangeTree>,
                KvIrArchiveFailure,
            >(failure),
        },
{
    let failure = KvIrArchiveFailure::Invalid(KvIrArchiveInvalidData::MetadataTraversal);
    let mut root = match metadata_value(events)? {
        RangeIndexValue::Object(root) => {
            proof {
                lemma_container_trees(root, arbitrary());
            }
            root
        },
        _ => {
            return Err(failure);
        },
    };
    let name = "USER_DEFINED_METADATA".as_bytes();
    let mut at: usize = 0;
    while at < root.len()
        invariant
            at <= root@.len(),
            name@ == user_part_name(),
            failure == traversal_failure(),
            metadata_meaning(events@) == Ok::<RangeTree, KvIrArchiveFailure>(
                RangeTree::Object(field_trees(root@)),
            ),
            is_ordered_value(RangeIndexValue::Object(root)),
            forall|i: int| 0 <= i < at ==> #[trigger] root@[i].name@ != name@,
        decreases root@.len() - at,
    {
        if bytes_equal(root[at].name.as_slice(), name) {
            proof {
                lemma_name_place(root@, at as int);
                assert(is_ordered_value(root@[at as int].value));
            }
            let field = root.swap_remove(at);
            return match field.value {
                RangeIndexValue::Object(fields) => {
                    proof {
                        lemma_container_trees(fields, arbitrary());
                    }
                    Ok(fields)
                },
                _ => Err(failure),
            };
        }
        at += 1;
    }
    let none: Vec<RangeIndexField> = Vec::new();
    assert(field_trees(none@) =~= Map::<Seq<u8>, RangeTree>::empty());
    Ok(none)
}

} // verus!
