//! What the packets of a stream say to a reader: every number, string, text and node that was
//! staged is read back as it was.

use vstd::prelude::*;

use crate::clp_text::{
    dictionary_entries, dictionary_tags, encoded_text, logtype_of, logtype_tags, packed_variables,
    text_packet, variable_packets, variables_of, with_clp_text, TextVariable,
};
use crate::kv_ir::{KvIrEncodedVariable, KvIrEncoding, KvIrNodeType};
use crate::kv_ir_serializer::{
    header_type, node_tags, parent_tags, preamble, scalar_leaf, stage_tree, committed,
    string_tags, with_declaration, with_end, with_entry, with_event, with_found_node, with_leaf,
    with_primitive, with_utc_offset, EventRules, PrimitiveView, SerializerView, Stage,
};
use crate::kv_ir_text::{with_text, EncodedTextView, GrowthLimits, TextFailure};
use crate::msgpack::{header_at, map_key_at, Cursor, HeaderView, Source};
use crate::schema_tree::{has_identity, lemma_node_from, NodeView};
use crate::serializer_options::KvIrSerializerError;
use crate::stage::{
    be16_bytes, be32_bytes, be64_bytes, node_number, string_packet, variable_packet,
    with_integer_value, with_node_id, with_string, WidthTags,
};
use crate::text_laws::{are_nameable, fits, messages_survive, texts_are_staged_whole};

verus! {

/// A power of 256.
pub open spec fn power_of_256(count: nat) -> int
    decreases count,
{
    if count == 0 {
        1
    } else {
        256 * power_of_256((count - 1) as nat)
    }
}

/// The unsigned number that bytes spell, the most significant first.
pub open spec fn big_endian(bytes: Seq<u8>) -> int
    decreases bytes.len(),
{
    if bytes.len() == 0 {
        0
    } else {
        256 * big_endian(bytes.drop_last()) + bytes.last()
    }
}

/// The signed number that bytes spell, the most significant first: the first bit counts as
/// negative.
pub open spec fn twos_complement(bytes: Seq<u8>) -> int {
    if bytes.len() > 0 && bytes[0] >= 0x80 {
        big_endian(bytes) - power_of_256(bytes.len())
    } else {
        big_endian(bytes)
    }
}

pub proof fn lemma_big_endian_concat(high: Seq<u8>, low: Seq<u8>)
    ensures
        big_endian(high + low) == big_endian(high) * power_of_256(low.len()) + big_endian(low),
    decreases low.len(),
{
    let whole = high + low;
    if low.len() == 0 {
        assert(whole =~= high);
    } else {
        lemma_big_endian_concat(high, low.drop_last());
        assert(whole.drop_last() =~= high + low.drop_last());
        let power = power_of_256((low.len() - 1) as nat);
        assert(256 * (big_endian(high) * power) == big_endian(high) * (256 * power))
            by (nonlinear_arith);
    }
}

pub proof fn lemma_one_byte(byte: u8)
    ensures
        big_endian(seq![byte]) == byte,
        power_of_256(1) == 0x100,
        power_of_256(2) == 0x1_0000,
        power_of_256(4) == 0x1_0000_0000,
        power_of_256(8) == 0x1_0000_0000_0000_0000,
{
    assert(seq![byte].drop_last() =~= Seq::<u8>::empty());
    reveal_with_fuel(big_endian, 2);
    reveal_with_fuel(power_of_256, 9);
}

proof fn lemma_be16(value: int)
    requires
        0 <= value < 0x1_0000,
    ensures
        be16_bytes(value).len() == 2,
        big_endian(be16_bytes(value)) == value,
        be16_bytes(value)[0] == value / 0x100,
{
    let high = seq![(value / 0x100) as u8];
    let low = seq![(value % 0x100) as u8];
    lemma_one_byte(high[0]);
    lemma_one_byte(low[0]);
    lemma_big_endian_concat(high, low);
    assert(be16_bytes(value) =~= high + low);
}

proof fn lemma_be32(value: int)
    requires
        0 <= value < 0x1_0000_0000,
    ensures
        be32_bytes(value).len() == 4,
        big_endian(be32_bytes(value)) == value,
        be32_bytes(value)[0] == value / 0x100_0000,
{
    let high = value / 0x1_0000;
    let low = value % 0x1_0000;
    lemma_be16(high);
    lemma_be16(low);
    lemma_one_byte(0);
    lemma_big_endian_concat(be16_bytes(high), be16_bytes(low));
}

proof fn lemma_be64(value: int)
    requires
        0 <= value < 0x1_0000_0000_0000_0000,
    ensures
        be64_bytes(value).len() == 8,
        big_endian(be64_bytes(value)) == value,
        be64_bytes(value)[0] == value / 0x100_0000_0000_0000,
{
    let high = value / 0x1_0000_0000;
    let low = value % 0x1_0000_0000;
    lemma_be32(high);
    lemma_be32(low);
    lemma_one_byte(0);
    lemma_big_endian_concat(be32_bytes(high), be32_bytes(low));
}

proof fn lemma_signed8(value: int)
    requires
        -0x80 <= value < 0x80,
    ensures
        value % 0x100 == (if value < 0 {
            value + 0x100
        } else {
            value
        }),
        seq![(value % 0x100) as u8].len() == 1,
        twos_complement(seq![(value % 0x100) as u8]) == value,
{
    let low = value % 0x100;
    assert(low == (if value < 0 {
        value + 0x100
    } else {
        value
    }));
    lemma_one_byte(0);
    lemma_one_byte(low as u8);
    assert(seq![(value % 0x100) as u8][0] == low / 1);
}

proof fn lemma_signed16(value: int)
    requires
        -0x8000 <= value < 0x8000,
    ensures
        value % 0x1_0000 == (if value < 0 {
            value + 0x1_0000
        } else {
            value
        }),
        be16_bytes(value % 0x1_0000).len() == 2,
        twos_complement(be16_bytes(value % 0x1_0000)) == value,
{
    let low = value % 0x1_0000;
    assert(low == (if value < 0 {
        value + 0x1_0000
    } else {
        value
    }));
    lemma_one_byte(0);
    lemma_be16(low);
    assert(be16_bytes(value % 0x1_0000)[0] == low / 0x100);
}

proof fn lemma_signed32(value: int)
    requires
        -0x8000_0000 <= value < 0x8000_0000,
    ensures
        value % 0x1_0000_0000 == (if value < 0 {
            value + 0x1_0000_0000
        } else {
            value
        }),
        be32_bytes(value % 0x1_0000_0000).len() == 4,
        twos_complement(be32_bytes(value % 0x1_0000_0000)) == value,
{
    let low = value % 0x1_0000_0000;
    assert(low == (if value < 0 {
        value + 0x1_0000_0000
    } else {
        value
    }));
    lemma_one_byte(0);
    lemma_be32(low);
    assert(be32_bytes(value % 0x1_0000_0000)[0] == low / 0x100_0000);
}

proof fn lemma_signed64(value: int)
    requires
        -0x8000_0000_0000_0000 <= value < 0x8000_0000_0000_0000,
    ensures
        value % 0x1_0000_0000_0000_0000 == (if value < 0 {
            value + 0x1_0000_0000_0000_0000
        } else {
            value
        }),
        be64_bytes(value % 0x1_0000_0000_0000_0000).len() == 8,
        twos_complement(be64_bytes(value % 0x1_0000_0000_0000_0000)) == value,
{
    let low = value % 0x1_0000_0000_0000_0000;
    assert(low == (if value < 0 {
        value + 0x1_0000_0000_0000_0000
    } else {
        value
    }));
    lemma_one_byte(0);
    lemma_be64(low);
    assert(be64_bytes(value % 0x1_0000_0000_0000_0000)[0] == low / 0x100_0000_0000_0000);
}

/// The unsigned number of `width` bytes at `at`, and the offset after it.
pub open spec fn number_read(bytes: Seq<u8>, at: int, width: int) -> Option<(int, int)> {
    if 0 <= at && at + width <= bytes.len() {
        Some((big_endian(bytes.subrange(at, at + width)), at + width))
    } else {
        None
    }
}

/// The signed number of `width` bytes at `at`, and the offset after it.
pub open spec fn signed_read(bytes: Seq<u8>, at: int, width: int) -> Option<(int, int)> {
    if 0 <= at && at + width <= bytes.len() {
        Some((twos_complement(bytes.subrange(at, at + width)), at + width))
    } else {
        None
    }
}

/// Bytes of the number that follows one of three tags in a row: one, two or four.
pub open spec fn width_named(tag: u8, first: u8) -> Option<int> {
    if tag == first {
        Some(1)
    } else if tag == first + 1 {
        Some(2)
    } else if tag == first + 2 {
        Some(4)
    } else {
        None
    }
}

/// The string at `at`, whose tag is one of three in a row and names the width of its length, and
/// the offset after it.
#[verifier::opaque]
pub open spec fn string_read(bytes: Seq<u8>, at: int, first: u8) -> Option<(Seq<u8>, int)> {
    if !(0 <= at < bytes.len()) {
        None
    } else {
        match width_named(bytes[at], first) {
            None => None,
            Some(width) => match number_read(bytes, at + 1, width) {
                None => None,
                Some((length, start)) => if start + length <= bytes.len() {
                    Some((bytes.subrange(start, start + length), start + length))
                } else {
                    None
                },
            },
        }
    }
}

/// The node at `at`, whose tag is one of three in a row and names the width of its number, and the
/// offset after it. A negative number is the complement of a node of the auto-generated namespace.
#[verifier::opaque]
pub open spec fn node_read(bytes: Seq<u8>, at: int, first: u8) -> Option<(bool, int, int)> {
    if !(0 <= at < bytes.len()) {
        None
    } else {
        match width_named(bytes[at], first) {
            None => None,
            Some(width) => match signed_read(bytes, at + 1, width) {
                None => None,
                Some((number, next)) => if number < 0 {
                    Some((true, -1 - number, next))
                } else {
                    Some((false, number, next))
                },
            },
        }
    }
}

/// The parts of an encoded text from `at` on, after those that were read before, and the offset
/// after its logtype, which comes last.
#[verifier::opaque]
pub open spec fn text_parts_read(bytes: Seq<u8>, at: int, before: EncodedTextView) -> Option<
    (EncodedTextView, int),
>
    decreases bytes.len() - at,
{
    if !(0 <= at < bytes.len()) {
        None
    } else if bytes[at] == 0x18 {
        match signed_read(bytes, at + 1, 4) {
            Some((number, next)) => if at < next <= bytes.len() {
                text_parts_read(
                    bytes,
                    next,
                    EncodedTextView {
                        variables: before.variables.push(
                            KvIrEncodedVariable::FourByte(number as i32),
                        ),
                        ..before
                    },
                )
            } else {
                None
            },
            None => None,
        }
    } else if bytes[at] == 0x19 {
        match signed_read(bytes, at + 1, 8) {
            Some((number, next)) => if at < next <= bytes.len() {
                text_parts_read(
                    bytes,
                    next,
                    EncodedTextView {
                        variables: before.variables.push(
                            KvIrEncodedVariable::EightByte(number as i64),
                        ),
                        ..before
                    },
                )
            } else {
                None
            },
            None => None,
        }
    } else if width_named(bytes[at], 0x11) is Some {
        match string_read(bytes, at, 0x11) {
            Some((entry, next)) => if at < next <= bytes.len() {
                text_parts_read(
                    bytes,
                    next,
                    EncodedTextView { dictionary: before.dictionary.push(entry), ..before },
                )
            } else {
                None
            },
            None => None,
        }
    } else {
        match string_read(bytes, at, 0x21) {
            Some((logtype, next)) => Some((EncodedTextView { logtype, ..before }, next)),
            None => None,
        }
    }
}

/// A value as it stands in a stream.
pub enum WireValue {
    Nil,
    Boolean(bool),
    Integer(int),
    /// A binary64 value by its bits.
    Float(int),
    String(Seq<u8>),
    Text(EncodedTextView),
    EmptyObject,
}

pub open spec fn no_text(encoding: KvIrEncoding) -> EncodedTextView {
    EncodedTextView {
        encoding,
        variables: Seq::empty(),
        dictionary: Seq::empty(),
        logtype: Seq::empty(),
    }
}

/// The value at `at`, and the offset after it.
#[verifier::opaque]
pub open spec fn value_read(bytes: Seq<u8>, at: int) -> Option<(WireValue, int)> {
    if !(0 <= at < bytes.len()) {
        None
    } else {
        let tag = bytes[at];
        if 0x51 <= tag <= 0x54 {
            let width = if tag == 0x51 {
                1
            } else if tag == 0x52 {
                2
            } else if tag == 0x53 {
                4
            } else {
                8int
            };
            match signed_read(bytes, at + 1, width) {
                Some((number, next)) => Some((WireValue::Integer(number), next)),
                None => None,
            }
        } else if tag == 0x56 {
            match number_read(bytes, at + 1, 8) {
                Some((bits, next)) => Some((WireValue::Float(bits), next)),
                None => None,
            }
        } else if tag == 0x57 {
            Some((WireValue::Boolean(true), at + 1))
        } else if tag == 0x58 {
            Some((WireValue::Boolean(false), at + 1))
        } else if tag == 0x59 || tag == 0x5a {
            let encoding = if tag == 0x59 {
                KvIrEncoding::FourByte
            } else {
                KvIrEncoding::EightByte
            };
            match text_parts_read(bytes, at + 1, no_text(encoding)) {
                Some((text, next)) => Some((WireValue::Text(text), next)),
                None => None,
            }
        } else if tag == 0x5e {
            Some((WireValue::EmptyObject, at + 1))
        } else if tag == 0x5f {
            Some((WireValue::Nil, at + 1))
        } else {
            match string_read(bytes, at, 0x41) {
                Some((text, next)) => Some((WireValue::String(text), next)),
                None => None,
            }
        }
    }
}

/// Whether an encoded text reads so, wherever there is room for it.
#[verifier::opaque]
pub open spec fn reads_as(text: EncodedTextView, content: Seq<u8>) -> bool {
    forall|output: Seq<u8>, limits: GrowthLimits|
        limits.value_start <= output.len() && fits(limits, (output.len() + content.len()) as int)
            ==> #[trigger] with_text(output, limits, text, 0, 0, 0) == Ok::<Seq<u8>, TextFailure>(
            output + content,
        )
}

/// Whether a value of a stream is the leaf that was staged. A text may stand as a string or as an
/// encoded text that reads as it.
pub open spec fn is_leaf(read: WireValue, value: PrimitiveView, encoding: KvIrEncoding) -> bool {
    match value {
        PrimitiveView::Nil => read is Nil,
        PrimitiveView::Boolean(truth) => read matches WireValue::Boolean(same) && same == truth,
        PrimitiveView::Integer(number) => read matches WireValue::Integer(same) && same == number,
        PrimitiveView::Float(bits) => read matches WireValue::Float(same) && same == bits,
        PrimitiveView::String(text) => {
            ||| read matches WireValue::String(same) && same == text
            ||| read matches WireValue::Text(same) && same.encoding == encoding && reads_as(
                same,
                text,
            ) && text.contains(0x20)
        },
        PrimitiveView::EncodedText(text) => read matches WireValue::Text(same) && same.encoding
            == encoding && reads_as(same, text),
        PrimitiveView::EmptyObject => read is EmptyObject,
    }
}

proof fn lemma_number_at(before: Seq<u8>, number: Seq<u8>, rest: Seq<u8>)
    ensures
        (before + number + rest).subrange(
            before.len() as int,
            (before.len() + number.len()) as int,
        ) == number,
{
    assert((before + number + rest).subrange(
        before.len() as int,
        (before.len() + number.len()) as int,
    ) =~= number);
}

/// An integer is read back from its packet as the number that it was, whatever its width.
pub proof fn integers_read_back(output: Seq<u8>, value: i64, limit: u64, rest: Seq<u8>)
    ensures
        with_integer_value(output, value, limit) matches Ok(after) ==> {
            &&& output.len() < after.len()
            &&& after.take(output.len() as int) == output
            &&& value_read(after + rest, output.len() as int) == Some(
                (WireValue::Integer(value as int), after.len() as int),
            )
        },
{
    reveal(value_read);
    match with_integer_value(output, value, limit) {
        Ok(after) => {
            assert(after.take(output.len() as int) =~= output);
            let start = output.len() as int + 1;
            let number = after.skip(start);
            lemma_number_at(after.take(start), number, rest);
            assert(after.take(start) + number + rest =~= after + rest);
            if -0x80 <= value <= 0x7f {
                lemma_signed8(value as int);
                assert(number =~= seq![(value as int % 0x100) as u8]);
            } else if -0x8000 <= value <= 0x7fff {
                lemma_signed16(value as int);
                assert(number =~= be16_bytes(value as int % 0x1_0000));
            } else if -0x8000_0000 <= value <= 0x7fff_ffff {
                lemma_signed32(value as int);
                assert(number =~= be32_bytes(value as int % 0x1_0000_0000));
            } else {
                lemma_signed64(value as int);
                assert(number =~= be64_bytes(value as int % 0x1_0000_0000_0000_0000));
            }
        },
        Err(_) => {},
    }
}

/// An integer takes the fewest bytes that it fits into.
pub proof fn integers_are_narrow(output: Seq<u8>, value: i64, limit: u64)
    ensures
        with_integer_value(output, value, limit) matches Ok(after) ==> after.len() - output.len()
            == 1 + (if -128 <= value <= 127 {
            1int
        } else if -32_768 <= value <= 32_767 {
            2
        } else if -2_147_483_648 <= value <= 2_147_483_647 {
            4
        } else {
            8
        }),
{
}

proof fn lemma_node_read(
    before: Seq<u8>,
    tag: u8,
    number: Seq<u8>,
    rest: Seq<u8>,
    first: u8,
)
    requires
        width_named(tag, first) == Some(number.len() as int),
    ensures
        ({
            let value = twos_complement(number);
            let next = (before.len() + 1 + number.len()) as int;
            node_read(before + (seq![tag] + number) + rest, before.len() as int, first) == Some(
                if value < 0 {
                    (true, -1 - value, next)
                } else {
                    (false, value, next)
                },
            )
        }),
{
    reveal(node_read);
    let whole = before + (seq![tag] + number) + rest;
    let start = before.len() as int + 1;
    assert(whole[before.len() as int] == tag);
    assert(whole.subrange(start, start + number.len()) =~= number);
}

/// Tag and number of a node.
spec fn node_packet(node_id: u32, auto_generated: bool, tags: WidthTags) -> (u8, Seq<u8>) {
    if node_id <= 0x7f {
        (tags.one, seq![node_number(node_id, auto_generated, 0x100) as u8])
    } else if node_id <= 0x7fff {
        (tags.two, be16_bytes(node_number(node_id, auto_generated, 0x1_0000)))
    } else {
        (tags.four, be32_bytes(node_number(node_id, auto_generated, 0x1_0000_0000)))
    }
}

proof fn lemma_node_packet(
    output: Seq<u8>,
    node_id: u32,
    auto_generated: bool,
    tags: WidthTags,
    limit: u64,
)
    ensures
        with_node_id(output, node_id, auto_generated, tags, limit) matches Ok(after) ==> node_id
            <= 0x7fff_ffff && ({
            let (tag, number) = node_packet(node_id, auto_generated, tags);
            after == output + (seq![tag] + number)
        }),
{
    match with_node_id(output, node_id, auto_generated, tags, limit) {
        Ok(after) => {
            let (tag, number) = node_packet(node_id, auto_generated, tags);
            assert(after =~= output + (seq![tag] + number));
        },
        Err(_) => {},
    }
}

proof fn lemma_node_number(node_id: u32, auto_generated: bool, tags: WidthTags)
    requires
        node_id <= 0x7fff_ffff,
        tags.two == tags.one + 1,
        tags.four == tags.one + 2,
    ensures
        ({
            let (tag, number) = node_packet(node_id, auto_generated, tags);
            &&& width_named(tag, tags.one) == Some(number.len() as int)
            &&& twos_complement(number) == (if auto_generated {
                -1 - node_id
            } else {
                node_id as int
            })
        }),
{
    let value = if auto_generated {
        -1 - node_id
    } else {
        node_id as int
    };
    if node_id <= 0x7f {
        lemma_signed8(value);
        assert(value % 0x100 == node_number(node_id, auto_generated, 0x100));
    } else if node_id <= 0x7fff {
        lemma_signed16(value);
        assert(value % 0x1_0000 == node_number(node_id, auto_generated, 0x1_0000));
    } else {
        lemma_signed32(value);
        assert(value % 0x1_0000_0000 == node_number(node_id, auto_generated, 0x1_0000_0000));
    }
}

/// A node is read back from its packet, with its namespace.
pub proof fn nodes_read_back(
    output: Seq<u8>,
    node_id: u32,
    auto_generated: bool,
    tags: WidthTags,
    limit: u64,
    rest: Seq<u8>,
)
    requires
        tags.two == tags.one + 1,
        tags.four == tags.one + 2,
    ensures
        with_node_id(output, node_id, auto_generated, tags, limit) matches Ok(after) ==> {
            &&& output.len() < after.len()
            &&& after.take(output.len() as int) == output
            &&& node_read(after + rest, output.len() as int, tags.one) == Some(
                (auto_generated, node_id as int, after.len() as int),
            )
        },
{
    lemma_node_packet(output, node_id, auto_generated, tags, limit);
    if with_node_id(output, node_id, auto_generated, tags, limit) is Ok {
        let after = with_node_id(output, node_id, auto_generated, tags, limit)->Ok_0;
        let (tag, number) = node_packet(node_id, auto_generated, tags);
        lemma_node_number(node_id, auto_generated, tags);
        lemma_node_read(output, tag, number, rest, tags.one);
        assert(after.take(output.len() as int) =~= output);
    }
}

proof fn lemma_packet_string(before: Seq<u8>, value: Seq<u8>, tags: WidthTags, rest: Seq<u8>)
    requires
        tags.two == tags.one + 1,
        tags.four == tags.one + 2,
        value.len() <= 0xffff_ffff,
    ensures
        string_packet(value, tags).len() > 0,
        width_named(string_packet(value, tags)[0], tags.one) is Some,
        string_read(before + string_packet(value, tags) + rest, before.len() as int, tags.one)
            == Some((value, (before.len() + string_packet(value, tags).len()) as int)),
{
    reveal(string_read);
    let packet = string_packet(value, tags);
    let whole = before + packet + rest;
    let length = value.len() as int;
    lemma_one_byte(length as u8);
    if length <= 0xffff {
        lemma_be16(length);
    }
    lemma_be32(length);
    let width = if length <= 0xff {
        1
    } else if length <= 0xffff {
        2
    } else {
        4int
    };
    let start = before.len() as int + 1;
    let number = packet.subrange(1, 1 + width);
    assert(whole.subrange(start, start + width) =~= number);
    if length <= 0xff {
        assert(number =~= seq![length as u8]);
    } else if length <= 0xffff {
        assert(number =~= be16_bytes(length));
    } else {
        assert(number =~= be32_bytes(length));
    }
    assert(whole[before.len() as int] == packet[0]);
    assert(whole.subrange(start + width, start + width + length) =~= value);
}

/// A string is read back from its packet.
pub proof fn strings_read_back(
    output: Seq<u8>,
    value: Seq<u8>,
    tags: WidthTags,
    limit: u64,
    rest: Seq<u8>,
)
    requires
        tags.two == tags.one + 1,
        tags.four == tags.one + 2,
    ensures
        with_string(output, value, tags, limit) matches Ok(after) ==> {
            &&& output.len() < after.len()
            &&& after.take(output.len() as int) == output
            &&& string_read(after + rest, output.len() as int, tags.one) == Some(
                (value, after.len() as int),
            )
        },
{
    crate::stage::lemma_string_packet(output, value, tags, limit);
    match with_string(output, value, tags, limit) {
        Ok(after) => {
            lemma_packet_string(output, value, tags, rest);
            assert(after.take(output.len() as int) =~= output);
        },
        Err(_) => {},
    }
}

proof fn lemma_text_part(
    before: Seq<u8>,
    kept: TextVariable,
    rest: Seq<u8>,
    read: EncodedTextView,
)
    requires
        kept matches TextVariable::Dictionary(entry) ==> entry.len() <= 0xffff_ffff,
    ensures
        ({
            let packet = match kept {
                TextVariable::Float(value) => variable_packet(value),
                TextVariable::Integer(value) => variable_packet(value),
                TextVariable::Dictionary(entry) => string_packet(entry, dictionary_tags()),
            };
            let next = match kept {
                TextVariable::Float(value) => EncodedTextView {
                    variables: read.variables.push(value),
                    ..read
                },
                TextVariable::Integer(value) => EncodedTextView {
                    variables: read.variables.push(value),
                    ..read
                },
                TextVariable::Dictionary(entry) => EncodedTextView {
                    dictionary: read.dictionary.push(entry),
                    ..read
                },
            };
            text_parts_read(before + packet + rest, before.len() as int, read) == text_parts_read(
                before + packet + rest,
                (before.len() + packet.len()) as int,
                next,
            )
        }),
{
    match kept {
        TextVariable::Dictionary(entry) => {
            lemma_packet_string(before, entry, dictionary_tags(), rest);
            let packet = string_packet(entry, dictionary_tags());
            assert((before + packet + rest)[before.len() as int] == packet[0]);
            reveal(text_parts_read);
        },
        TextVariable::Float(value) => {
            lemma_variable_part(before, value, rest, read);
        },
        TextVariable::Integer(value) => {
            lemma_variable_part(before, value, rest, read);
        },
    }
}

proof fn lemma_variable_part(
    before: Seq<u8>,
    value: KvIrEncodedVariable,
    rest: Seq<u8>,
    read: EncodedTextView,
)
    ensures
        ({
            let packet = variable_packet(value);
            text_parts_read(before + packet + rest, before.len() as int, read) == text_parts_read(
                before + packet + rest,
                (before.len() + packet.len()) as int,
                EncodedTextView { variables: read.variables.push(value), ..read },
            )
        }),
{
    reveal(text_parts_read);
    let packet = variable_packet(value);
    let whole = before + packet + rest;
    let start = before.len() as int + 1;
    assert(whole[before.len() as int] == packet[0]);
    match value {
        KvIrEncodedVariable::FourByte(number) => {
            let bytes = be32_bytes(number as int % 0x1_0000_0000);
            lemma_signed32(number as int);
            assert(whole.subrange(start, start + 4) =~= bytes);
        },
        KvIrEncodedVariable::EightByte(number) => {
            let bytes = be64_bytes(number as int % 0x1_0000_0000_0000_0000);
            lemma_signed64(number as int);
            assert(whole.subrange(start, start + 8) =~= bytes);
        },
    }
}

proof fn lemma_text_end(before: Seq<u8>, logtype: Seq<u8>, rest: Seq<u8>, read: EncodedTextView)
    requires
        logtype.len() <= 0xffff_ffff,
    ensures
        ({
            let packet = string_packet(logtype, logtype_tags());
            text_parts_read(before + packet + rest, before.len() as int, read) == Some(
                (
                    EncodedTextView { logtype, ..read },
                    (before.len() + packet.len()) as int,
                ),
            )
        }),
{
    reveal(text_parts_read);
    let packet = string_packet(logtype, logtype_tags());
    lemma_packet_string(before, logtype, logtype_tags(), rest);
    assert((before + packet + rest)[before.len() as int] == packet[0]);
}

proof fn lemma_text_parts(
    before: Seq<u8>,
    variables: Seq<TextVariable>,
    logtype: Seq<u8>,
    rest: Seq<u8>,
    read: EncodedTextView,
)
    requires
        are_nameable(variables),
        logtype.len() <= 0xffff_ffff,
    ensures
        ({
            let packets = variable_packets(variables) + string_packet(logtype, logtype_tags());
            text_parts_read(before + packets + rest, before.len() as int, read) == Some(
                (
                    EncodedTextView {
                        encoding: read.encoding,
                        variables: read.variables + packed_variables(variables),
                        dictionary: read.dictionary + dictionary_entries(variables),
                        logtype,
                    },
                    (before.len() + packets.len()) as int,
                ),
            )
        }),
    decreases variables.len(),
{
    let last = string_packet(logtype, logtype_tags());
    let packets = variable_packets(variables) + last;
    if variables.len() == 0 {
        lemma_text_end(before, logtype, rest, read);
        assert(packets =~= last);
        assert(read.variables + packed_variables(variables) =~= read.variables);
        assert(read.dictionary + dictionary_entries(variables) =~= read.dictionary);
    } else {
        let others = variables.drop_first();
        assert forall|i: int| 0 <= i < others.len() implies (
        #[trigger] others[i] matches TextVariable::Dictionary(entry) ==> entry.len()
            <= 0xffff_ffff) by {
            assert(others[i] == variables[i + 1]);
        }
        let first = match variables[0] {
            TextVariable::Float(value) => variable_packet(value),
            TextVariable::Integer(value) => variable_packet(value),
            TextVariable::Dictionary(entry) => string_packet(entry, dictionary_tags()),
        };
        let next = match variables[0] {
            TextVariable::Float(value) => EncodedTextView {
                variables: read.variables.push(value),
                ..read
            },
            TextVariable::Integer(value) => EncodedTextView {
                variables: read.variables.push(value),
                ..read
            },
            TextVariable::Dictionary(entry) => EncodedTextView {
                dictionary: read.dictionary.push(entry),
                ..read
            },
        };
        let behind = variable_packets(others) + last;
        lemma_text_part(before, variables[0], behind + rest, read);
        lemma_text_parts(before + first, others, logtype, rest, next);
        assert(before + first + (behind + rest) =~= before + packets + rest);
        assert(before + first + behind + rest =~= before + packets + rest);
        assert(next.variables + packed_variables(others) =~= read.variables + packed_variables(
            variables,
        ));
        assert(next.dictionary + dictionary_entries(others) =~= read.dictionary
            + dictionary_entries(variables));
    }
}

/// A text is read back from its packet as an encoded text that reads as it.
pub proof fn texts_read_back(
    output: Seq<u8>,
    message: Seq<u8>,
    encoding: KvIrEncoding,
    limit: u64,
    rest: Seq<u8>,
)
    ensures
        with_clp_text(output, message, encoding, limit) matches Ok(after) ==> {
            &&& output.len() < after.len()
            &&& after.take(output.len() as int) == output
            &&& value_read(after + rest, output.len() as int) matches Some((
                WireValue::Text(text),
                next,
            )) && next == after.len() && text.encoding == encoding && reads_as(text, message)
        },
{
    reveal(value_read);
    reveal(reads_as);
    texts_are_staged_whole(output, message, encoding, limit);
    match with_clp_text(output, message, encoding, limit) {
        Ok(after) => {
            let tag = text_packet(message, encoding)[0];
            let variables = variables_of(message, encoding, 0);
            let logtype = logtype_of(message, encoding, 0);
            let tagged = output + seq![tag];
            lemma_text_parts(tagged, variables, logtype, rest, no_text(encoding));
            let packets = variable_packets(variables) + string_packet(logtype, logtype_tags());
            assert(after =~= tagged + packets);
            assert(tagged + packets + rest =~= after + rest);
            assert((after + rest)[output.len() as int] == tag);
            assert(after.take(output.len() as int) =~= output);
            let text = encoded_text(message, encoding);
            assert(no_text(encoding).variables + packed_variables(variables) =~= text.variables);
            assert(no_text(encoding).dictionary + dictionary_entries(variables)
                =~= text.dictionary);
            assert forall|other: Seq<u8>, limits: GrowthLimits|
                limits.value_start <= other.len() && fits(
                    limits,
                    (other.len() + message.len()) as int,
                ) implies #[trigger] with_text(other, limits, text, 0, 0, 0) == Ok::<
                Seq<u8>,
                TextFailure,
            >(other + message) by {
                messages_survive(other, limits, message, encoding);
            }
        },
        Err(_) => {},
    }
}

/// A leaf is read back from its packet as the value that it was.
#[verifier::rlimit(40)]
#[verifier::spinoff_prover]
pub proof fn values_read_back(
    rules: EventRules,
    output: Seq<u8>,
    value: PrimitiveView,
    rest: Seq<u8>,
)
    ensures
        with_primitive(rules, output, value) matches Ok(after) ==> {
            &&& output.len() < after.len()
            &&& after.take(output.len() as int) == output
            &&& value_read(after + rest, output.len() as int) matches Some((read, next)) && next
                == after.len() && is_leaf(read, value, rules.encoding)
        },
{
    let limit = rules.limits.event_output_bytes;
    match with_primitive(rules, output, value) {
        Err(_) => {},
        Ok(after) => {
            match value {
                PrimitiveView::Integer(number) => {
                    integers_read_back(output, number, limit, rest);
                },
                PrimitiveView::String(text) => {
                    if text.contains(0x20) {
                        texts_read_back(output, text, rules.encoding, limit, rest);
                    } else {
                        lemma_string_value(output, text, limit, rest);
                    }
                },
                PrimitiveView::EncodedText(text) => {
                    texts_read_back(output, text, rules.encoding, limit, rest);
                },
                PrimitiveView::Float(bits) => {
                    lemma_float_value(output, bits, rest);
                    assert(after =~= output + (seq![0x56u8] + be64_bytes(bits as int)));
                    assert(after.take(output.len() as int) =~= output);
                },
                _ => {
                    lemma_tag_value(output, after.last(), rest);
                    assert(after =~= output + seq![after.last()]);
                    assert(after.take(output.len() as int) =~= output);
                },
            }
        },
    }
}

proof fn lemma_string_value(output: Seq<u8>, text: Seq<u8>, limit: u64, rest: Seq<u8>)
    ensures
        with_string(output, text, string_tags(), limit) matches Ok(after) ==> {
            &&& output.len() < after.len()
            &&& after.take(output.len() as int) == output
            &&& value_read(after + rest, output.len() as int) == Some(
                (WireValue::String(text), after.len() as int),
            )
        },
{
    strings_read_back(output, text, string_tags(), limit, rest);
    crate::stage::lemma_string_packet(output, text, string_tags(), limit);
    match with_string(output, text, string_tags(), limit) {
        Ok(after) => {
            let packet = string_packet(text, string_tags());
            assert((after + rest)[output.len() as int] == packet[0]);
            reveal(value_read);
        },
        Err(_) => {},
    }
}

proof fn lemma_float_value(output: Seq<u8>, bits: u64, rest: Seq<u8>)
    ensures
        value_read(
            output + (seq![0x56u8] + be64_bytes(bits as int)) + rest,
            output.len() as int,
        ) == Some((WireValue::Float(bits as int), output.len() as int + 9)),
{
    reveal(value_read);
    let at = output.len() as int;
    let whole = output + (seq![0x56u8] + be64_bytes(bits as int)) + rest;
    lemma_be64(bits as int);
    assert(whole.subrange(at + 1, at + 9) =~= be64_bytes(bits as int));
    assert(whole[at] == 0x56);
}

proof fn lemma_tag_value(output: Seq<u8>, tag: u8, rest: Seq<u8>)
    ensures
        ({
            let read = value_read(output + seq![tag] + rest, output.len() as int);
            let next = output.len() as int + 1;
            &&& tag == 0x57 ==> read == Some((WireValue::Boolean(true), next))
            &&& tag == 0x58 ==> read == Some((WireValue::Boolean(false), next))
            &&& tag == 0x5e ==> read == Some((WireValue::EmptyObject, next))
            &&& tag == 0x5f ==> read == Some((WireValue::Nil, next))
        }),
{
    reveal(value_read);
    assert((output + seq![tag] + rest)[output.len() as int] == tag);
}

/// The node of a leaf is read back from the nodes of an event, and its value behind the node where
/// it is auto-generated, and otherwise behind the values that the user generated.
#[verifier::rlimit(40)]
#[verifier::spinoff_prover]
pub proof fn leaves_read_back(
    rules: EventRules,
    stage: Stage,
    auto_generated: bool,
    node_id: u32,
    value: PrimitiveView,
    rest: Seq<u8>,
)
    ensures
        with_leaf(rules, stage, auto_generated, node_id, value) matches Ok(after) ==> {
            let at = stage.sequential.len() as int;
            &&& after.sequential.len() > at
            &&& after.sequential.take(at) == stage.sequential
            &&& node_read(after.sequential + rest, at, 0x65) matches Some((own, node, next))
                && own == auto_generated && node == node_id && if auto_generated {
                &&& after.user_values == stage.user_values
                &&& value_read(after.sequential + rest, next) matches Some((read, end)) && end
                    == after.sequential.len() && is_leaf(read, value, rules.encoding)
            } else {
                let from = stage.user_values.len() as int;
                &&& next == after.sequential.len()
                &&& after.user_values.take(from) == stage.user_values
                &&& value_read(after.user_values + rest, from) matches Some((read, end)) && end
                    == after.user_values.len() && is_leaf(read, value, rules.encoding)
            }
            &&& after.schema == stage.schema
            &&& after.auto_schema == stage.auto_schema
            &&& after.user_schema == stage.user_schema
        },
{
    let limit = rules.limits.event_output_bytes;
    match with_node_id(stage.sequential, node_id, auto_generated, node_tags(), limit) {
        Err(_) => {},
        Ok(noded) => {
            if auto_generated {
                lemma_auto_leaf(rules, stage.sequential, node_id, value, rest);
            } else {
                nodes_read_back(
                    stage.sequential,
                    node_id,
                    auto_generated,
                    node_tags(),
                    limit,
                    rest,
                );
                values_read_back(rules, stage.user_values, value, rest);
            }
        },
    }
}

proof fn lemma_auto_leaf(
    rules: EventRules,
    sequential: Seq<u8>,
    node_id: u32,
    value: PrimitiveView,
    rest: Seq<u8>,
)
    ensures
        with_node_id(
            sequential,
            node_id,
            true,
            node_tags(),
            rules.limits.event_output_bytes,
        ) matches Ok(noded) ==> (with_primitive(rules, noded, value) matches Ok(after) ==> {
            let at = sequential.len() as int;
            &&& after.len() > at
            &&& after.take(at) == sequential
            &&& node_read(after + rest, at, 0x65) == Some(
                (true, node_id as int, noded.len() as int),
            )
            &&& value_read(after + rest, noded.len() as int) matches Some((read, end)) && end
                == after.len() && is_leaf(read, value, rules.encoding)
        }),
{
    let limit = rules.limits.event_output_bytes;
    let at = sequential.len() as int;
    match with_node_id(sequential, node_id, true, node_tags(), limit) {
        Err(_) => {},
        Ok(noded) => {
            match with_primitive(rules, noded, value) {
                Err(_) => {},
                Ok(after) => {
                    values_read_back(rules, noded, value, rest);
                    lemma_packet_before(sequential, node_id, true, node_tags(), limit, after, rest);
                },
            }
        },
    }
}

/// A node is read back whatever was appended behind it.
proof fn lemma_packet_before(
    output: Seq<u8>,
    node_id: u32,
    auto_generated: bool,
    tags: WidthTags,
    limit: u64,
    longer: Seq<u8>,
    rest: Seq<u8>,
)
    requires
        tags.two == tags.one + 1,
        tags.four == tags.one + 2,
        with_node_id(output, node_id, auto_generated, tags, limit) matches Ok(noded)
            && noded.len() <= longer.len() && longer.take(noded.len() as int) == noded,
    ensures
        with_node_id(output, node_id, auto_generated, tags, limit) matches Ok(noded)
            && output.len() < noded.len() && longer.take(output.len() as int) == output
            && node_read(longer + rest, output.len() as int, tags.one) == Some(
            (auto_generated, node_id as int, noded.len() as int),
        ),
{
    let noded = with_node_id(output, node_id, auto_generated, tags, limit)->Ok_0;
    let behind = longer.skip(noded.len() as int) + rest;
    nodes_read_back(output, node_id, auto_generated, tags, limit, behind);
    assert(noded + behind =~= longer + rest) by {
        assert(longer =~= longer.take(noded.len() as int) + longer.skip(noded.len() as int));
    }
    assert(longer.take(output.len() as int) =~= longer.take(noded.len() as int).take(
        output.len() as int,
    ));
}

/// The tag of a declaration, by the type that it declares.
pub open spec fn declares(tag: u8, node_type: KvIrNodeType) -> bool {
    match node_type {
        KvIrNodeType::Integer => tag == 0x71,
        KvIrNodeType::Float => tag == 0x72,
        KvIrNodeType::Boolean => tag == 0x73,
        KvIrNodeType::String => tag == 0x74,
        KvIrNodeType::UnstructuredArray => tag == 0x75,
        KvIrNodeType::Object => tag == 0x76,
    }
}

/// A declaration is read back: its type from its tag, then its parent with the namespace, then its
/// key.
#[verifier::rlimit(40)]
#[verifier::spinoff_prover]
pub proof fn declarations_read_back(
    schema: Seq<u8>,
    auto_generated: bool,
    node: NodeView,
    limit: u64,
    rest: Seq<u8>,
)
    ensures
        with_declaration(schema, auto_generated, node, limit) matches Ok(after) ==> {
            let at = schema.len() as int;
            &&& after.len() > at
            &&& after.take(at) == schema
            &&& declares(after[at], node.node_type)
            &&& node_read(after + rest, at + 1, 0x60) matches Some((own, parent, next)) && own
                == auto_generated && parent == node.parent_id && string_read(
                after + rest,
                next,
                0x41,
            ) == Some((node.key, after.len() as int))
        },
{
    let at = schema.len() as int;
    match with_declaration(schema, auto_generated, node, limit) {
        Err(_) => {},
        Ok(after) => {
            let tagged = schema + seq![crate::kv_ir_serializer::schema_tag(node.node_type)];
            let parented = with_node_id(
                tagged,
                node.parent_id,
                auto_generated,
                parent_tags(),
                limit,
            )->Ok_0;
            strings_read_back(parented, node.key, string_tags(), limit, rest);
            lemma_packet_before(
                tagged,
                node.parent_id,
                auto_generated,
                parent_tags(),
                limit,
                after,
                rest,
            );
            assert(after.take(at + 1) =~= parented.take(at + 1));
            assert(after.take(at) =~= after.take(at + 1).take(at));
            assert(tagged.take(at) =~= schema);
            assert(after[at] == after.take(at + 1)[at]);
        },
    }
}

/// A stream starts with its magic number, which names the width of its variables, with the byte that
/// announces metadata, and with the metadata behind its length.
pub proof fn preambles_read_back(encoding: KvIrEncoding, metadata: Seq<u8>)
    requires
        metadata.len() <= 0xffff,
    ensures
        ({
            let bytes = preamble(encoding, metadata);
            &&& bytes.len() > 6
            &&& bytes[0] == 0xfd && bytes[1] == 0x2f && bytes[2] == 0xb5
            &&& bytes[3] == (if encoding is FourByte {
                0x29u8
            } else {
                0x30
            })
            &&& bytes[4] == 0x01
            &&& string_read(bytes, 5, 0x11) == Some((metadata, bytes.len() as int))
        }),
{
    reveal(string_read);
    let bytes = preamble(encoding, metadata);
    let length = metadata.len() as int;
    lemma_one_byte(length as u8);
    lemma_be16(length);
    if length <= 0xff {
        assert(bytes.subrange(6, 7) =~= seq![length as u8]);
        assert(bytes.subrange(7, 7 + length) =~= metadata);
    } else {
        assert(bytes.subrange(6, 8) =~= be16_bytes(length));
        assert(bytes.subrange(8, 8 + length) =~= metadata);
    }
}

/// A change of the UTC offset makes its tag and the offset pending, and nothing else.
pub proof fn utc_offsets_read_back(view: SerializerView, offset: i64)
    ensures
        with_utc_offset(view, offset) matches Ok(next) ==> {
            let at = view.pending.len() as int;
            &&& !view.finished && !next.finished
            &&& next.pending.len() == at + 9
            &&& next.pending.take(at) == view.pending
            &&& next.pending[at] == 0x3f
            &&& signed_read(next.pending, at + 1, 8) == Some((offset as int, at + 9))
            &&& next.utc_offset == offset
            &&& next.stats.utc_offset_changes == view.stats.utc_offset_changes + 1
            &&& next.stats.serialized_bytes == view.stats.serialized_bytes + 9
            &&& next.stats.log_events == view.stats.log_events
            &&& next.stats.schema_nodes == view.stats.schema_nodes
            &&& next.auto_schema == view.auto_schema && next.user_schema == view.user_schema
        },
{
    lemma_signed64(offset as int);
    match with_utc_offset(view, offset) {
        Ok(next) => {
            let at = view.pending.len() as int;
            assert(next.pending.take(at) =~= view.pending);
            assert(next.pending.subrange(at + 1, at + 9) =~= be64_bytes(
                offset as int % 0x1_0000_0000_0000_0000,
            ));
        },
        Err(_) => {},
    }
}

/// The end of a stream makes one zero byte pending, once: nothing is taken after it.
pub proof fn streams_end_once(view: SerializerView, auto: Seq<u8>, user: Seq<u8>, offset: i64)
    ensures
        with_end(view) matches Ok(next) ==> {
            &&& next.pending == view.pending.push(0)
            &&& next.stats.serialized_bytes == view.stats.serialized_bytes + 1
            &&& with_end(next) == Err::<SerializerView, KvIrSerializerError>(
                KvIrSerializerError::Finished,
            )
            &&& with_utc_offset(next, offset) == Err::<SerializerView, KvIrSerializerError>(
                KvIrSerializerError::Finished,
            )
            &&& with_event(next, auto, user) == Err::<(SerializerView, int), KvIrSerializerError>(
                KvIrSerializerError::Finished,
            )
        },
{
    match with_end(view) {
        Ok(next) => {
            assert(next.pending =~= view.pending.push(0));
        },
        Err(_) => {},
    }
}

/// A staged event that is committed makes its declarations pending, then its nodes, then the values
/// that the user generated; it counts as one event, and each of its bytes and of its new nodes
/// counts once.
pub proof fn events_are_counted_once(view: SerializerView, stage: Stage)
    requires
        stage.auto_schema.len() >= view.auto_schema.len(),
        stage.user_schema.len() >= view.user_schema.len(),
    ensures
        committed(view, stage) matches Ok((next, bytes)) ==> {
            &&& next.pending == view.pending + (stage.schema + stage.sequential
                + stage.user_values)
            &&& next.auto_schema == stage.auto_schema && next.user_schema == stage.user_schema
            &&& next.pending.len() == view.pending.len() + bytes
            &&& next.stats.log_events == view.stats.log_events + 1
            &&& next.stats.serialized_bytes == view.stats.serialized_bytes + bytes
            &&& next.stats.schema_nodes - view.stats.schema_nodes == next.auto_schema.len()
                - view.auto_schema.len() + next.user_schema.len() - view.user_schema.len()
            &&& next.stats.utc_offset_changes == view.stats.utc_offset_changes
            &&& next.utc_offset == view.utc_offset && next.finished == view.finished
            &&& next.options == view.options
        },
        committed(view, stage) is Ok <== view.stats.log_events < u64::MAX && ({
            let bytes = stage.schema.len() + stage.sequential.len() + stage.user_values.len();
            &&& view.pending.len() + bytes <= usize::MAX
            &&& view.pending.len() + bytes <= view.options.limits.pending_output_bytes
            &&& bytes <= view.options.limits.event_output_bytes
            &&& view.stats.serialized_bytes + bytes <= u64::MAX
            &&& view.stats.schema_nodes + stage.auto_schema.len() + stage.user_schema.len()
                <= u64::MAX
        }),
{
    match committed(view, stage) {
        Ok((next, _)) => {
            assert(next.pending =~= view.pending + (stage.schema + stage.sequential
                + stage.user_values));
        },
        Err(_) => {},
    }
}

/// A node that is found or declared is the one that was asked for, under a number at which it
/// stays: the nodes before it keep their numbers, and a node is declared only where there was none.
pub proof fn nodes_are_found_where_they_stand(
    rules: EventRules,
    stage: Stage,
    auto_generated: bool,
    node: NodeView,
)
    requires
        1 <= stage_tree(stage, auto_generated).len() <= 0x1_0000_0000,
    ensures
        with_found_node(rules, stage, auto_generated, node) matches Ok((after, id)) ==> {
            let before = stage_tree(stage, auto_generated);
            let tree = stage_tree(after, auto_generated);
            &&& 1 <= id < tree.len()
            &&& tree[id as int] == node
            &&& before.len() <= tree.len() <= before.len() + 1
            &&& forall|i: int| 0 <= i < before.len() ==> #[trigger] tree[i] == before[i]
            &&& tree.len() == before.len() ==> after.schema == stage.schema
            &&& tree.len() > before.len() ==> id == before.len() && after.schema.len()
                > stage.schema.len() && forall|i: int|
                1 <= i < before.len() ==> #[trigger] before[i] != node
            &&& stage_tree(after, !auto_generated) == stage_tree(stage, !auto_generated)
            &&& after.sequential == stage.sequential && after.user_values == stage.user_values
        },
{
    let tree = stage_tree(stage, auto_generated);
    lemma_node_from(tree, 1, node.parent_id, node.key, node.node_type);
    assert forall|i: int| 0 <= i < tree.len() && has_identity(
        #[trigger] tree[i],
        node.parent_id,
        node.key,
        node.node_type,
    ) implies tree[i] == node by {}
    declarations_read_back(
        stage.schema,
        auto_generated,
        node,
        rules.limits.event_output_bytes,
        Seq::empty(),
    );
}

/// Whether a leaf says what a MessagePack scalar says.
pub open spec fn says_header(leaf: PrimitiveView, header: HeaderView) -> bool {
    match header {
        HeaderView::Nil => leaf is Nil,
        HeaderView::Boolean(truth) => leaf matches PrimitiveView::Boolean(same) && same == truth,
        HeaderView::Integer(number) => leaf matches PrimitiveView::Integer(same) && same == number,
        HeaderView::Float(bits) => leaf matches PrimitiveView::Float(same) && same == bits,
        HeaderView::String(text) => leaf matches PrimitiveView::String(same) && same == text,
        _ => false,
    }
}

/// The type that a value asks of its node.
pub open spec fn is_type_of(node_type: KvIrNodeType, header: HeaderView) -> bool {
    match header {
        HeaderView::Boolean(_) => node_type is Boolean,
        HeaderView::Integer(_) => node_type is Integer,
        HeaderView::Float(_) => node_type is Float,
        HeaderView::String(_) => node_type is String,
        HeaderView::ArrayHead(_) => node_type is UnstructuredArray,
        HeaderView::MapHead(_) => node_type is Object,
        HeaderView::Nil => node_type is Object,
        HeaderView::Unsupported(_) => true,
    }
}

/// An entry of a map whose value is a scalar becomes one leaf that says the scalar, at the node
/// beneath its parent that has its key and its type.
pub proof fn entries_become_leaves(
    rules: EventRules,
    source: Source,
    stage: Stage,
    cursor: Cursor,
    parent_id: u32,
    auto_generated: bool,
    depth: int,
)
    requires
        1 <= stage_tree(stage, auto_generated).len() <= 0x1_0000_0000,
    ensures
        with_entry(
            rules,
            source,
            stage,
            cursor,
            parent_id,
            auto_generated,
            depth,
        ) matches Ok((after, next)) ==> {
            &&& map_key_at(source, cursor) matches Ok((key, keyed)) && header_at(
                source,
                keyed,
            ) matches Ok((header, end)) && (!(header is MapHead) && !(header is ArrayHead) ==> next
                == end && exists|found: Stage, id: u32, leaf: PrimitiveView|
                {
                    let node = stage_tree(found, auto_generated)[id as int];
                    &&& #[trigger] with_leaf(rules, found, auto_generated, id, leaf) == Ok::<
                        Stage,
                        KvIrSerializerError,
                    >(after)
                    &&& says_header(leaf, header)
                    &&& node.parent_id == parent_id && node.key == key && is_type_of(
                        node.node_type,
                        header,
                    )
                })
        },
{
    match with_entry(rules, source, stage, cursor, parent_id, auto_generated, depth) {
        Err(_) => {},
        Ok((after, next)) => {
            let (key, keyed) = map_key_at(source, cursor)->Ok_0;
            let (header, end) = header_at(source, keyed)->Ok_0;
            if !(header is MapHead) && !(header is ArrayHead) {
                let node = NodeView { parent_id, node_type: header_type(header), key };
                nodes_are_found_where_they_stand(rules, stage, auto_generated, node);
                let (found, id) = with_found_node(rules, stage, auto_generated, node)->Ok_0;
                let leaf = scalar_leaf(header);
                assert(with_leaf(rules, found, auto_generated, id, leaf) == Ok::<
                    Stage,
                    KvIrSerializerError,
                >(after));
                assert(says_header(leaf, header));
            }
        },
    }
}

} // verus!
