//! What MessagePack bytes say: each spelling of a value is read as that value.

use vstd::prelude::*;

use crate::msgpack::{
    be16, be32, header_at, lemma_header_progress, normalized, operand, operand_width, payload,
    widened, Cursor, HeaderView, Source,
};
use crate::serializer_options::KvIrSerializerError;
use crate::wire_laws::{
    big_endian, lemma_big_endian_concat, lemma_one_byte, power_of_256, twos_complement,
};

verus! {

/// Whether bytes are a marker and a number behind it.
pub open spec fn is_marked(bytes: Seq<u8>, marker: u8, width: int) -> bool {
    bytes.len() == 1 + width && bytes[0] == marker
}

/// The number behind a marker.
pub open spec fn behind(bytes: Seq<u8>) -> Seq<u8> {
    bytes.skip(1)
}

/// Whether bytes spell an integer: in seven bits, in five negative ones, or in one, two, four or
/// eight bytes with or without a sign.
pub open spec fn spells_integer(bytes: Seq<u8>, value: int) -> bool {
    ||| bytes.len() == 1 && bytes[0] < 0x80 && value == bytes[0]
    ||| bytes.len() == 1 && bytes[0] >= 0xe0 && value == bytes[0] - 0x100
    ||| is_marked(bytes, 0xcc, 1) && value == big_endian(behind(bytes))
    ||| is_marked(bytes, 0xcd, 2) && value == big_endian(behind(bytes))
    ||| is_marked(bytes, 0xce, 4) && value == big_endian(behind(bytes))
    ||| is_marked(bytes, 0xcf, 8) && value == big_endian(behind(bytes)) && value <= i64::MAX
    ||| is_marked(bytes, 0xd0, 1) && value == twos_complement(behind(bytes))
    ||| is_marked(bytes, 0xd1, 2) && value == twos_complement(behind(bytes))
    ||| is_marked(bytes, 0xd2, 4) && value == twos_complement(behind(bytes))
    ||| is_marked(bytes, 0xd3, 8) && value == twos_complement(behind(bytes))
}

/// Whether bytes spell the length of a container of up to fifteen, or one in two or four bytes.
pub open spec fn spells_length(
    bytes: Seq<u8>,
    small: u8,
    two: u8,
    four: u8,
    length: int,
) -> bool {
    ||| bytes.len() == 1 && 0 <= length <= 15 && bytes[0] == small + length
    ||| is_marked(bytes, two, 2) && length == big_endian(behind(bytes))
    ||| is_marked(bytes, four, 4) && length == big_endian(behind(bytes))
}

/// Whether bytes spell a string: its length in five bits or in one, two or four bytes, and behind
/// it its bytes.
pub open spec fn spells_string(bytes: Seq<u8>, text: Seq<u8>) -> bool {
    let length = text.len() as int;
    let head = bytes.len() - length;
    &&& head >= 1
    &&& bytes.skip(head) == text
    &&& {
        ||| head == 1 && length <= 31 && bytes[0] == 0xa0 + length
        ||| is_marked(bytes.take(head), 0xd9, 1) && length == big_endian(
            behind(bytes.take(head)),
        )
        ||| is_marked(bytes.take(head), 0xda, 2) && length == big_endian(
            behind(bytes.take(head)),
        )
        ||| is_marked(bytes.take(head), 0xdb, 4) && length == big_endian(
            behind(bytes.take(head)),
        )
    }
}

/// Whether bytes spell a value.
pub open spec fn spells(bytes: Seq<u8>, header: HeaderView) -> bool {
    match header {
        HeaderView::Nil => bytes == seq![0xc0u8],
        HeaderView::Boolean(false) => bytes == seq![0xc2u8],
        HeaderView::Boolean(true) => bytes == seq![0xc3u8],
        HeaderView::Integer(value) => spells_integer(bytes, value as int),
        HeaderView::Float(bits) => {
            ||| is_marked(bytes, 0xcb, 8) && bits == big_endian(behind(bytes))
            ||| is_marked(bytes, 0xca, 4) && is_same_number(big_endian(behind(bytes)), bits as int)
        },
        HeaderView::String(text) => spells_string(bytes, text),
        HeaderView::ArrayHead(length) => spells_length(bytes, 0x90, 0xdc, 0xdd, length as int),
        HeaderView::MapHead(length) => spells_length(bytes, 0x80, 0xde, 0xdf, length as int),
        HeaderView::Unsupported(_) => true,
    }
}

/// A power of two.
pub open spec fn power_of_two(count: nat) -> int
    decreases count,
{
    if count == 0 {
        1
    } else {
        2 * power_of_two((count - 1) as nat)
    }
}

/// Significand and exponent of a finite binary32 number: it is the one times two to the other.
pub open spec fn parts32(bits: int) -> (int, int) {
    let exponent = bits / 0x80_0000 % 0x100;
    let fraction = bits % 0x80_0000;
    if exponent == 0 {
        (fraction, -149)
    } else {
        (0x80_0000 + fraction, exponent - 150)
    }
}

/// Significand and exponent of a finite binary64 number.
pub open spec fn parts64(bits: int) -> (int, int) {
    let exponent = bits / 0x10_0000_0000_0000 % 0x800;
    let fraction = bits % 0x10_0000_0000_0000;
    if exponent == 0 {
        (fraction, -1074)
    } else {
        (0x10_0000_0000_0000 + fraction, exponent - 1075)
    }
}

/// Whether the binary64 number of some bits is the binary32 number of others: with the same sign,
/// and the same value, or both infinite, or both no number, where the wide one is quiet and carries
/// what the narrow one carries.
pub open spec fn is_same_number(narrow: int, wide: int) -> bool {
    &&& narrow / 0x8000_0000 == wide / 0x8000_0000_0000_0000
    &&& if narrow / 0x80_0000 % 0x100 == 0xff {
        &&& wide / 0x10_0000_0000_0000 % 0x800 == 0x7ff
        &&& wide % 0x10_0000_0000_0000 == (if narrow % 0x80_0000 == 0 {
            0
        } else {
            0x8_0000_0000_0000 + narrow % 0x40_0000 * 0x2000_0000
        })
    } else {
        let (small, low) = parts32(narrow);
        let (large, high) = parts64(wide);
        &&& wide / 0x10_0000_0000_0000 % 0x800 != 0x7ff
        &&& if small == 0 {
            large == 0
        } else {
            high <= low && large == small * power_of_two((low - high) as nat)
        }
    }
}

proof fn lemma_power_of_two(count: nat, more: nat)
    ensures
        power_of_two(count + more) == power_of_two(count) * power_of_two(more),
        power_of_two(count) > 0,
    decreases more, count,
{
    if more > 0 {
        let less = (more - 1) as nat;
        lemma_power_of_two(count, less);
        let first = power_of_two(count);
        let second = power_of_two(less);
        assert(2 * (first * second) == first * (2 * second)) by (nonlinear_arith);
        assert(((count + more) - 1) as nat == count + less);
    } else if count > 0 {
        lemma_power_of_two((count - 1) as nat, 0);
    }
}

/// Shifting a significand until its leading bit is set multiplies it by a power of two, and takes
/// as much from its exponent.
proof fn lemma_normalized(significand: int, exponent: int) -> (shift: nat)
    requires
        0 < significand < 0x100_0000,
    ensures
        ({
            let (found, power) = normalized(significand, exponent);
            &&& 0x80_0000 <= found < 0x100_0000
            &&& found == significand * power_of_two(shift)
            &&& power == exponent - shift
        }),
        significand >= 1 ==> shift <= 23,
    decreases 0x100_0000 - significand,
{
    if significand < 0x80_0000 {
        let less = lemma_normalized(significand * 2, exponent - 1);
        let power = power_of_two(less);
        assert(significand * 2 * power == significand * (2 * power)) by (nonlinear_arith);
        let found = normalized(significand, exponent).0;
        if less + 1 > 23 {
            lemma_power_of_two(24, (less + 1 - 24) as nat);
            reveal_with_fuel(power_of_two, 25);
            let rest = power_of_two((less + 1 - 24) as nat);
            lemma_power_of_two((less + 1 - 24) as nat, 0);
            assert(significand * (0x100_0000 * rest) >= 0x100_0000) by (nonlinear_arith)
                requires
                    significand >= 1,
                    rest >= 1,
            ;
        }
        (less + 1) as nat
    } else {
        assert(significand * power_of_two(0) == significand);
        0
    }
}

/// Widening keeps the number.
pub proof fn widened_numbers_are_the_same(bits: u32)
    ensures
        is_same_number(bits as int, widened(bits) as int),
{
    let sign = bits as int / 0x8000_0000;
    let exponent = bits as int / 0x80_0000 % 0x100;
    let fraction = bits as int % 0x80_0000;
    let wide = widened(bits) as int;
    assert(bits as int == sign * 0x8000_0000 + exponent * 0x80_0000 + fraction);
    assert(power_of_two(29) == 0x2000_0000) by {
        reveal_with_fuel(power_of_two, 30);
    }
    if exponent == 0xff {
        if fraction == 0 {
            assert(wide == sign * 0x8000_0000_0000_0000 + 0x7ff * 0x10_0000_0000_0000);
        } else {
            let low = (fraction % 0x40_0000) * 0x2000_0000;
            assert(wide == sign * 0x8000_0000_0000_0000 + 0x7ff * 0x10_0000_0000_0000 + (
            0x8_0000_0000_0000 + low));
        }
    } else if exponent == 0 {
        if fraction == 0 {
            assert(wide == sign * 0x8000_0000_0000_0000);
        } else {
            let shift = lemma_normalized(fraction, 0x381);
            let (found, power) = normalized(fraction, 0x381);
            let low = (found % 0x80_0000) * 0x2000_0000;
            assert(found % 0x80_0000 == found - 0x80_0000);
            assert(wide == sign * 0x8000_0000_0000_0000 + power * 0x10_0000_0000_0000 + low);
            assert(wide / 0x10_0000_0000_0000 % 0x800 == power);
            assert(wide % 0x10_0000_0000_0000 == low);
            let (large, high) = parts64(wide);
            assert(large == found * 0x2000_0000);
            lemma_power_of_two(shift, 29);
            let factor = power_of_two(shift);
            assert(fraction * factor * 0x2000_0000 == fraction * (factor * 0x2000_0000))
                by (nonlinear_arith);
            assert(high == -178 - shift);
        }
    } else {
        let low = fraction * 0x2000_0000;
        assert(wide == sign * 0x8000_0000_0000_0000 + (exponent + 0x380) * 0x10_0000_0000_0000
            + low);
        assert(wide / 0x10_0000_0000_0000 % 0x800 == exponent + 0x380);
        assert(wide % 0x10_0000_0000_0000 == low);
    }
}

proof fn lemma_operand(bytes: Seq<u8>, at: int, width: int)
    requires
        0 <= at,
        at + width <= bytes.len(),
        width == 1 || width == 2 || width == 4 || width == 8,
    ensures
        operand(bytes, at, width) == big_endian(bytes.subrange(at, at + width)),
        0 <= operand(bytes, at, width) < power_of_256(width as nat),
        bytes[at] >= 0x80 <==> 2 * operand(bytes, at, width) >= power_of_256(width as nat),
        power_of_256(1) == 0x100,
        power_of_256(2) == 0x1_0000,
        power_of_256(4) == 0x1_0000_0000,
        power_of_256(8) == 0x1_0000_0000_0000_0000,
{
    lemma_one_byte(0);
    if width == 1 {
        assert(bytes.subrange(at, at + 1) =~= seq![bytes[at]]);
        lemma_one_byte(bytes[at]);
    } else if width == 2 {
        lemma_two(bytes, at);
    } else if width == 4 {
        lemma_two(bytes, at);
        lemma_four(bytes, at);
    } else {
        lemma_two(bytes, at);
        lemma_four(bytes, at);
        lemma_four(bytes, at + 4);
        lemma_big_endian_concat(bytes.subrange(at, at + 4), bytes.subrange(at + 4, at + 8));
        assert(bytes.subrange(at, at + 8) =~= bytes.subrange(at, at + 4) + bytes.subrange(
            at + 4,
            at + 8,
        ));
    }
}

proof fn lemma_two(bytes: Seq<u8>, at: int)
    requires
        0 <= at,
        at + 2 <= bytes.len(),
    ensures
        be16(bytes, at) == big_endian(bytes.subrange(at, at + 2)),
        be16(bytes, at) == bytes[at] * 0x100 + bytes[at + 1],
{
    let high = seq![bytes[at]];
    let low = seq![bytes[at + 1]];
    lemma_one_byte(bytes[at]);
    lemma_one_byte(bytes[at + 1]);
    lemma_big_endian_concat(high, low);
    assert(bytes.subrange(at, at + 2) =~= high + low);
}

proof fn lemma_four(bytes: Seq<u8>, at: int)
    requires
        0 <= at,
        at + 4 <= bytes.len(),
    ensures
        be32(bytes, at) == big_endian(bytes.subrange(at, at + 4)),
        be32(bytes, at) == be16(bytes, at) * 0x1_0000 + be16(bytes, at + 2),
{
    lemma_two(bytes, at);
    lemma_two(bytes, at + 2);
    lemma_one_byte(0);
    lemma_big_endian_concat(bytes.subrange(at, at + 2), bytes.subrange(at + 2, at + 4));
    assert(bytes.subrange(at, at + 4) =~= bytes.subrange(at, at + 2) + bytes.subrange(
        at + 2,
        at + 4,
    ));
}

/// A value that is read is the value that its bytes spell.
#[verifier::rlimit(60)]
#[verifier::spinoff_prover]
pub proof fn values_are_what_their_bytes_spell(source: Source, cursor: Cursor)
    requires
        0 <= cursor.position <= source.bytes.len(),
    ensures
        header_at(source, cursor) matches Ok((header, next)) ==> next.values == cursor.values + 1
            && spells(source.bytes.subrange(cursor.position, next.position), header),
{
    lemma_header_progress(source, cursor);
    match header_at(source, cursor) {
        Err(_) => {},
        Ok((header, next)) => {
            reveal(payload);
            let start = cursor.position;
            let marker = source.bytes[start];
            let bytes = source.bytes.subrange(start, next.position);
            let width = operand_width(marker);
            assert(bytes[0] == marker);
            if marker <= 0xbf {
                if marker >= 0xa0 {
                    let text = source.bytes.subrange(start + 1, next.position);
                    assert(bytes.skip(1) =~= text);
                }
            } else if 0xc4 <= marker <= 0xd3 || 0xd9 <= marker <= 0xdf {
                lemma_operand(source.bytes, start + 1, width);
                let number = source.bytes.subrange(start + 1, start + 1 + width);
                assert(number[0] == source.bytes[start + 1]);
                if marker == 0xd9 || marker == 0xda || marker == 0xdb {
                    let head = 1 + width;
                    assert(behind(bytes.take(head)) =~= number);
                    assert(bytes.skip(head) =~= source.bytes.subrange(
                        start + head,
                        next.position,
                    ));
                } else if !(header is Unsupported) {
                    assert(behind(bytes) =~= number);
                    if marker == 0xca {
                        widened_numbers_are_the_same(be32(source.bytes, start + 1));
                    }
                }
            } else {
                assert(header is Nil ==> bytes =~= seq![0xc0u8]);
                assert(header matches HeaderView::Boolean(truth) ==> bytes =~= seq![
                    if truth {
                        0xc3u8
                    } else {
                        0xc2
                    },
                ]);
            }
        },
    }
}

/// A value whose bytes are there is read, wherever the limits have room for it.
#[verifier::rlimit(60)]
#[verifier::spinoff_prover]
pub proof fn spelled_values_are_read(source: Source, cursor: Cursor, end: int, header: HeaderView)
    requires
        0 <= cursor.position < end <= source.bytes.len() <= usize::MAX,
        spells(source.bytes.subrange(cursor.position, end), header),
        !(header is Unsupported),
        header is Float ==> source.bytes[cursor.position] != 0xca,
        header matches HeaderView::String(text) ==> text.len() <= source.limits.scalar_bytes,
        cursor.values + 1 <= source.limits.values_per_map,
    ensures
        header_at(source, cursor) == Ok::<(HeaderView, Cursor), KvIrSerializerError>(
            (header, Cursor { position: end, values: cursor.values + 1 }),
        ),
{
    reveal(payload);
    let start = cursor.position;
    let marker = source.bytes[start];
    let bytes = source.bytes.subrange(start, end);
    let width = operand_width(marker);
    assert(bytes[0] == marker);
    match header {
        HeaderView::String(text) => {
            let head = bytes.len() - text.len();
            assert(text =~= source.bytes.subrange(start + head, end));
            if head > 1 {
                assert(bytes.take(head)[0] == marker);
                assert(behind(bytes.take(head)) =~= source.bytes.subrange(
                    start + 1,
                    start + head,
                ));
                lemma_operand(source.bytes, start + 1, width);
            }
        },
        HeaderView::Integer(value) => {
            if bytes.len() > 1 {
                lemma_operand(source.bytes, start + 1, width);
                assert(behind(bytes) =~= source.bytes.subrange(start + 1, end));
                assert(behind(bytes)[0] == source.bytes[start + 1]);
            }
        },
        HeaderView::Float(_) => {
            lemma_operand(source.bytes, start + 1, width);
            assert(behind(bytes) =~= source.bytes.subrange(start + 1, end));
        },
        HeaderView::ArrayHead(_) => {
            if bytes.len() > 1 {
                lemma_operand(source.bytes, start + 1, width);
                assert(behind(bytes) =~= source.bytes.subrange(start + 1, end));
            }
        },
        HeaderView::MapHead(_) => {
            if bytes.len() > 1 {
                lemma_operand(source.bytes, start + 1, width);
                assert(behind(bytes) =~= source.bytes.subrange(start + 1, end));
            }
        },
        _ => {
            assert(seq![0xc0u8][0] == 0xc0);
            assert(seq![0xc2u8][0] == 0xc2);
            assert(seq![0xc3u8][0] == 0xc3);
        },
    }
}

} // verus!
