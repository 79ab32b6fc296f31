//! What JSON numbers are, and which integers they spell.

use vstd::prelude::*;

use crate::decimal::{decimal, digits, lemma_digits};
use crate::number::{
    exponent_token, fraction_token, integer_value, number_syntax, number_token, validated_number,
    JsonNumberClassificationError, ValidatedJsonNumberSyntax,
};
use crate::text::{byte_at, digit_at, is_digit, lemma_skip_digits, skip_digits, MINUS};

verus! {

/// The parts of a JSON number.
pub struct NumberParts {
    pub negative: bool,
    pub whole: Seq<u8>,
    pub fraction: Option<Seq<u8>>,
    /// The letter, the sign if there is one, and the digits.
    pub exponent: Option<(u8, Option<u8>, Seq<u8>)>,
}

pub open spec fn are_digits(run: Seq<u8>) -> bool {
    run.len() > 0 && forall|i: int| 0 <= i < run.len() ==> 0x30 <= #[trigger] run[i] <= 0x39
}

/// Whether these are the parts of a JSON number: digits without a leading zero but for zero itself,
/// a fraction of one digit at least, and an exponent of one digit at least with an optional sign.
pub open spec fn is_number(parts: NumberParts) -> bool {
    &&& are_digits(parts.whole)
    &&& parts.whole.len() > 1 ==> parts.whole[0] != 0x30
    &&& parts.fraction matches Some(run) ==> are_digits(run)
    &&& parts.exponent matches Some((letter, sign, run)) ==> {
        &&& letter == 0x65 || letter == 0x45
        &&& sign matches Some(byte) ==> byte == 0x2b || byte == 0x2d
        &&& are_digits(run)
    }
}

pub open spec fn spelled_sign(parts: NumberParts) -> Seq<u8> {
    if parts.negative {
        seq![0x2du8]
    } else {
        Seq::empty()
    }
}

pub open spec fn spelled_fraction(parts: NumberParts) -> Seq<u8> {
    match parts.fraction {
        Some(run) => seq![0x2eu8] + run,
        None => Seq::empty(),
    }
}

pub open spec fn spelled_exponent(parts: NumberParts) -> Seq<u8> {
    match parts.exponent {
        Some((letter, Some(sign), run)) => seq![letter, sign] + run,
        Some((letter, None, run)) => seq![letter] + run,
        None => Seq::empty(),
    }
}

/// The spelling of a number.
pub open spec fn spelled_number(parts: NumberParts) -> Seq<u8> {
    spelled_sign(parts) + parts.whole + spelled_fraction(parts) + spelled_exponent(parts)
}

/// Where the point and the letter of the exponent stand in the spelling.
pub open spec fn syntax_of(parts: NumberParts) -> ValidatedJsonNumberSyntax {
    let dot = (spelled_sign(parts).len() + parts.whole.len()) as int;
    number_syntax(
        if parts.fraction is Some {
            Some(dot)
        } else {
            None
        },
        if parts.exponent is Some {
            Some(dot + spelled_fraction(parts).len())
        } else {
            None
        },
    )
}

/// Whether a byte would make a number before it longer, or break it.
pub open spec fn goes_on(byte: u8) -> bool {
    0x30 <= byte <= 0x39 || byte == 0x2e || byte == 0x65 || byte == 0x45
}

proof fn lemma_run_end(source: Seq<u8>, at: int, run: Seq<u8>)
    requires
        0 <= at && at + run.len() <= source.len(),
        source.subrange(at, at + run.len()) == run,
        are_digits(run),
        at + run.len() < source.len() ==> !is_digit(source[at + run.len()]),
    ensures
        digit_at(source, at),
        skip_digits(source, at) == at + run.len(),
{
    let end = at + run.len();
    assert forall|i: int| at <= i < end implies is_digit(#[trigger] source[i]) by {
        assert(source.subrange(at, end)[i - at] == source[i]);
        assert(0x30 <= run[i - at] <= 0x39);
    }
    lemma_skip_digits(source, at);
    let found = skip_digits(source, at);
    if found < end {
        assert(is_digit(source[found]));
    }
    if found > end {
        assert(is_digit(source[end]));
    }
    assert(is_digit(source[at]));
}

proof fn lemma_exponent_read(
    source: Seq<u8>,
    start: int,
    mark: int,
    dot: Option<int>,
    parts: NumberParts,
)
    requires
        is_number(parts),
        0 <= start <= mark,
        mark + spelled_exponent(parts).len() <= source.len(),
        source.subrange(mark, mark + spelled_exponent(parts).len()) == spelled_exponent(parts),
        mark + spelled_exponent(parts).len() < source.len() ==> !goes_on(
            source[mark + spelled_exponent(parts).len()],
        ),
    ensures
        exponent_token(source, start, mark, dot) == Ok::<(int, ValidatedJsonNumberSyntax), int>(
            (
                mark + spelled_exponent(parts).len(),
                number_syntax(
                    dot,
                    if parts.exponent is Some {
                        Some(mark - start)
                    } else {
                        None
                    },
                ),
            ),
        ),
{
    let text = spelled_exponent(parts);
    let end = mark + text.len();
    let own = source.subrange(mark, end);
    match parts.exponent {
        Some((letter, sign, run)) => {
            let from = end - run.len();
            assert(own[0] == source[mark]);
            assert(source.subrange(from, end) =~= own.skip(from - mark));
            assert(text.skip(from - mark) =~= run);
            lemma_run_end(source, from, run);
            assert(0x30 <= run[0] <= 0x39);
            assert(source.subrange(from, end)[0] == source[from]);
            match sign {
                Some(byte) => {
                    assert(own[1] == source[mark + 1]);
                },
                None => {},
            }
        },
        None => {},
    }
}

proof fn lemma_fraction_read(source: Seq<u8>, start: int, point: int, parts: NumberParts)
    requires
        is_number(parts),
        0 <= start <= point,
        ({
            let mark = point + spelled_fraction(parts).len();
            let end = mark + spelled_exponent(parts).len();
            &&& end <= source.len()
            &&& source.subrange(point, mark) == spelled_fraction(parts)
            &&& source.subrange(mark, end) == spelled_exponent(parts)
            &&& end < source.len() ==> !goes_on(source[end])
        }),
    ensures
        ({
            let mark = point + spelled_fraction(parts).len();
            fraction_token(source, start, point) == Ok::<(int, ValidatedJsonNumberSyntax), int>(
                (
                    mark + spelled_exponent(parts).len(),
                    number_syntax(
                        if parts.fraction is Some {
                            Some(point - start)
                        } else {
                            None
                        },
                        if parts.exponent is Some {
                            Some(mark - start)
                        } else {
                            None
                        },
                    ),
                ),
            )
        }),
{
    let mark = point + spelled_fraction(parts).len();
    let end = mark + spelled_exponent(parts).len();
    if mark < end {
        assert(source.subrange(mark, end)[0] == source[mark]);
    }
    match parts.fraction {
        Some(run) => {
            let own = source.subrange(point, mark);
            assert(own[0] == source[point]);
            assert(source.subrange(point + 1, mark) =~= own.skip(1));
            assert(spelled_fraction(parts).skip(1) =~= run);
            lemma_run_end(source, point + 1, run);
            lemma_exponent_read(source, start, mark, Some(point - start), parts);
        },
        None => {
            lemma_exponent_read(source, start, mark, None, parts);
        },
    }
}

/// Every spelling of a number is read to its end, wherever it stands, and its parts are found where
/// they are.
pub proof fn spelled_numbers_are_read(before: Seq<u8>, parts: NumberParts, rest: Seq<u8>)
    requires
        is_number(parts),
        rest.len() > 0 ==> !goes_on(rest[0]),
    ensures
        number_token(before + spelled_number(parts) + rest, before.len() as int) == Ok::<
            (int, ValidatedJsonNumberSyntax),
            int,
        >(((before.len() + spelled_number(parts).len()) as int, syntax_of(parts))),
{
    let source = before + spelled_number(parts) + rest;
    let start = before.len() as int;
    let first = start + spelled_sign(parts).len();
    let point = first + parts.whole.len();
    let mark = point + spelled_fraction(parts).len();
    let end = mark + spelled_exponent(parts).len();
    assert(source.subrange(first, point) =~= parts.whole);
    assert(source.subrange(point, mark) =~= spelled_fraction(parts));
    assert(source.subrange(mark, end) =~= spelled_exponent(parts));
    assert(end < source.len() ==> source[end] == rest[0]);
    assert(source[first] == parts.whole[0]);
    assert(parts.negative ==> source[start] == 0x2d);
    assert(0x30 <= parts.whole[0] <= 0x39);
    assert(point < mark ==> source.subrange(point, mark)[0] == source[point]);
    assert(mark < end ==> source.subrange(mark, end)[0] == source[mark]);
    lemma_run_end(source, first, parts.whole);
    lemma_fraction_read(source, start, point, parts);
}

proof fn lemma_run_found(source: Seq<u8>, at: int)
    requires
        digit_at(source, at),
        0 <= at,
    ensures
        at < skip_digits(source, at) <= source.len(),
        are_digits(source.subrange(at, skip_digits(source, at))),
{
    lemma_skip_digits(source, at);
    let end = skip_digits(source, at);
    assert forall|i: int| 0 <= i < end - at implies 0x30 <= #[trigger] source.subrange(at, end)[i]
        <= 0x39 by {
        assert(is_digit(source[at + i]));
    }
}

/// The number that a token spells, with its fraction and its exponent taken from behind `point` and
/// `mark`.
spec fn parts_at(source: Seq<u8>, start: int, point: int, mark: int, end: int) -> NumberParts {
    let negative = byte_at(source, start, MINUS);
    let first = if negative {
        start + 1
    } else {
        start
    };
    NumberParts {
        negative,
        whole: source.subrange(first, point),
        fraction: if point < mark {
            Some(source.subrange(point + 1, mark))
        } else {
            None
        },
        exponent: if mark < end {
            if byte_at(source, mark + 1, 0x2b) || byte_at(source, mark + 1, 0x2d) {
                Some((source[mark], Some(source[mark + 1]), source.subrange(mark + 2, end)))
            } else {
                Some((source[mark], None, source.subrange(mark + 1, end)))
            }
        } else {
            None
        },
    }
}

/// What follows the whole part of a number that is read.
proof fn lemma_tail_found(source: Seq<u8>, start: int, point: int) -> (mark: int)
    requires
        0 <= start <= point <= source.len(),
        fraction_token(source, start, point) is Ok,
    ensures
        ({
            let (end, syntax) = fraction_token(source, start, point)->Ok_0;
            let parts = parts_at(source, start, point, mark, end);
            &&& point <= mark <= end <= source.len()
            &&& parts.fraction matches Some(run) ==> are_digits(run)
            &&& point < mark ==> source[point] == 0x2e
            &&& parts.exponent matches Some((letter, sign, run)) ==> {
                &&& letter == 0x65 || letter == 0x45
                &&& sign matches Some(byte) ==> byte == 0x2b || byte == 0x2d
                &&& are_digits(run)
            }
            &&& source.subrange(point, mark) == spelled_fraction(parts)
            &&& source.subrange(mark, end) == spelled_exponent(parts)
            &&& syntax == number_syntax(
                if parts.fraction is Some {
                    Some(point - start)
                } else {
                    None
                },
                if parts.exponent is Some {
                    Some(mark - start)
                } else {
                    None
                },
            )
        }),
{
    let (end, syntax) = fraction_token(source, start, point)->Ok_0;
    if digit_at(source, point + 1) {
        lemma_run_found(source, point + 1);
    }
    let mark = if byte_at(source, point, 0x2e) {
        skip_digits(source, point + 1)
    } else {
        point
    };
    let from = if byte_at(source, mark + 1, 0x2b) || byte_at(source, mark + 1, 0x2d) {
        mark + 2
    } else {
        mark + 1
    };
    if digit_at(source, from) {
        lemma_run_found(source, from);
    }
    let parts = parts_at(source, start, point, mark, end);
    assert(source.subrange(point, mark) =~= spelled_fraction(parts));
    assert(source.subrange(mark, end) =~= spelled_exponent(parts));
    mark
}

/// Whatever is read as a number is spelled as one.
pub proof fn read_numbers_are_spelled(source: Seq<u8>, start: int)
    requires
        0 <= start <= source.len(),
    ensures
        number_token(source, start) matches Ok((end, syntax)) ==> start < end <= source.len()
            && exists|parts: NumberParts| #[trigger]
            is_number(parts) && source.subrange(start, end) == spelled_number(parts) && syntax
                == syntax_of(parts),
{
    match number_token(source, start) {
        Err(_) => {},
        Ok((end, syntax)) => {
            let first = if byte_at(source, start, MINUS) {
                start + 1
            } else {
                start
            };
            lemma_run_found(source, first);
            let point = if byte_at(source, first, 0x30) {
                first + 1
            } else {
                skip_digits(source, first)
            };
            let whole = source.subrange(first, point);
            assert(are_digits(whole)) by {
                if byte_at(source, first, 0x30) {
                    assert(whole =~= seq![0x30u8]);
                }
            }
            assert(whole[0] == source[first]);
            let mark = lemma_tail_found(source, start, point);
            let parts = parts_at(source, start, point, mark, end);
            assert(is_number(parts));
            assert(source.subrange(start, first) =~= spelled_sign(parts));
            assert(source.subrange(start, end) =~= source.subrange(start, first) + whole
                + source.subrange(point, mark) + source.subrange(mark, end));
            assert(syntax == syntax_of(parts));
        },
    }
}

/// Digits without a leading zero are a number by themselves.
pub proof fn lemma_digits_parts(number: nat)
    ensures
        are_digits(digits(number)),
        digits(number).len() > 1 ==> digits(number)[0] != 0x30,
    decreases number,
{
    lemma_digits(number);
    assert forall|i: int| 0 <= i < digits(number).len() implies 0x30 <= #[trigger] digits(
        number,
    )[i] <= 0x39 by {
        assert(is_digit(digits(number)[i]));
    }
    if number >= 10 {
        lemma_digits_parts(number / 10);
        lemma_digits(number / 10);
        assert(digits(number)[0] == digits(number / 10)[0]);
        if digits(number / 10).len() == 1 {
            lemma_single_digit(number / 10);
        }
    }
}

proof fn lemma_single_digit(number: nat)
    requires
        digits(number).len() == 1,
        number > 0,
    ensures
        digits(number)[0] != 0x30,
{
    if number >= 10 {
        lemma_digits(number / 10);
    }
}

/// The decimal spelling of an integer is read as that integer: in the signed domain as it is, and
/// beyond it, as far as 64 bits go, as the signed integer of the same bits.
pub proof fn spelled_integers_are_read(value: int)
    requires
        i64::MIN <= value <= u64::MAX,
    ensures
        validated_number(decimal(value)) == Ok::<
            ValidatedJsonNumberSyntax,
            JsonNumberClassificationError,
        >(number_syntax(None, None)),
        integer_value(decimal(value)) matches Some(read) && read == (if value <= i64::MAX {
            value
        } else {
            value - 0x1_0000_0000_0000_0000
        }),
{
    let size = if value < 0 {
        (-value) as nat
    } else {
        value as nat
    };
    lemma_digits_parts(size);
    lemma_digits(size);
    let parts = NumberParts {
        negative: value < 0,
        whole: digits(size),
        fraction: None,
        exponent: None,
    };
    let none = Seq::<u8>::empty();
    spelled_numbers_are_read(none, parts, none);
    assert(none + spelled_number(parts) + none =~= decimal(value));
    if value < 0 {
        assert(decimal(value).subrange(1, decimal(value).len() as int) =~= digits(size));
    } else {
        assert(is_digit(digits(size)[0]));
        if value > i64::MAX {
            lemma_same_bits(value as u64);
        }
    }
}

proof fn lemma_same_bits(value: u64)
    requires
        value > i64::MAX,
    ensures
        value as i64 == value - 0x1_0000_0000_0000_0000,
{
    assert((value as i64) as i128 == (value as i128) - 0x1_0000_0000_0000_0000i128)
        by (bit_vector)
        requires
            value > 0x7fff_ffff_ffff_ffffu64,
    ;
}

/// An integer beyond 64 bits is read as none.
pub proof fn wide_integers_are_refused(value: int)
    requires
        value < i64::MIN || value > u64::MAX,
    ensures
        integer_value(decimal(value)) is None,
{
    let size = if value < 0 {
        (-value) as nat
    } else {
        value as nat
    };
    lemma_digits(size);
    if value < 0 {
        assert(decimal(value).subrange(1, decimal(value).len() as int) =~= digits(size));
    } else {
        assert(is_digit(digits(size)[0]));
    }
}

} // verus!
