//! A spelling of a number denotes the number that it was made from.

use vstd::prelude::*;

use crate::decimal::{decimal, digits, lemma_digits, lemma_digits_length, power_of_ten};
use crate::float_text::{
    first_of, in_full, in_scientific, is_negative_bits, is_zero_bits, json_spelling, laid_out,
    mantissa_digits, signed, significant_digits, skip_zeros, split_shortest, without_zeros, zeros,
    NlohmannFloatError, FLOAT_TEXT_BYTES,
};
use crate::number::{decimal_value, finite_bits};
use crate::text::{is_digit, MINUS};
use crate::timestamp::{all_digits, parsed_i64};

verus! {

/// A decimal number: digits without zeros at either end, times a power of ten.
#[verifier::ext_equal]
pub struct Decimal {
    pub digits: Seq<u8>,
    pub power: int,
}

/// Some digits times a power of ten.
pub open spec fn normal(found: Seq<u8>, power: int) -> Decimal {
    let first = skip_zeros(found, 0);
    let significant = without_zeros(found.skip(first));
    Decimal {
        digits: significant,
        power: power + (found.len() - first - significant.len()),
    }
}

/// Where the point of a mantissa stands, or its end.
pub open spec fn point_of(mantissa: Seq<u8>) -> int {
    first_of(mantissa, 0x2e, 0x2e, 0)
}

/// The digits of a mantissa without its point.
pub open spec fn digits_of(mantissa: Seq<u8>) -> Seq<u8> {
    if point_of(mantissa) < mantissa.len() {
        mantissa.take(point_of(mantissa)) + mantissa.skip(point_of(mantissa) + 1)
    } else {
        mantissa
    }
}

/// How many digits of a mantissa stand behind its point.
pub open spec fn fraction_of(mantissa: Seq<u8>) -> int {
    if point_of(mantissa) < mantissa.len() {
        mantissa.len() - point_of(mantissa) - 1
    } else {
        0
    }
}

/// The decimal number that a spelling denotes.
pub open spec fn decimal_number(text: Seq<u8>) -> Option<Decimal> {
    match split_shortest(text) {
        Some((mantissa, exponent)) => Some(
            normal(digits_of(mantissa), exponent - fraction_of(mantissa)),
        ),
        None => None,
    }
}

proof fn lemma_first_of_is(text: Seq<u8>, first: u8, second: u8, at: int, place: int)
    requires
        0 <= at <= place <= text.len(),
        forall|i: int| at <= i < place ==> #[trigger] text[i] != first && text[i] != second,
        place < text.len() ==> text[place] == first || text[place] == second,
    ensures
        first_of(text, first, second, at) == place,
    decreases place - at,
{
    if at < place {
        assert(text[at] != first);
        lemma_first_of_is(text, first, second, at + 1, place);
    }
}

proof fn lemma_skip_zeros_is(text: Seq<u8>, at: int, place: int)
    requires
        0 <= at <= place <= text.len(),
        forall|i: int| at <= i < place ==> #[trigger] text[i] == 0x30,
        place < text.len() ==> text[place] != 0x30,
    ensures
        skip_zeros(text, at) == place,
    decreases place - at,
{
    if at < place {
        assert(text[at] == 0x30);
        lemma_skip_zeros_is(text, at + 1, place);
    }
}

proof fn lemma_skip_zeros(text: Seq<u8>, at: int)
    requires
        0 <= at <= text.len(),
    ensures
        at <= skip_zeros(text, at) <= text.len(),
        skip_zeros(text, at) < text.len() ==> text[skip_zeros(text, at)] != 0x30,
    decreases text.len() - at,
{
    if at < text.len() && text[at] == 0x30 {
        lemma_skip_zeros(text, at + 1);
    }
}

proof fn lemma_without_zeros(text: Seq<u8>)
    requires
        text.len() > 0,
        text[0] != 0x30,
    ensures
        0 < without_zeros(text).len() <= text.len(),
        without_zeros(text) == text.take(without_zeros(text).len() as int),
        without_zeros(text).last() != 0x30,
    decreases text.len(),
{
    if text.last() == 0x30 {
        lemma_without_zeros(text.drop_last());
        assert(without_zeros(text) =~= text.take(without_zeros(text).len() as int));
    } else {
        assert(text.take(text.len() as int) =~= text);
    }
}

proof fn lemma_zeros_go(text: Seq<u8>, count: int)
    requires
        text.len() > 0,
        text.last() != 0x30,
        0 <= count,
    ensures
        without_zeros(text + zeros(count)) == text,
    decreases count,
{
    if count == 0 {
        assert(text + zeros(0) =~= text);
    } else {
        lemma_zeros_go(text, count - 1);
        assert((text + zeros(count)).drop_last() =~= text + zeros(count - 1));
    }
}

/// Reading the digits of a mantissa one by one gives them without the point.
proof fn lemma_mantissa_digits(
    mantissa: Seq<u8>,
    at: int,
    found: Seq<u8>,
    fraction: int,
    has_point: bool,
    point: int,
)
    requires
        0 <= at <= mantissa.len(),
        has_point ==> 0 <= point < at && mantissa[point] == 0x2e && found == mantissa.take(point)
            + mantissa.subrange(point + 1, at) && fraction == at - point - 1,
        has_point ==> forall|i: int| 0 <= i < point ==> #[trigger] mantissa[i] != 0x2e,
        !has_point ==> found == mantissa.take(at) && fraction == 0,
        !has_point ==> forall|i: int| 0 <= i < at ==> #[trigger] mantissa[i] != 0x2e,
    ensures
        mantissa_digits(mantissa, at, found, fraction, has_point) matches Some((all, behind)) ==> {
            &&& all == digits_of(mantissa)
            &&& behind == fraction_of(mantissa)
        },
    decreases mantissa.len() - at,
{
    if at == mantissa.len() {
        if has_point {
            lemma_first_of_is(mantissa, 0x2e, 0x2e, 0, point);
            assert(mantissa.subrange(point + 1, at) =~= mantissa.skip(point + 1));
        } else {
            lemma_first_of_is(mantissa, 0x2e, 0x2e, 0, at);
            assert(mantissa.take(at) =~= mantissa);
        }
    } else if mantissa[at] == 0x2e {
        if !has_point {
            assert(mantissa.take(at) + mantissa.subrange(at + 1, at + 1) =~= mantissa.take(at));
            lemma_mantissa_digits(mantissa, at + 1, found, fraction, true, at);
        }
    } else {
        let longer = found.push(mantissa[at]);
        if has_point {
            assert(longer =~= mantissa.take(point) + mantissa.subrange(point + 1, at + 1));
            lemma_mantissa_digits(mantissa, at + 1, longer, fraction + 1, true, point);
        } else {
            assert(longer =~= mantissa.take(at + 1));
            lemma_mantissa_digits(mantissa, at + 1, longer, fraction, false, point);
        }
    }
}

/// Whether digits are significant: none of them at either end is a zero.
pub open spec fn are_significant(digits: Seq<u8>) -> bool {
    &&& digits.len() > 0
    &&& all_digits(digits)
    &&& digits[0] != 0x30
    &&& digits.last() != 0x30
}

proof fn lemma_found_digits(
    mantissa: Seq<u8>,
    at: int,
    found: Seq<u8>,
    fraction: int,
    has_point: bool,
)
    requires
        all_digits(found),
    ensures
        mantissa_digits(mantissa, at, found, fraction, has_point) matches Some((all, _))
            ==> all_digits(all),
    decreases mantissa.len() - at,
{
    if 0 <= at < mantissa.len() {
        if mantissa[at] == 0x2e {
            lemma_found_digits(mantissa, at + 1, found, fraction, true);
        } else if is_digit(mantissa[at]) {
            let longer = found.push(mantissa[at]);
            assert forall|i: int| 0 <= i < longer.len() implies is_digit(#[trigger] longer[i]) by {
                if i < found.len() {
                    assert(is_digit(found[i]));
                }
            }
            lemma_found_digits(
                mantissa,
                at + 1,
                longer,
                if has_point {
                    fraction + 1
                } else {
                    fraction
                },
                has_point,
            );
        }
    }
}

/// The significant digits of a spelling are those of the number that it denotes.
proof fn lemma_significant(source: Seq<u8>)
    ensures
        significant_digits(source) matches Some((found, scale)) ==> {
            &&& are_significant(found)
            &&& decimal_number(source) == Some(Decimal { digits: found, power: scale })
        },
{
    match split_shortest(source) {
        Some((mantissa, exponent)) => {
            let none = Seq::<u8>::empty();
            assert(mantissa.take(0) =~= none);
            lemma_mantissa_digits(mantissa, 0, none, 0, false, 0);
            lemma_found_digits(mantissa, 0, none, 0, false);
            match mantissa_digits(mantissa, 0, none, 0, false) {
                Some((all, _)) => {
                    let first = skip_zeros(all, 0);
                    lemma_skip_zeros(all, 0);
                    if first < all.len() {
                        let rest = all.skip(first);
                        lemma_without_zeros(rest);
                        let significant = without_zeros(rest);
                        assert forall|i: int| 0 <= i < significant.len() implies is_digit(
                            #[trigger] significant[i],
                        ) by {
                            assert(significant[i] == rest.take(significant.len() as int)[i]);
                            assert(significant[i] == all[first + i]);
                        }
                        assert(significant[0] == rest.take(significant.len() as int)[0]);
                    }
                },
                None => {},
            }
        },
        None => {},
    }
}

/// Digits in full denote themselves, scaled by where their point is.
proof fn lemma_in_full(digits: Seq<u8>, position: int)
    requires
        are_significant(digits),
    ensures
        decimal_number(in_full(digits, position)) == Some(
            Decimal { digits, power: position - digits.len() },
        ),
{
    let text = in_full(digits, position);
    let length = digits.len() as int;
    assert forall|i: int| 0 <= i < text.len() implies #[trigger] text[i] == 0x2e || is_digit(
        text[i],
    ) by {
        if length <= position {
            if i < length {
                assert(text[i] == digits[i]);
            }
        } else if 0 < position {
            if i < position {
                assert(text[i] == digits[i]);
            } else if i > position {
                assert(text[i] == digits[i - 1]);
            }
        } else if i >= 2 - position {
            assert(text[i] == digits[i - 2 + position]);
        }
    }
    assert forall|i: int| 0 <= i < text.len() implies #[trigger] text[i] != 0x65 && text[i]
        != 0x45 by {
        assert(text[i] == 0x2e || is_digit(text[i]));
    }
    lemma_first_of_is(text, 0x65, 0x45, 0, text.len() as int);
    let point = if length <= position {
        position
    } else if 0 < position {
        position
    } else {
        1
    };
    assert(text[point] == 0x2e);
    assert forall|i: int| 0 <= i < point implies #[trigger] text[i] != 0x2e by {
        if i < length && 0 < position {
            assert(text[i] == digits[i]);
            assert(is_digit(digits[i]));
        }
    }
    lemma_first_of_is(text, 0x2e, 0x2e, 0, point);
    let found = digits_of(text);
    if length <= position {
        let count = position - length + 1;
        assert(found =~= digits + zeros(count));
        lemma_skip_zeros_is(found, 0, 0);
        assert(found.skip(0) =~= found);
        lemma_zeros_go(digits, count);
    } else if 0 < position {
        assert(found =~= digits);
        lemma_skip_zeros_is(found, 0, 0);
        assert(found.skip(0) =~= found);
        lemma_zeros_go(digits, 0);
        assert(digits + zeros(0) =~= digits);
    } else {
        assert(found =~= zeros(1 - position) + digits);
        assert(found[1 - position] == digits[0]);
        lemma_skip_zeros_is(found, 0, 1 - position);
        assert(found.skip(1 - position) =~= digits);
        lemma_zeros_go(digits, 0);
        assert(digits + zeros(0) =~= digits);
    }
}

/// The spelling of an exponent reads as the exponent.
proof fn lemma_exponent(exponent: int)
    requires
        i32::MIN <= exponent <= i32::MAX,
    ensures
        ({
            let magnitude = if exponent < 0 {
                -exponent
            } else {
                exponent
            };
            let spelled = decimal(magnitude);
            let padded = if spelled.len() < 2 {
                seq![0x30u8] + spelled
            } else {
                spelled
            };
            let sign = if exponent < 0 {
                0x2du8
            } else {
                0x2bu8
            };
            parsed_i64(seq![sign] + padded) == Some(exponent)
        }),
{
    let magnitude = if exponent < 0 {
        -exponent
    } else {
        exponent
    };
    let spelled = digits(magnitude as nat);
    lemma_digits(magnitude as nat);
    let padded = if spelled.len() < 2 {
        seq![0x30u8] + spelled
    } else {
        spelled
    };
    let sign = if exponent < 0 {
        0x2du8
    } else {
        0x2bu8
    };
    let text = seq![sign] + padded;
    assert(text.skip(1) =~= padded);
    assert forall|i: int| 0 <= i < padded.len() implies is_digit(#[trigger] padded[i]) by {
        if spelled.len() < 2 {
            if i > 0 {
                assert(padded[i] == spelled[i - 1]);
            }
        } else {
            assert(padded[i] == spelled[i]);
        }
    }
    if spelled.len() < 2 {
        assert(spelled.drop_last() =~= Seq::<u8>::empty());
        assert(padded.drop_last() =~= seq![0x30u8]);
        assert(seq![0x30u8].drop_last() =~= Seq::<u8>::empty());
        reveal_with_fuel(decimal_value, 3);
        assert(padded.last() == spelled.last());
        assert(decimal_value(padded) == decimal_value(spelled));
    }
    assert(decimal_value(padded) == magnitude);
}

/// Digits before an exponent denote themselves, scaled by it.
proof fn lemma_in_scientific(digits: Seq<u8>, exponent: int)
    requires
        are_significant(digits),
        i32::MIN <= exponent <= i32::MAX,
    ensures
        decimal_number(in_scientific(digits, exponent)) == Some(
            Decimal { digits, power: exponent - (digits.len() - 1) },
        ),
{
    let text = in_scientific(digits, exponent);
    let length = digits.len() as int;
    let mantissa = digits.take(1) + (if length > 1 {
        seq![0x2eu8] + digits.skip(1)
    } else {
        Seq::empty()
    });
    let magnitude = if exponent < 0 {
        -exponent
    } else {
        exponent
    };
    let spelled = decimal(magnitude);
    let padded = if spelled.len() < 2 {
        seq![0x30u8] + spelled
    } else {
        spelled
    };
    let sign = if exponent < 0 {
        0x2du8
    } else {
        0x2bu8
    };
    let mark = mantissa.len() as int;
    lemma_exponent(exponent);
    assert(text =~= mantissa + seq![0x65u8] + (seq![sign] + padded));
    assert forall|i: int| 0 <= i < mark implies #[trigger] mantissa[i] == 0x2e || is_digit(
        mantissa[i],
    ) by {
        if i == 0 {
            assert(mantissa[i] == digits[0]);
        } else if i > 1 {
            assert(mantissa[i] == digits[i - 1]);
        }
    }
    assert forall|i: int| 0 <= i < mark implies #[trigger] text[i] != 0x65 && text[i] != 0x45 by {
        assert(text[i] == mantissa[i]);
    }
    assert(text[mark] == 0x65);
    lemma_first_of_is(text, 0x65, 0x45, 0, mark);
    assert(text.take(mark) =~= mantissa);
    assert(text.skip(mark + 1) =~= seq![sign] + padded);
    assert(mantissa[0] == digits[0]);
    assert(is_digit(digits[0]));
    if length > 1 {
        assert(mantissa[1] == 0x2e);
        lemma_first_of_is(mantissa, 0x2e, 0x2e, 0, 1);
        assert(digits_of(mantissa) =~= digits);
    } else {
        lemma_first_of_is(mantissa, 0x2e, 0x2e, 0, 1);
        assert(digits_of(mantissa) =~= digits);
    }
    lemma_skip_zeros_is(digits, 0, 0);
    assert(digits.skip(0) =~= digits);
    lemma_zeros_go(digits, 0);
    assert(digits + zeros(0) =~= digits);
}

/// A JSON spelling denotes the decimal number of the shortest digits that it was made from, with
/// the sign of the value.
pub proof fn spellings_keep_the_number(bits: u64, shortest: Seq<u8>)
    ensures
        json_spelling(bits, shortest) matches Ok(text) ==> !is_zero_bits(bits) ==> {
            let magnitude = if is_negative_bits(bits) {
                text.skip(1)
            } else {
                text
            };
            &&& is_negative_bits(bits) ==> text[0] == MINUS
            &&& decimal_number(shortest) is Some
            &&& decimal_number(magnitude) == decimal_number(shortest)
        },
{
    match json_spelling(bits, shortest) {
        Ok(text) => {
            if !is_zero_bits(bits) {
                lemma_significant(shortest);
                let (found, scale) = significant_digits(shortest)->Some_0;
                let position = found.len() + scale;
                let plain = laid_out(found, scale);
                if -4 < position <= 15 {
                    lemma_in_full(found, position);
                } else {
                    lemma_in_scientific(found, position - 1);
                }
                if is_negative_bits(bits) {
                    assert(text.skip(1) =~= plain);
                }
            }
        },
        Err(_) => {},
    }
}

/// Whether a text is ASCII.
pub open spec fn is_ascii_text(text: Seq<u8>) -> bool {
    forall|i: int| 0 <= i < text.len() ==> (#[trigger] text[i]) < 0x80
}

/// Whether a text has a point or an exponent, which makes a number no integer.
pub open spec fn has_point_or_exponent(text: Seq<u8>) -> bool {
    exists|i: int| 0 <= i < text.len() && (#[trigger] text[i] == 0x2e || text[i] == 0x65)
}

proof fn lemma_full_shape(digits: Seq<u8>, position: int)
    requires
        are_significant(digits),
        -4 < position <= 15,
    ensures
        is_ascii_text(in_full(digits, position)),
        has_point_or_exponent(in_full(digits, position)),
        in_full(digits, position).len() <= 17 || in_full(digits, position).len() <= digits.len()
            + 5,
{
    let text = in_full(digits, position);
    assert forall|i: int| 0 <= i < text.len() implies #[trigger] text[i] < 0x80 by {
        assert(all_digits(digits));
        assert forall|j: int| 0 <= j < digits.len() implies #[trigger] digits[j] < 0x80 by {
            assert(is_digit(digits[j]));
        }
    }
    let point = if digits.len() <= position || 0 < position {
        position
    } else {
        1
    };
    assert(text[point] == 0x2e);
}

proof fn lemma_scientific_shape(digits: Seq<u8>, exponent: int)
    requires
        are_significant(digits),
    ensures
        is_ascii_text(in_scientific(digits, exponent)),
        has_point_or_exponent(in_scientific(digits, exponent)),
        -1000 < exponent < 1000 ==> in_scientific(digits, exponent).len() <= digits.len() + 6,
{
    let text = in_scientific(digits, exponent);
    let size = if exponent < 0 {
        -exponent
    } else {
        exponent
    };
    let spelled = decimal(size);
    lemma_digits(size as nat);
    assert(spelled == crate::decimal::digits(size as nat));
    let mark = if digits.len() > 1 {
        digits.len() + 1
    } else {
        1
    };
    assert(text[mark as int] == 0x65);
    assert forall|i: int| 0 <= i < text.len() implies #[trigger] text[i] < 0x80 by {
        assert(all_digits(digits));
        assert forall|j: int| 0 <= j < digits.len() implies #[trigger] digits[j] < 0x80 by {
            assert(is_digit(digits[j]));
        }
        assert forall|j: int| 0 <= j < spelled.len() implies #[trigger] spelled[j] < 0x80 by {
            assert(is_digit(spelled[j]));
        }
    }
    if size < 1000 {
        assert(power_of_ten(3) == 1000) by {
            reveal_with_fuel(power_of_ten, 4);
        }
        lemma_digits_length(size as nat, 3);
    }
}

/// A JSON spelling is ASCII, at most as long as its buffer, and has a point or an exponent.
/// Significant digits as few as a binary64 number needs, with an exponent as near, always have one.
pub proof fn spellings_are_short(bits: u64, shortest: Seq<u8>)
    ensures
        json_spelling(bits, shortest) matches Ok(text) ==> {
            &&& text.len() <= FLOAT_TEXT_BYTES
            &&& is_ascii_text(text)
            &&& has_point_or_exponent(text)
        },
        finite_bits(bits) && (significant_digits(shortest) matches Some((found, scale))
            && found.len() <= 17 && -400 <= found.len() + scale <= 400) ==> json_spelling(
            bits,
            shortest,
        ) is Ok,
        json_spelling(bits, shortest) == Err::<Seq<u8>, NlohmannFloatError>(
            NlohmannFloatError::NonFinite,
        ) <==> !finite_bits(bits),
{
    lemma_significant(shortest);
    let zero = seq![0x30u8, 0x2e, 0x30];
    assert(zero[1] == 0x2e);
    let plain = match significant_digits(shortest) {
        Some((found, scale)) => {
            let position = found.len() + scale;
            if -4 < position <= 15 {
                lemma_full_shape(found, position);
            } else {
                lemma_scientific_shape(found, position - 1);
            }
            laid_out(found, scale)
        },
        None => zero,
    };
    assert forall|text: Seq<u8>| #[trigger] is_ascii_text(text) && has_point_or_exponent(
        text,
    ) implies is_ascii_text(signed(bits, text)) && has_point_or_exponent(signed(bits, text)) by {
        let at = choose|i: int|
            0 <= i < text.len() && (#[trigger] text[i] == 0x2e || text[i] == 0x65);
        if is_negative_bits(bits) {
            assert(signed(bits, text)[at + 1] == text[at]);
        }
    }
    assert(is_ascii_text(zero) && has_point_or_exponent(zero));
    assert(is_ascii_text(plain) && has_point_or_exponent(plain));
}

} // verus!
