//! How a stream spells a float: six significant digits, laid out by their exponent.

use vstd::prelude::*;

use crate::decimal::{decimal, digits, lemma_digits};
use crate::float_text::{
    exponent_start, first_of, has_no_fraction, is_negative_bits, is_zero_bits, layout_of,
    normalized, skip_zeros, stream_spelling, trimmed_fraction, without_zeros, FloatLayout,
};
use crate::number::{decimal_value, finite_bits};
use crate::number_laws::lemma_digits_parts;
use crate::text::is_digit;
use crate::timestamp::parsed_i64;

verus! {

/// The sign, the exponent and the fraction of a binary64 number are in its highest bit, the eleven
/// behind it, and the rest.
pub proof fn bits_are_told_apart(bits: u64)
    ensures
        is_negative_bits(bits) <==> bits >= 0x8000_0000_0000_0000,
        is_zero_bits(bits) <==> bits == 0 || bits == 0x8000_0000_0000_0000,
        finite_bits(bits) <==> bits as int / 0x10_0000_0000_0000 % 0x800 != 0x7ff,
        has_no_fraction(bits) <==> bits as int % 0x10_0000_0000_0000 == 0,
{
    assert(bits & 0x8000_0000_0000_0000 != 0 <==> bits >= 0x8000_0000_0000_0000) by (bit_vector);
    assert(bits & 0x7fff_ffff_ffff_ffff == 0 <==> bits == 0 || bits == 0x8000_0000_0000_0000)
        by (bit_vector);
    assert((bits >> 52) & 0x7ff == bits / 0x10_0000_0000_0000 % 0x800) by (bit_vector);
    assert(bits & 0x000f_ffff_ffff_ffff == bits % 0x10_0000_0000_0000) by (bit_vector);
}

/// What is no finite number is spelled by its name, and zero by one digit, each behind its sign.
pub proof fn names_are_spelled_behind_their_sign(bits: u64, scientific: Seq<u8>, fixed: Seq<u8>)
    ensures
        ({
            let spelling = stream_spelling(bits, scientific, fixed);
            let sign = if bits >= 0x8000_0000_0000_0000 {
                seq![0x2du8]
            } else {
                Seq::empty()
            };
            let is_finite = bits as int / 0x10_0000_0000_0000 % 0x800 != 0x7ff;
            &&& !is_finite && bits as int % 0x10_0000_0000_0000 == 0 ==> spelling == Some(
                sign + seq![0x69u8, 0x6e, 0x66],
            )
            &&& !is_finite && bits as int % 0x10_0000_0000_0000 != 0 ==> spelling == Some(
                sign + seq![0x6eu8, 0x61, 0x6e],
            )
            &&& bits == 0 || bits == 0x8000_0000_0000_0000 ==> spelling == Some(
                sign + seq![0x30u8],
            )
        }),
{
    bits_are_told_apart(bits);
    assert(finite_bits(0) && finite_bits(0x8000_0000_0000_0000)) by {
        bits_are_told_apart(0);
        bits_are_told_apart(0x8000_0000_0000_0000);
    }
    let text = seq![0x69u8, 0x6e, 0x66];
    assert(Seq::<u8>::empty() + text =~= text);
    assert(Seq::<u8>::empty() + seq![0x6eu8, 0x61, 0x6e] =~= seq![0x6eu8, 0x61, 0x6e]);
    assert(Seq::<u8>::empty() + seq![0x30u8] =~= seq![0x30u8]);
}

/// A scientific spelling with this exponent.
pub open spec fn scientific_text(mantissa: Seq<u8>, exponent: int) -> Seq<u8> {
    mantissa + seq![0x65u8] + decimal(exponent)
}

proof fn lemma_exponent_start(text: Seq<u8>, at: int, mark: int)
    requires
        0 <= at <= mark < text.len(),
        text[mark] == 0x65,
        forall|i: int| at <= i < mark ==> #[trigger] text[i] != 0x65,
    ensures
        exponent_start(text, at) == mark + 1,
        first_of(text, 0x65, 0x65, at) == mark,
    decreases mark - at,
{
    if at < mark {
        assert(text[at] != 0x65);
        lemma_exponent_start(text, at + 1, mark);
    }
}

proof fn lemma_decimal_parsed(value: int)
    requires
        i64::MIN <= value <= i64::MAX,
    ensures
        parsed_i64(decimal(value)) == Some(value),
{
    let size = if value < 0 {
        (-value) as nat
    } else {
        value as nat
    };
    lemma_digits(size);
    assert(is_digit(digits(size)[0]));
    if value < 0 {
        assert(decimal(value).skip(1) =~= digits(size));
    }
}

/// The exponent of the six digits decides their layout: from minus four to five the point stands
/// among the digits or close before them, with as many places as six digits have; beyond, the
/// number is spelled with its exponent.
pub proof fn exponents_decide_the_layout(bits: u64, mantissa: Seq<u8>, exponent: int)
    requires
        forall|i: int| 0 <= i < mantissa.len() ==> #[trigger] mantissa[i] != 0x65,
        -1000 < exponent < 1000,
        finite_bits(bits),
        !is_zero_bits(bits),
    ensures
        layout_of(bits, scientific_text(mantissa, exponent)) == (if -4 <= exponent <= 5 {
            FloatLayout::Fixed { places: (5 - exponent) as usize }
        } else {
            FloatLayout::Scientific
        }),
{
    let text = scientific_text(mantissa, exponent);
    let mark = mantissa.len() as int;
    assert(text[mark] == 0x65);
    assert forall|i: int| 0 <= i < mark implies #[trigger] text[i] != 0x65 by {
        assert(text[i] == mantissa[i]);
    }
    lemma_exponent_start(text, 0, mark);
    assert(text.skip(mark + 1) =~= decimal(exponent));
    lemma_decimal_parsed(exponent);
}

/// Zeros.
pub open spec fn zero_run(count: nat) -> Seq<u8> {
    Seq::new(count, |i: int| 0x30u8)
}

proof fn lemma_zeros_dropped(text: Seq<u8>, count: nat)
    requires
        text.len() > 0,
        text.last() != 0x30,
    ensures
        without_zeros(text + zero_run(count)) == text,
    decreases count,
{
    let whole = text + zero_run(count);
    if count > 0 {
        let less = (count - 1) as nat;
        assert(whole.drop_last() =~= text + zero_run(less));
        assert(whole.last() == 0x30);
        lemma_zeros_dropped(text, less);
    } else {
        assert(whole =~= text);
    }
}

/// The zeros at the end of a fraction go, and the point with them where nothing is left behind it;
/// all other digits stay.
pub proof fn fractions_lose_their_zeros(whole: Seq<u8>, fraction: Seq<u8>, count: nat)
    requires
        fraction.len() > 0 ==> fraction.last() != 0x30 && fraction.last() != 0x2e,
    ensures
        trimmed_fraction(whole + seq![0x2eu8] + (fraction + zero_run(count))) == (
        if fraction.len() > 0 {
            whole + seq![0x2eu8] + fraction
        } else {
            whole
        }),
        !whole.contains(0x2e) ==> trimmed_fraction(whole) == whole,
{
    let kept = whole + seq![0x2eu8] + fraction;
    let text = whole + seq![0x2eu8] + (fraction + zero_run(count));
    assert(text =~= kept + zero_run(count));
    assert(text[whole.len() as int] == 0x2e);
    assert(text.contains(0x2e));
    if fraction.len() > 0 {
        assert(kept.last() == fraction.last());
    } else {
        assert(kept.last() == 0x2e);
        assert(kept.drop_last() =~= whole);
    }
    lemma_zeros_dropped(kept, count);
}

/// An exponent is spelled with its sign and with two digits at least.
pub proof fn exponents_are_spelled_with_their_sign(
    whole: Seq<u8>,
    fraction: Seq<u8>,
    count: nat,
    exponent: int,
)
    requires
        fraction.len() > 0 ==> fraction.last() != 0x30 && fraction.last() != 0x2e,
        forall|i: int| 0 <= i < whole.len() ==> #[trigger] whole[i] != 0x65,
        forall|i: int| 0 <= i < fraction.len() ==> #[trigger] fraction[i] != 0x65,
        exponent != 0,
        -1000 < exponent < 1000,
        whole.len() + fraction.len() <= 20,
    ensures
        ({
            let mantissa = whole + seq![0x2eu8] + (fraction + zero_run(count));
            let size = if exponent < 0 {
                -exponent
            } else {
                exponent
            };
            normalized(scientific_text(mantissa, exponent)) == Some(
                (if fraction.len() > 0 {
                    whole + seq![0x2eu8] + fraction
                } else {
                    whole
                }) + seq![
                    0x65u8,
                    if exponent < 0 {
                        0x2du8
                    } else {
                        0x2bu8
                    },
                ] + (if size < 10 {
                    seq![0x30u8]
                } else {
                    Seq::empty()
                }) + digits(size as nat),
            )
        }),
{
    let mantissa = whole + seq![0x2eu8] + (fraction + zero_run(count));
    let text = scientific_text(mantissa, exponent);
    let mark = mantissa.len() as int;
    let size = if exponent < 0 {
        -exponent
    } else {
        exponent
    };
    let run = digits(size as nat);
    fractions_lose_their_zeros(whole, fraction, count);
    assert(mantissa[whole.len() as int] == 0x2e);
    assert(mantissa.contains(0x2e));
    assert forall|i: int| 0 <= i < mark implies #[trigger] text[i] != 0x65 by {
        assert(text[i] == mantissa[i]);
        if i > whole.len() {
            let j = i - whole.len() - 1;
            assert(mantissa[i] == (fraction + zero_run(count))[j]);
            if j < fraction.len() {
                assert(mantissa[i] == fraction[j]);
            } else {
                assert(mantissa[i] == 0x30);
            }
        } else if i < whole.len() {
            assert(mantissa[i] == whole[i]);
        }
    }
    assert(text[mark] == 0x65);
    lemma_exponent_start(text, 0, mark);
    assert(text.take(mark) =~= mantissa);
    lemma_digits(size as nat);
    lemma_digits_parts(size as nat);
    assert(is_digit(run[0]));
    assert(run[0] != 0x30) by {
        if run.len() == 1 && run[0] == 0x30 {
            assert(decimal_value(run) == 0) by {
                assert(run.drop_last() =~= Seq::<u8>::empty());
                assert(decimal_value(run.drop_last()) == 0);
            }
        }
    }
    let start = if exponent < 0 {
        mark + 2
    } else {
        mark + 1
    };
    assert(text[mark + 1] == decimal(exponent)[0]);
    assert(text[start] == run[0]);
    assert(skip_zeros(text, start) == start);
    assert(text.skip(start) =~= run);
    assert(crate::decimal::power_of_ten(3) == 1000) by {
        reveal_with_fuel(crate::decimal::power_of_ten, 4);
    }
    crate::decimal::lemma_digits_length(size as nat, 3);
    assert(run.len() == 1 <==> size < 10) by {
        if size >= 10 {
            lemma_digits(size as nat / 10);
        }
    }
}

} // verus!
