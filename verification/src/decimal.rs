//! Decimal spelling of integers.

use vstd::prelude::*;

use crate::number::decimal_value;
use crate::text::{is_digit, MINUS};

verus! {

/// Decimal digits of a number, without leading zeros.
pub open spec fn digits(number: nat) -> Seq<u8>
    decreases number,
{
    if number < 10 {
        seq![(0x30 + number) as u8]
    } else {
        digits(number / 10).push((0x30 + number % 10) as u8)
    }
}

/// Decimal spelling of an integer.
pub open spec fn decimal(value: int) -> Seq<u8> {
    if value < 0 {
        seq![MINUS] + digits((-value) as nat)
    } else {
        digits(value as nat)
    }
}

/// The lowest `count` decimal digits of a number, with leading zeros.
pub open spec fn padded(number: nat, count: nat) -> Seq<u8>
    decreases count,
{
    if count == 0 {
        Seq::empty()
    } else {
        padded(number / 10, (count - 1) as nat).push((0x30 + number % 10) as u8)
    }
}

/// Ten to the power of `count`.
pub open spec fn power_of_ten(count: nat) -> nat
    decreases count,
{
    if count == 0 {
        1
    } else {
        10 * power_of_ten((count - 1) as nat)
    }
}

pub proof fn lemma_padded(number: nat, count: nat)
    ensures
        padded(number, count).len() == count,
        forall|i: int| 0 <= i < count ==> is_digit(#[trigger] padded(number, count)[i]),
    decreases count,
{
    if count > 0 {
        lemma_padded(number / 10, (count - 1) as nat);
    }
}

pub proof fn lemma_digits(number: nat)
    ensures
        digits(number).len() > 0,
        forall|i: int| 0 <= i < digits(number).len() ==> is_digit(#[trigger] digits(number)[i]),
        decimal_value(digits(number)) == number,
    decreases number,
{
    if number >= 10 {
        lemma_digits(number / 10);
        assert(digits(number).drop_last() =~= digits(number / 10));
    } else {
        assert(digits(number).drop_last() =~= Seq::<u8>::empty());
        assert(decimal_value(digits(number).drop_last()) == 0);
    }
}

/// A run of digits is the padded spelling of its own value.
pub proof fn lemma_padded_of_value(run: Seq<u8>)
    requires
        forall|i: int| 0 <= i < run.len() ==> is_digit(#[trigger] run[i]),
    ensures
        padded(decimal_value(run), run.len()) == run,
        decimal_value(run) < power_of_ten(run.len()),
    decreases run.len(),
{
    if run.len() > 0 {
        let shorter = run.drop_last();
        assert forall|i: int| 0 <= i < shorter.len() implies is_digit(#[trigger] shorter[i]) by {
            assert(is_digit(run[i]));
        }
        lemma_padded_of_value(shorter);
        assert(is_digit(run[run.len() - 1]));
        let value = decimal_value(run);
        assert(value / 10 == decimal_value(shorter));
        assert(value % 10 == run.last() - 0x30);
        assert(padded(value, run.len()) =~= run);
    } else {
        assert(padded(decimal_value(run), run.len()) =~= run);
    }
}

/// A run of digits without leading zeros is the decimal spelling of its own value.
pub proof fn lemma_digits_of_value(run: Seq<u8>)
    requires
        run.len() > 0,
        forall|i: int| 0 <= i < run.len() ==> is_digit(#[trigger] run[i]),
        run.len() > 1 ==> run[0] != 0x30,
    ensures
        digits(decimal_value(run)) == run,
        run[0] != 0x30 ==> decimal_value(run) > 0,
    decreases run.len(),
{
    let shorter = run.drop_last();
    assert forall|i: int| 0 <= i < shorter.len() implies is_digit(#[trigger] shorter[i]) by {
        assert(is_digit(run[i]));
    }
    assert(is_digit(run[run.len() - 1]));
    let value = decimal_value(run);
    if run.len() == 1 {
        assert(decimal_value(shorter) == 0);
        assert(digits(value) =~= run);
    } else {
        lemma_digits_of_value(shorter);
        assert(value / 10 == decimal_value(shorter));
        assert(value % 10 == run.last() - 0x30);
        assert(value >= 10);
        assert(digits(value) =~= run);
    }
}

pub proof fn lemma_power_of_ten_grows(low: nat, high: nat)
    requires
        low <= high,
    ensures
        0 < power_of_ten(low) <= power_of_ten(high),
    decreases high,
{
    if low < high {
        lemma_power_of_ten_grows(low, (high - 1) as nat);
    } else if low > 0 {
        lemma_power_of_ten_grows((low - 1) as nat, (low - 1) as nat);
    }
}

pub proof fn lemma_digits_length(number: nat, count: nat)
    requires
        number < power_of_ten(count),
        count > 0,
    ensures
        digits(number).len() <= count,
    decreases count,
{
    if number >= 10 {
        lemma_power_of_ten_grows(1, 1);
        if count == 1 {
            assert(power_of_ten(0) == 1);
        } else {
            lemma_digits_length(number / 10, (count - 1) as nat);
        }
    }
}

pub proof fn lemma_ten_to_sixteen()
    ensures
        power_of_ten(8) == 100_000_000,
        power_of_ten(16) == 10_000_000_000_000_000,
{
    reveal_with_fuel(power_of_ten, 17);
}

/// Spells an unsigned number in decimal.
pub fn decimal_digits(number: u64) -> (text: Vec<u8>)
    ensures
        text@ == digits(number as nat),
    decreases number,
{
    if number < 10 {
        let mut text: Vec<u8> = Vec::new();
        text.push(0x30 + number as u8);
        assert(text@ =~= digits(number as nat));
        text
    } else {
        let mut text = decimal_digits(number / 10);
        text.push(0x30 + (number % 10) as u8);
        text
    }
}

/// Absolute value of a signed number.
pub fn magnitude_of(value: i64) -> (magnitude: u64)
    ensures
        magnitude == (if value < 0 {
            -value
        } else {
            value as int
        }),
{
    if value >= 0 {
        value as u64
    } else if value == i64::MIN {
        0x8000_0000_0000_0000
    } else {
        (-value) as u64
    }
}

/// Calls `itoa::Buffer::format` on a signed 64-bit integer, which writes its decimal spelling: a
/// minus sign for a negative value, and the digits without leading zeros.
#[verifier::external_body]
pub(crate) fn format_i64(value: i64) -> (text: Vec<u8>)
    ensures
        text@ == decimal(value as int),
{
    itoa::Buffer::new().format(value).as_bytes().to_vec()
}

} // verus!
