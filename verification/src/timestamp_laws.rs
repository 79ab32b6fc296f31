//! What timestamps mean: one instant has one epoch, however it is spelled.

use vstd::prelude::*;

use crate::decimal::{lemma_padded_of_value, power_of_ten};
use crate::number::decimal_value;
use crate::text::{is_digit, skip_digits, MINUS, ZERO};
use crate::timestamp::{
    all_digits, civil_days, date_fraction, date_pattern, date_time_epoch, days_before_month,
    epoch_unit, fraction_nanoseconds, fraction_pattern, fractional_epoch, integer_epoch, is_date,
    month_days, point_from, precision_of, FractionPrecision,
};

verus! {

/// Seconds of the first year after the epoch.
pub open spec fn first_year_seconds() -> int {
    365int * 24 * 60 * 60
}

/// An integer has the unit that keeps its instant in the era after the first year: it counts seconds
/// up to as many as that year has milliseconds, milliseconds up to as many as it has microseconds,
/// microseconds up to as many as it has nanoseconds, and nanoseconds beyond.
pub proof fn integers_count_in_the_unit_of_their_era(value: i64, quoted: bool)
    requires
        value != i64::MIN,
    ensures
        ({
            let year = first_year_seconds();
            let size = if value < 0 {
                -value
            } else {
                value as int
            };
            let resolved = integer_epoch(value, quoted);
            &&& size <= year * 1_000 ==> match resolved {
                Ok(timestamp) => timestamp.epoch == value * 1_000_000_000 && timestamp.pattern
                    == (if quoted {
                    "\"\\E\""@
                } else {
                    "\\E"@
                }),
                Err(error) => error is EpochNanosecondsOutOfRange && size > 9_223_372_036,
            }
            &&& year * 1_000 < size <= year * 1_000_000 ==> match resolved {
                Ok(timestamp) => timestamp.epoch == value * 1_000_000 && timestamp.pattern
                    == (if quoted {
                    "\"\\L\""@
                } else {
                    "\\L"@
                }),
                Err(error) => error is EpochNanosecondsOutOfRange && size > 9_223_372_036_854,
            }
            &&& year * 1_000_000 < size <= year * 1_000_000_000 ==> match resolved {
                Ok(timestamp) => timestamp.epoch == value * 1_000 && timestamp.pattern == (
                if quoted {
                    "\"\\C\""@
                } else {
                    "\\C"@
                }),
                Err(error) => error is EpochNanosecondsOutOfRange && size > 9_223_372_036_854_775,
            }
            &&& year * 1_000_000_000 < size ==> match resolved {
                Ok(timestamp) => timestamp.epoch == value && timestamp.pattern == (if quoted {
                    "\"\\N\""@
                } else {
                    "\\N"@
                }),
                Err(_) => false,
            }
        }),
{
}

/// An instant after the first year has one epoch, whether it is counted in seconds, milliseconds,
/// microseconds or nanoseconds.
pub proof fn units_do_not_move_an_instant(seconds: int, quoted: bool)
    requires
        first_year_seconds() < seconds <= 9_223_372_036 || -9_223_372_036 <= seconds
            < -first_year_seconds(),
    ensures
        ({
            let epoch = seconds * 1_000_000_000;
            &&& integer_epoch(seconds as i64, quoted) matches Ok(first) && first.epoch == epoch
            &&& integer_epoch((seconds * 1_000) as i64, quoted) matches Ok(second) && second.epoch
                == epoch
            &&& integer_epoch((seconds * 1_000_000) as i64, quoted) matches Ok(third)
                && third.epoch == epoch
            &&& integer_epoch((seconds * 1_000_000_000) as i64, quoted) matches Ok(fourth)
                && fourth.epoch == epoch
        }),
{
}

/// Opposite integers are opposite instants.
pub proof fn opposite_integers_are_opposite_instants(value: i64, quoted: bool)
    requires
        value > 0,
    ensures
        ({
            let later = integer_epoch(value, quoted);
            let earlier = integer_epoch((-value) as i64, quoted);
            &&& later is Ok <==> earlier is Ok
            &&& later matches Ok(timestamp) ==> timestamp.epoch > 0 && (earlier matches Ok(opposite)
                && opposite.epoch == -timestamp.epoch && opposite.pattern == timestamp.pattern)
        }),
{
    let unit = epoch_unit(value as int);
    assert(unit == 1 || unit == 1_000 || unit == 1_000_000 || unit == 1_000_000_000);
    assert(value * 1_000 != 0x8000_0000_0000_0000);
    assert(value * 1_000_000 != 0x8000_0000_0000_0000);
    assert(value * 1_000_000_000 != 0x8000_0000_0000_0000);
    assert((-value) * unit == -(value * unit)) by (nonlinear_arith);
    assert(value * unit > 0) by (nonlinear_arith)
        requires
            value > 0,
            unit > 0,
    ;
}

/// A month has the days of the Gregorian calendar: February has one more in every fourth year, but
/// for the centuries that four does not divide.
pub proof fn months_have_their_days(year: int, month: int)
    requires
        0 <= year,
        1 <= month <= 12,
    ensures
        month == 1 || month == 3 || month == 5 || month == 7 || month == 8 || month == 10 || month
            == 12 ==> month_days(year, month) == 31,
        month == 4 || month == 6 || month == 9 || month == 11 ==> month_days(year, month) == 30,
        month == 2 ==> month_days(year, month) == (if year % 400 == 0 {
            29int
        } else if year % 100 == 0 {
            28
        } else if year % 4 == 0 {
            29
        } else {
            28
        }),
{
    if year % 400 == 0 {
        assert(year % 100 == 0 && year % 4 == 0);
    }
    if year % 100 == 0 {
        assert(year % 4 == 0);
    }
}

/// Four centuries have as many days as four hundred years with ninety-seven leap days, wherever
/// they begin.
pub proof fn centuries_repeat(year: int, month: int, day: int)
    requires
        0 <= year,
    ensures
        civil_days(year + 400, month, day) == civil_days(year, month, day) + 400 * 365 + 97,
    decreases month,
{
    lemma_month_repeats(year, month);
    assert((year + 400 + 3) / 4 == (year + 3) / 4 + 100);
    assert((year + 400 + 99) / 100 == (year + 99) / 100 + 4);
    assert((year + 400 + 399) / 400 == (year + 399) / 400 + 1);
}

proof fn lemma_month_repeats(year: int, month: int)
    requires
        0 <= year,
    ensures
        days_before_month(year + 400, month) == days_before_month(year, month),
    decreases month,
{
    if month > 1 {
        lemma_month_repeats(year, month - 1);
        assert((year + 400) % 4 == year % 4);
        assert((year + 400) % 100 == year % 100);
        assert((year + 400) % 400 == year % 400);
    }
}

/// Some zeros.
pub open spec fn zero_digits(count: nat) -> Seq<u8> {
    Seq::new(count, |i: int| 0x30u8)
}

proof fn lemma_zeros_behind(digits: Seq<u8>, count: nat)
    ensures
        decimal_value(digits + zero_digits(count)) == decimal_value(digits) * power_of_ten(count),
    decreases count,
{
    let whole = digits + zero_digits(count);
    if count == 0 {
        assert(whole =~= digits);
        assert(decimal_value(digits) * 1 == decimal_value(digits));
    } else {
        let less = (count - 1) as nat;
        lemma_zeros_behind(digits, less);
        assert(whole.drop_last() =~= digits + zero_digits(less));
        let value = decimal_value(digits) as int;
        let power = power_of_ten(less) as int;
        assert(value * power * 10 == value * (10 * power)) by (nonlinear_arith);
    }
}

/// A fraction of a second is as many nanoseconds as its digits count once they are nine: zeros
/// behind them change nothing.
pub proof fn fractions_count_nanoseconds(fraction: Seq<u8>)
    requires
        fraction.len() <= 9,
    ensures
        fraction_nanoseconds(fraction) == decimal_value(
            fraction + zero_digits((9 - fraction.len()) as nat),
        ),
{
    lemma_zeros_behind(fraction, (9 - fraction.len()) as nat);
}

/// Whether a text begins with a date and a time of day: year, month, day, hour, minute and second
/// in four and five times two digits, with hyphens between the first three, a `T` or a space behind
/// them, and colons between the last three.
pub open spec fn is_date_time(
    text: Seq<u8>,
    year: int,
    month: int,
    day: int,
    hour: int,
    minute: int,
    second: int,
) -> bool {
    &&& text.len() >= 19
    &&& is_field(text, 0, 4, year)
    &&& text[4] == 0x2d
    &&& is_field(text, 5, 2, month)
    &&& text[7] == 0x2d
    &&& is_field(text, 8, 2, day)
    &&& text[10] == 0x54 || text[10] == 0x20
    &&& is_field(text, 11, 2, hour)
    &&& text[13] == 0x3a
    &&& is_field(text, 14, 2, minute)
    &&& text[16] == 0x3a
    &&& is_field(text, 17, 2, second)
}

/// Whether the digits at `at` spell a number.
pub open spec fn is_field(text: Seq<u8>, at: int, count: int, value: int) -> bool {
    let run = text.subrange(at, at + count);
    all_digits(run) && decimal_value(run) == value
}

/// Seconds from the first second of 1970 to a second of a day.
pub open spec fn instant_of(
    year: int,
    month: int,
    day: int,
    hour: int,
    minute: int,
    second: int,
) -> int {
    ((civil_days(year, month, day) * 24 + hour) * 60 + minute) * 60 + second
}

/// A date and a time of day, with or without a `Z` behind it, is the instant of that second, and
/// so is the integer that counts its seconds.
pub proof fn date_times_are_their_instants(
    text: Seq<u8>,
    year: int,
    month: int,
    day: int,
    hour: int,
    minute: int,
    second: int,
)
    requires
        is_date_time(text, year, month, day, hour, minute, second),
        text.len() == 19 || (text.len() == 20 && text[19] == 0x5a),
    ensures
        ({
            let instant = instant_of(year, month, day, hour, minute, second);
            let exists_so = is_date(year, month, day) && hour < 24 && minute < 60 && second < 60;
            match date_time_epoch(text) {
                Ok(timestamp) => {
                    &&& exists_so
                    &&& timestamp.epoch == instant * 1_000_000_000
                    &&& -9_223_372_036 <= instant <= 9_223_372_036 ==> (integer_epoch(
                        instant as i64,
                        true,
                    ) matches Ok(counted) && counted.epoch == timestamp.epoch)
                },
                Err(error) => if exists_so {
                    error is EpochNanosecondsOutOfRange && !(i64::MIN <= instant * 1_000_000_000
                        <= i64::MAX)
                } else {
                    error is UnsupportedLexeme
                },
            }
        }),
{
    let instant = instant_of(year, month, day, hour, minute, second);
    assert(instant == civil_days(year, month, day) * 86_400 + hour * 3_600 + minute * 60 + second);
}

/// A fraction behind a date and a time of day, after a point or a comma, moves its instant by as
/// many nanoseconds as it counts.
pub proof fn date_fractions_move_the_instant(
    text: Seq<u8>,
    fraction: Seq<u8>,
    year: int,
    month: int,
    day: int,
    hour: int,
    minute: int,
    second: int,
)
    requires
        is_date_time(text, year, month, day, hour, minute, second),
        0 < fraction.len() <= 9,
        all_digits(fraction),
        text.len() == 20 + fraction.len() || (text.len() == 21 + fraction.len() && text.last()
            == 0x5a),
        text[19] == 0x2e || text[19] == 0x2c,
        text.subrange(20, (20 + fraction.len()) as int) == fraction,
    ensures
        date_time_epoch(text) matches Ok(timestamp) ==> timestamp.epoch == instant_of(
            year,
            month,
            day,
            hour,
            minute,
            second,
        ) * 1_000_000_000 + decimal_value(fraction + zero_digits((9 - fraction.len()) as nat)),
        date_time_epoch(text) matches Err(error) && error is UnsupportedLexeme && is_date(
            year,
            month,
            day,
        ) && hour < 24 && minute < 60 && second < 60 ==> fraction.len() % 3 != 0
            && fraction.last() == 0x30,
{
    let end = (20 + fraction.len()) as int;
    let run = text.subrange(20, end);
    lemma_digits_end(text, 20, end);
    fractions_count_nanoseconds(fraction);
    let instant = instant_of(year, month, day, hour, minute, second);
    assert(instant == civil_days(year, month, day) * 86_400 + hour * 3_600 + minute * 60 + second);
    assert(date_fraction(text) == fraction);
}

proof fn lemma_digits_end(text: Seq<u8>, at: int, end: int)
    requires
        0 <= at <= end <= text.len(),
        all_digits(text.subrange(at, end)),
        end < text.len() ==> !is_digit(text[end]),
    ensures
        skip_digits(text, at) == end,
    decreases end - at,
{
    if at < end {
        assert(text.subrange(at, end)[0] == text[at]);
        assert(is_digit(text[at]));
        assert forall|i: int| 0 <= i < end - at - 1 implies is_digit(
            #[trigger] text.subrange(at + 1, end)[i],
        ) by {
            assert(text.subrange(at, end)[i + 1] == text[at + 1 + i]);
        }
        lemma_digits_end(text, at + 1, end);
    }
}

/// The letter of a pattern that stands for a fraction.
pub open spec fn fraction_letter(precision: FractionPrecision) -> char {
    match precision {
        FractionPrecision::Milliseconds => '3',
        FractionPrecision::Microseconds => '6',
        FractionPrecision::Nanoseconds => '9',
        FractionPrecision::Variable => 'T',
    }
}

pub open spec fn in_pattern_quotes(pattern: Seq<char>, quoted: bool) -> Seq<char> {
    if quoted {
        seq!['"'] + pattern + seq!['"']
    } else {
        pattern
    }
}

/// The pattern of a fractional epoch names the seconds, the point and the digits of the fraction,
/// and stands in quotes where the timestamp does.
pub proof fn fraction_patterns_are_spelled_out(precision: FractionPrecision, quoted: bool)
    ensures
        fraction_pattern(precision, quoted) == in_pattern_quotes(
            seq!['\\', 'E', '.', '\\', fraction_letter(precision)],
            quoted,
        ),
{
    reveal_strlit("\\E.\\3");
    reveal_strlit("\"\\E.\\3\"");
    reveal_strlit("\\E.\\6");
    reveal_strlit("\"\\E.\\6\"");
    reveal_strlit("\\E.\\9");
    reveal_strlit("\"\\E.\\9\"");
    reveal_strlit("\\E.\\T");
    reveal_strlit("\"\\E.\\T\"");
    assert(fraction_pattern(precision, quoted) =~= in_pattern_quotes(
        seq!['\\', 'E', '.', '\\', fraction_letter(precision)],
        quoted,
    ));
}

/// What the parts of a date-time are named by, in quotes.
pub open spec fn date_time_pattern(
    letter_separator: bool,
    fraction: Option<(bool, FractionPrecision)>,
    zulu: bool,
) -> Seq<char> {
    seq!['"', '\\', 'Y', '-', '\\', 'm', '-', '\\', 'd'] + seq![
        if letter_separator {
            'T'
        } else {
            ' '
        },
    ] + seq!['\\', 'H', ':', '\\', 'M', ':', '\\', 'S'] + (match fraction {
        None => Seq::empty(),
        Some((comma, precision)) => seq![
            if comma {
                ','
            } else {
                '.'
            },
            '\\',
            fraction_letter(precision),
        ],
    }) + (if zulu {
        seq!['Z', '"']
    } else {
        seq!['"']
    })
}

/// The pattern of a date-time names its parts in their order, with the punctuation that stands
/// between them.
#[verifier::rlimit(60)]
#[verifier::spinoff_prover]
pub proof fn date_patterns_are_spelled_out(
    letter_separator: bool,
    fraction: Option<(bool, FractionPrecision)>,
    zulu: bool,
)
    ensures
        date_pattern(letter_separator, fraction, zulu) == date_time_pattern(
            letter_separator,
            fraction,
            zulu,
        ),
{
    reveal_strlit("\"\\Y-\\m-\\dT\\H:\\M:\\S\"");
    reveal_strlit("\"\\Y-\\m-\\dT\\H:\\M:\\S.\\3\"");
    reveal_strlit("\"\\Y-\\m-\\dT\\H:\\M:\\S.\\6\"");
    reveal_strlit("\"\\Y-\\m-\\dT\\H:\\M:\\S.\\9\"");
    reveal_strlit("\"\\Y-\\m-\\dT\\H:\\M:\\S.\\T\"");
    reveal_strlit("\"\\Y-\\m-\\dT\\H:\\M:\\S,\\3\"");
    reveal_strlit("\"\\Y-\\m-\\dT\\H:\\M:\\S,\\6\"");
    reveal_strlit("\"\\Y-\\m-\\dT\\H:\\M:\\S,\\9\"");
    reveal_strlit("\"\\Y-\\m-\\dT\\H:\\M:\\S,\\T\"");
    reveal_strlit("\"\\Y-\\m-\\dT\\H:\\M:\\SZ\"");
    reveal_strlit("\"\\Y-\\m-\\dT\\H:\\M:\\S.\\3Z\"");
    reveal_strlit("\"\\Y-\\m-\\dT\\H:\\M:\\S.\\6Z\"");
    reveal_strlit("\"\\Y-\\m-\\dT\\H:\\M:\\S.\\9Z\"");
    reveal_strlit("\"\\Y-\\m-\\dT\\H:\\M:\\S.\\TZ\"");
    reveal_strlit("\"\\Y-\\m-\\dT\\H:\\M:\\S,\\3Z\"");
    reveal_strlit("\"\\Y-\\m-\\dT\\H:\\M:\\S,\\6Z\"");
    reveal_strlit("\"\\Y-\\m-\\dT\\H:\\M:\\S,\\9Z\"");
    reveal_strlit("\"\\Y-\\m-\\dT\\H:\\M:\\S,\\TZ\"");
    reveal_strlit("\"\\Y-\\m-\\d \\H:\\M:\\S\"");
    reveal_strlit("\"\\Y-\\m-\\d \\H:\\M:\\S.\\3\"");
    reveal_strlit("\"\\Y-\\m-\\d \\H:\\M:\\S.\\6\"");
    reveal_strlit("\"\\Y-\\m-\\d \\H:\\M:\\S.\\9\"");
    reveal_strlit("\"\\Y-\\m-\\d \\H:\\M:\\S.\\T\"");
    reveal_strlit("\"\\Y-\\m-\\d \\H:\\M:\\S,\\3\"");
    reveal_strlit("\"\\Y-\\m-\\d \\H:\\M:\\S,\\6\"");
    reveal_strlit("\"\\Y-\\m-\\d \\H:\\M:\\S,\\9\"");
    reveal_strlit("\"\\Y-\\m-\\d \\H:\\M:\\S,\\T\"");
    reveal_strlit("\"\\Y-\\m-\\d \\H:\\M:\\SZ\"");
    reveal_strlit("\"\\Y-\\m-\\d \\H:\\M:\\S.\\3Z\"");
    reveal_strlit("\"\\Y-\\m-\\d \\H:\\M:\\S.\\6Z\"");
    reveal_strlit("\"\\Y-\\m-\\d \\H:\\M:\\S.\\9Z\"");
    reveal_strlit("\"\\Y-\\m-\\d \\H:\\M:\\S.\\TZ\"");
    reveal_strlit("\"\\Y-\\m-\\d \\H:\\M:\\S,\\3Z\"");
    reveal_strlit("\"\\Y-\\m-\\d \\H:\\M:\\S,\\6Z\"");
    reveal_strlit("\"\\Y-\\m-\\d \\H:\\M:\\S,\\9Z\"");
    reveal_strlit("\"\\Y-\\m-\\d \\H:\\M:\\S,\\TZ\"");
    assert(date_pattern(letter_separator, fraction, zulu) =~= date_time_pattern(
        letter_separator,
        fraction,
        zulu,
    ));
}

/// The precision of a fraction is that of its digits: three, six and nine are named by their number,
/// and any other number of them must not end in a zero.
pub proof fn precisions_are_digit_counts(fraction: Seq<u8>)
    ensures
        fraction.len() == 3 <==> precision_of(fraction) == Some(FractionPrecision::Milliseconds),
        fraction.len() == 6 <==> precision_of(fraction) == Some(FractionPrecision::Microseconds),
        fraction.len() == 9 <==> precision_of(fraction) == Some(FractionPrecision::Nanoseconds),
        precision_of(fraction) is None <==> fraction.len() == 0 || (fraction.len() != 3
            && fraction.len() != 6 && fraction.len() != 9 && fraction.last() == 0x30),
{
}

/// A number of seconds with a fraction, as it is spelled.
pub open spec fn spelled_fraction(negative: bool, whole: Seq<u8>, fraction: Seq<u8>) -> Seq<u8> {
    (if negative {
        seq![0x2du8]
    } else {
        Seq::empty()
    }) + whole + seq![0x2eu8] + fraction
}

proof fn lemma_point(text: Seq<u8>, at: int, point: int)
    requires
        0 <= at <= point < text.len(),
        forall|i: int| at <= i < point ==> #[trigger] text[i] != 0x2e,
        text[point] == 0x2e,
    ensures
        point_from(text, at) == point,
    decreases point - at,
{
    if at < point {
        assert(text[at] != 0x2e);
        lemma_point(text, at + 1, point);
    }
}

/// A number of seconds with a fraction is its seconds and the nanoseconds of its fraction, to the
/// side of its sign.
pub proof fn fractional_epochs_are_their_instants(
    negative: bool,
    whole: Seq<u8>,
    fraction: Seq<u8>,
    quoted: bool,
    fixed: bool,
)
    requires
        whole.len() > 0,
        all_digits(whole),
        0 < fraction.len() <= 9,
        all_digits(fraction),
    ensures
        ({
            let size = decimal_value(whole) * 1_000_000_000 + decimal_value(
                fraction + zero_digits((9 - fraction.len()) as nat),
            );
            match fractional_epoch(spelled_fraction(negative, whole, fraction), quoted, fixed) {
                Ok(timestamp) => {
                    &&& timestamp.epoch == (if negative {
                        -(size as int)
                    } else {
                        size as int
                    })
                    &&& precision_of(fraction) matches Some(precision) && timestamp.pattern
                        == in_pattern_quotes(
                        seq!['\\', 'E', '.', '\\', fraction_letter(precision)],
                        quoted,
                    )
                },
                Err(error) => {
                    ||| error is EpochNanosecondsOutOfRange && size > i64::MAX
                    ||| error is UnsupportedLexeme && (precision_of(fraction) is None || (fixed
                        && fraction.len() != 9) || (!fixed && negative && whole == seq![0x30u8]))
                },
            }
        }),
{
    let source = spelled_fraction(negative, whole, fraction);
    let sign = if negative {
        1int
    } else {
        0
    };
    let point = sign + whole.len();
    assert forall|i: int| 0 <= i < point implies #[trigger] source[i] != 0x2e by {
        if i >= sign {
            assert(is_digit(whole[i - sign]));
        }
    }
    lemma_point(source, 0, point);
    let seconds = source.take(point);
    assert(source.skip(point + 1) =~= fraction);
    fractions_count_nanoseconds(fraction);
    assert(is_digit(whole[0]));
    if negative {
        assert(seconds.skip(1) =~= whole);
        assert(seconds[0] == MINUS);
        if seconds == seq![MINUS, ZERO] {
            assert(whole =~= seq![0x30u8]);
        }
    } else {
        assert(seconds =~= whole);
        assert(seconds != seq![MINUS, ZERO]) by {
            assert(seq![MINUS, ZERO][0] == MINUS);
        }
    }
    lemma_nanoseconds_below(fraction);
    match precision_of(fraction) {
        Some(precision) => fraction_patterns_are_spelled_out(precision, quoted),
        None => {},
    }
}

proof fn lemma_nanoseconds_below(fraction: Seq<u8>)
    requires
        fraction.len() <= 9,
        all_digits(fraction),
    ensures
        decimal_value(fraction + zero_digits((9 - fraction.len()) as nat)) < 1_000_000_000,
{
    let whole = fraction + zero_digits((9 - fraction.len()) as nat);
    assert forall|i: int| 0 <= i < whole.len() implies is_digit(#[trigger] whole[i]) by {
        if i < fraction.len() {
            assert(is_digit(fraction[i]));
        }
    }
    lemma_padded_of_value(whole);
    reveal_with_fuel(power_of_ten, 10);
}

} // verus!
