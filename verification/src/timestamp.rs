//! Exact recognition of authoritative timestamps.
//!
//! Integer epochs have their unit inferred from their magnitude; fractional epochs are in seconds;
//! quoted `YYYY-MM-DD[T ]HH:MM:SS` date-times may have a `.` or `,` fraction and a literal `Z`.

use vstd::prelude::*;
use vstd::slice::slice_subrange;
use vstd::string::StringSliceAdditionalSpecFns;
use vstd::utf8::valid_utf8;

use crate::decimal::{lemma_padded_of_value, lemma_power_of_ten_grows, magnitude_of, power_of_ten};
use crate::kv_ir::KvIrNamespace;
use crate::ndjson::JsonString;
use crate::number::{
    classify_validated_json_number, decimal_value, digits_end, integer_value, parse_magnitude,
    validated_number, ClassifiedJsonNumber, JsonNumberClassificationError,
    ValidatedJsonNumberSyntax,
};
use crate::text::{
    byte_at, is_ascii_digit, is_digit, lemma_skip_digits, skip_digits, utf8_text, COMMA, DOT, MINUS,
    PLUS, QUOTE, ZERO,
};
use crate::timestamp_path::{
    compiled, compiled_with_namespace, default_path_limits, parse_with_namespace,
    JsonTimestampPath, JsonTimestampPathError, JsonTimestampPathLimits, PathView,
};

verus! {

/// Kind of scalar that was not recognized.
#[derive(Clone, Copy, Debug, PartialEq, Eq, Structural)]
#[non_exhaustive]
pub enum JsonTimestampScalarKind {
    Number,
    String,
}

impl JsonTimestampScalarKind {
    /// Human-readable description.
    pub fn description(self) -> (text: &'static str)
        ensures
            text@ == (match self {
                JsonTimestampScalarKind::Number => "number"@,
                JsonTimestampScalarKind::String => "string"@,
            }),
    {
        match self {
            JsonTimestampScalarKind::Number => "number",
            JsonTimestampScalarKind::String => "string",
        }
    }
}

/// Failure to recognize an authoritative timestamp.
#[derive(Clone, Copy, Debug, PartialEq, Eq, Structural)]
#[non_exhaustive]
pub enum JsonTimestampError {
    /// The number's grammar or domain is invalid.
    Number { source: JsonNumberClassificationError },
    /// The token is not UTF-8.
    InvalidUtf8,
    /// The token is valid but no supported timestamp.
    UnsupportedLexeme { kind: JsonTimestampScalarKind },
    /// The timestamp does not fit signed epoch nanoseconds.
    EpochNanosecondsOutOfRange,
}

pub open spec fn unsupported(kind: JsonTimestampScalarKind) -> JsonTimestampError {
    JsonTimestampError::UnsupportedLexeme { kind }
}

/// A recognized timestamp: its epoch in nanoseconds, and the pattern of its spelling.
#[derive(Clone, Copy, Debug)]
pub struct KvIrResolvedTimestamp {
    pub epoch_nanoseconds: i64,
    pub pattern: &'static str,
}

/// What a recognized timestamp says.
pub struct ResolvedView {
    pub epoch: int,
    pub pattern: Seq<char>,
}

impl View for KvIrResolvedTimestamp {
    type V = ResolvedView;

    open spec fn view(&self) -> ResolvedView {
        ResolvedView { epoch: self.epoch_nanoseconds as int, pattern: self.pattern@ }
    }
}

/// Whether a timestamp was recognized as expected.
pub open spec fn resolved_as(
    expected: Result<ResolvedView, JsonTimestampError>,
    result: Result<KvIrResolvedTimestamp, JsonTimestampError>,
) -> bool {
    match result {
        Ok(timestamp) => expected == Ok::<ResolvedView, JsonTimestampError>(timestamp@),
        Err(error) => expected == Err::<ResolvedView, JsonTimestampError>(error),
    }
}

/// Unit of an integer epoch, in nanoseconds, by its magnitude: seconds up to the year 1971 in
/// milliseconds, then milliseconds, microseconds, and nanoseconds likewise.
pub open spec fn epoch_unit(magnitude: int) -> int {
    if magnitude > 31_536_000_000_000_000 {
        1
    } else if magnitude > 31_536_000_000_000 {
        1_000
    } else if magnitude > 31_536_000_000 {
        1_000_000
    } else {
        1_000_000_000
    }
}

pub open spec fn epoch_pattern(unit: int, quoted: bool) -> Seq<char> {
    if unit == 1 {
        if quoted {
            "\"\\N\""@
        } else {
            "\\N"@
        }
    } else if unit == 1_000 {
        if quoted {
            "\"\\C\""@
        } else {
            "\\C"@
        }
    } else if unit == 1_000_000 {
        if quoted {
            "\"\\L\""@
        } else {
            "\\L"@
        }
    } else if quoted {
        "\"\\E\""@
    } else {
        "\\E"@
    }
}

pub open spec fn absolute(value: int) -> int {
    if value < 0 {
        -value
    } else {
        value
    }
}

/// An epoch that fits signed nanoseconds, with its pattern.
pub open spec fn epoch_in_range(epoch: int, pattern: Seq<char>) -> Result<
    ResolvedView,
    JsonTimestampError,
> {
    if i64::MIN <= epoch <= i64::MAX {
        Ok(ResolvedView { epoch, pattern })
    } else {
        Err(JsonTimestampError::EpochNanosecondsOutOfRange)
    }
}

/// Timestamp of an integer.
pub open spec fn integer_epoch(value: i64, quoted: bool) -> Result<
    ResolvedView,
    JsonTimestampError,
> {
    if value == i64::MIN {
        Err(JsonTimestampError::EpochNanosecondsOutOfRange)
    } else {
        let unit = epoch_unit(absolute(value as int));
        epoch_in_range(value * unit, epoch_pattern(unit, quoted))
    }
}

/// Precision of a fraction.
#[derive(Clone, Copy, Debug, PartialEq, Eq, Structural)]
pub enum FractionPrecision {
    Milliseconds,
    Microseconds,
    Nanoseconds,
    Variable,
}

/// Precision of a fraction by its digits; a fraction of another length must not end in a zero.
pub open spec fn precision_of(fraction: Seq<u8>) -> Option<FractionPrecision> {
    if fraction.len() == 3 {
        Some(FractionPrecision::Milliseconds)
    } else if fraction.len() == 6 {
        Some(FractionPrecision::Microseconds)
    } else if fraction.len() == 9 {
        Some(FractionPrecision::Nanoseconds)
    } else if fraction.len() == 0 || fraction.last() == ZERO {
        None
    } else {
        Some(FractionPrecision::Variable)
    }
}

pub open spec fn fraction_pattern(precision: FractionPrecision, quoted: bool) -> Seq<char> {
    match (precision, quoted) {
        (FractionPrecision::Milliseconds, false) => "\\E.\\3"@,
        (FractionPrecision::Milliseconds, true) => "\"\\E.\\3\""@,
        (FractionPrecision::Microseconds, false) => "\\E.\\6"@,
        (FractionPrecision::Microseconds, true) => "\"\\E.\\6\""@,
        (FractionPrecision::Nanoseconds, false) => "\\E.\\9"@,
        (FractionPrecision::Nanoseconds, true) => "\"\\E.\\9\""@,
        (FractionPrecision::Variable, false) => "\\E.\\T"@,
        (FractionPrecision::Variable, true) => "\"\\E.\\T\""@,
    }
}

/// Whether all bytes are ASCII digits.
pub open spec fn all_digits(bytes: Seq<u8>) -> bool {
    forall|i: int| 0 <= i < bytes.len() ==> is_digit(#[trigger] bytes[i])
}

/// The signed 64-bit integer that a text spells: an optional sign, and one or more digits.
pub open spec fn parsed_i64(text: Seq<u8>) -> Option<int> {
    let signed = byte_at(text, 0, MINUS) || byte_at(text, 0, PLUS);
    let run = if signed {
        text.skip(1)
    } else {
        text
    };
    let value = if byte_at(text, 0, MINUS) {
        -(decimal_value(run) as int)
    } else {
        decimal_value(run) as int
    };
    if run.len() > 0 && all_digits(run) && i64::MIN <= value <= i64::MAX {
        Some(value)
    } else {
        None
    }
}

/// First decimal point at or after `at`, or the length.
pub open spec fn point_from(text: Seq<u8>, at: int) -> int
    decreases text.len() - at,
{
    if 0 <= at < text.len() && text[at] != DOT {
        point_from(text, at + 1)
    } else {
        at
    }
}

/// Nanoseconds of a fraction of a second.
pub open spec fn fraction_nanoseconds(fraction: Seq<u8>) -> int {
    (decimal_value(fraction) * power_of_ten((9 - fraction.len()) as nat)) as int
}

/// Whether a fractional epoch is spelled in a supported way: `fixed` spellings have nine digits.
pub open spec fn is_fractional_spelling(seconds: Seq<u8>, fraction: Seq<u8>, fixed: bool) -> bool {
    &&& 0 < fraction.len() <= 9
    &&& all_digits(fraction)
    &&& seconds.len() > 0
    &&& fixed || seconds != seq![MINUS, ZERO]
    &&& fixed ==> fraction.len() == 9
}

/// Timestamp of a fractional epoch in seconds.
pub open spec fn fractional_epoch(source: Seq<u8>, quoted: bool, fixed: bool) -> Result<
    ResolvedView,
    JsonTimestampError,
> {
    let point = point_from(source, 0);
    let seconds = source.take(point);
    let fraction = source.skip(point + 1);
    if point >= source.len() || !is_fractional_spelling(seconds, fraction, fixed) {
        Err(unsupported(JsonTimestampScalarKind::Number))
    } else {
        match parsed_i64(seconds) {
            None => Err(JsonTimestampError::EpochNanosecondsOutOfRange),
            Some(whole) => {
                let nanoseconds = fraction_nanoseconds(fraction);
                let epoch = if byte_at(seconds, 0, MINUS) {
                    whole * 1_000_000_000 - nanoseconds
                } else {
                    whole * 1_000_000_000 + nanoseconds
                };
                if !(i64::MIN <= whole * 1_000_000_000 <= i64::MAX) {
                    Err(JsonTimestampError::EpochNanosecondsOutOfRange)
                } else if !(i64::MIN <= epoch <= i64::MAX) {
                    Err(JsonTimestampError::EpochNanosecondsOutOfRange)
                } else {
                    match precision_of(fraction) {
                        None => Err(unsupported(JsonTimestampScalarKind::Number)),
                        Some(precision) => Ok(
                            ResolvedView { epoch, pattern: fraction_pattern(precision, quoted) },
                        ),
                    }
                }
            },
        }
    }
}

/// Whether a year of the proleptic Gregorian calendar has a leap day.
pub open spec fn is_leap_year(year: int) -> bool {
    year % 4 == 0 && (year % 100 != 0 || year % 400 == 0)
}

/// Days of a month.
pub open spec fn month_days(year: int, month: int) -> int {
    if month == 2 {
        if is_leap_year(year) {
            29
        } else {
            28
        }
    } else if month == 4 || month == 6 || month == 9 || month == 11 {
        30
    } else if 1 <= month <= 12 {
        31
    } else {
        0
    }
}

/// Days from the first day of the year zero to the first day of a year.
pub open spec fn days_before_year(year: int) -> int {
    365 * year + (year + 3) / 4 - (year + 99) / 100 + (year + 399) / 400
}

/// Days of a year before the first day of a month.
pub open spec fn days_before_month(year: int, month: int) -> int
    decreases month,
{
    if month <= 1 {
        0
    } else {
        days_before_month(year, month - 1) + month_days(year, month - 1)
    }
}

/// Whether a date exists.
pub open spec fn is_date(year: int, month: int, day: int) -> bool {
    1 <= month <= 12 && 1 <= day <= month_days(year, month)
}

/// Days from the first day of 1970 to a date.
pub open spec fn civil_days(year: int, month: int, day: int) -> int {
    days_before_year(year) + days_before_month(year, month) + (day - 1) - 719_528
}

/// The date after a date.
pub open spec fn next_date(year: int, month: int, day: int) -> (int, int, int) {
    if day < month_days(year, month) {
        (year, month, day + 1)
    } else if month < 12 {
        (year, month + 1, 1)
    } else {
        (year + 1, 1, 1)
    }
}

/// Consecutive dates are consecutive days, and the first day of 1970 is day zero.
pub proof fn dates_are_consecutive_days(year: int, month: int, day: int)
    requires
        0 <= year,
        is_date(year, month, day),
    ensures
        ({
            let (next_year, next_month, next_day) = next_date(year, month, day);
            &&& is_date(next_year, next_month, next_day)
            &&& civil_days(next_year, next_month, next_day) == civil_days(year, month, day) + 1
        }),
        civil_days(1970, 1, 1) == 0,
{
    if day >= month_days(year, month) && month == 12 {
        lemma_year_length(year);
        reveal_with_fuel(days_before_month, 13);
        assert(days_before_month(year + 1, 1) == 0);
    }
}

/// A year has 365 days, and one more where it has a leap day.
proof fn lemma_year_length(year: int)
    requires
        0 <= year,
    ensures
        days_before_year(year + 1) - days_before_year(year) == (if is_leap_year(year) {
            366int
        } else {
            365
        }),
{
    assert((year + 4) / 4 - (year + 3) / 4 == (if year % 4 == 0 {
        1int
    } else {
        0
    }));
    assert((year + 100) / 100 - (year + 99) / 100 == (if year % 100 == 0 {
        1int
    } else {
        0
    }));
    assert((year + 400) / 400 - (year + 399) / 400 == (if year % 400 == 0 {
        1int
    } else {
        0
    }));
}

/// Number spelled by `count` digits at `at`, if they are digits.
pub open spec fn date_digits(text: Seq<u8>, at: int, count: int) -> Option<int> {
    let run = text.subrange(at, at + count);
    if all_digits(run) {
        Some(decimal_value(run) as int)
    } else {
        None
    }
}

/// Whether the punctuation of a date-time stands where it belongs.
pub open spec fn has_date_shape(text: Seq<u8>) -> bool {
    &&& text.len() >= 19
    &&& text[4] == MINUS
    &&& text[7] == MINUS
    &&& text[10] == 0x54 || text[10] == 0x20
    &&& text[13] == 0x3a
    &&& text[16] == 0x3a
}

/// Whether a fraction follows the seconds of a date-time.
pub open spec fn has_fraction(text: Seq<u8>) -> bool {
    byte_at(text, 19, DOT) || byte_at(text, 19, COMMA)
}

/// Digits of the fraction of a date-time.
pub open spec fn date_fraction(text: Seq<u8>) -> Seq<u8> {
    if has_fraction(text) {
        text.subrange(20, skip_digits(text, 20))
    } else {
        Seq::empty()
    }
}

/// End of the seconds and the fraction of a date-time.
pub open spec fn fraction_end(text: Seq<u8>) -> int {
    if has_fraction(text) {
        skip_digits(text, 20)
    } else {
        19
    }
}

/// Whether nothing but an optional `Z` follows the seconds and the fraction of a date-time.
pub open spec fn ends_as_date(text: Seq<u8>) -> bool {
    let end = fraction_end(text);
    if byte_at(text, end, 0x5a) {
        end + 1 == text.len()
    } else {
        end == text.len()
    }
}

/// Pattern of a date-time by its separator (`T` or a space), the punctuation (comma or point) and
/// the precision of its fraction, and its `Z`.
pub open spec fn date_pattern(
    letter_separator: bool,
    fraction: Option<(bool, FractionPrecision)>,
    zulu: bool,
) -> Seq<char> {
    match (letter_separator, fraction, zulu) {
        (true, None, false) => "\"\\Y-\\m-\\dT\\H:\\M:\\S\""@,
        (true, Some((false, FractionPrecision::Milliseconds)), false) => "\"\\Y-\\m-\\dT\\H:\\M:\\S.\\3\""@,
        (true, Some((false, FractionPrecision::Microseconds)), false) => "\"\\Y-\\m-\\dT\\H:\\M:\\S.\\6\""@,
        (true, Some((false, FractionPrecision::Nanoseconds)), false) => "\"\\Y-\\m-\\dT\\H:\\M:\\S.\\9\""@,
        (true, Some((false, FractionPrecision::Variable)), false) => "\"\\Y-\\m-\\dT\\H:\\M:\\S.\\T\""@,
        (true, Some((true, FractionPrecision::Milliseconds)), false) => "\"\\Y-\\m-\\dT\\H:\\M:\\S,\\3\""@,
        (true, Some((true, FractionPrecision::Microseconds)), false) => "\"\\Y-\\m-\\dT\\H:\\M:\\S,\\6\""@,
        (true, Some((true, FractionPrecision::Nanoseconds)), false) => "\"\\Y-\\m-\\dT\\H:\\M:\\S,\\9\""@,
        (true, Some((true, FractionPrecision::Variable)), false) => "\"\\Y-\\m-\\dT\\H:\\M:\\S,\\T\""@,
        (true, None, true) => "\"\\Y-\\m-\\dT\\H:\\M:\\SZ\""@,
        (true, Some((false, FractionPrecision::Milliseconds)), true) => "\"\\Y-\\m-\\dT\\H:\\M:\\S.\\3Z\""@,
        (true, Some((false, FractionPrecision::Microseconds)), true) => "\"\\Y-\\m-\\dT\\H:\\M:\\S.\\6Z\""@,
        (true, Some((false, FractionPrecision::Nanoseconds)), true) => "\"\\Y-\\m-\\dT\\H:\\M:\\S.\\9Z\""@,
        (true, Some((false, FractionPrecision::Variable)), true) => "\"\\Y-\\m-\\dT\\H:\\M:\\S.\\TZ\""@,
        (true, Some((true, FractionPrecision::Milliseconds)), true) => "\"\\Y-\\m-\\dT\\H:\\M:\\S,\\3Z\""@,
        (true, Some((true, FractionPrecision::Microseconds)), true) => "\"\\Y-\\m-\\dT\\H:\\M:\\S,\\6Z\""@,
        (true, Some((true, FractionPrecision::Nanoseconds)), true) => "\"\\Y-\\m-\\dT\\H:\\M:\\S,\\9Z\""@,
        (true, Some((true, FractionPrecision::Variable)), true) => "\"\\Y-\\m-\\dT\\H:\\M:\\S,\\TZ\""@,
        (false, None, false) => "\"\\Y-\\m-\\d \\H:\\M:\\S\""@,
        (false, Some((false, FractionPrecision::Milliseconds)), false) => "\"\\Y-\\m-\\d \\H:\\M:\\S.\\3\""@,
        (false, Some((false, FractionPrecision::Microseconds)), false) => "\"\\Y-\\m-\\d \\H:\\M:\\S.\\6\""@,
        (false, Some((false, FractionPrecision::Nanoseconds)), false) => "\"\\Y-\\m-\\d \\H:\\M:\\S.\\9\""@,
        (false, Some((false, FractionPrecision::Variable)), false) => "\"\\Y-\\m-\\d \\H:\\M:\\S.\\T\""@,
        (false, Some((true, FractionPrecision::Milliseconds)), false) => "\"\\Y-\\m-\\d \\H:\\M:\\S,\\3\""@,
        (false, Some((true, FractionPrecision::Microseconds)), false) => "\"\\Y-\\m-\\d \\H:\\M:\\S,\\6\""@,
        (false, Some((true, FractionPrecision::Nanoseconds)), false) => "\"\\Y-\\m-\\d \\H:\\M:\\S,\\9\""@,
        (false, Some((true, FractionPrecision::Variable)), false) => "\"\\Y-\\m-\\d \\H:\\M:\\S,\\T\""@,
        (false, None, true) => "\"\\Y-\\m-\\d \\H:\\M:\\SZ\""@,
        (false, Some((false, FractionPrecision::Milliseconds)), true) => "\"\\Y-\\m-\\d \\H:\\M:\\S.\\3Z\""@,
        (false, Some((false, FractionPrecision::Microseconds)), true) => "\"\\Y-\\m-\\d \\H:\\M:\\S.\\6Z\""@,
        (false, Some((false, FractionPrecision::Nanoseconds)), true) => "\"\\Y-\\m-\\d \\H:\\M:\\S.\\9Z\""@,
        (false, Some((false, FractionPrecision::Variable)), true) => "\"\\Y-\\m-\\d \\H:\\M:\\S.\\TZ\""@,
        (false, Some((true, FractionPrecision::Milliseconds)), true) => "\"\\Y-\\m-\\d \\H:\\M:\\S,\\3Z\""@,
        (false, Some((true, FractionPrecision::Microseconds)), true) => "\"\\Y-\\m-\\d \\H:\\M:\\S,\\6Z\""@,
        (false, Some((true, FractionPrecision::Nanoseconds)), true) => "\"\\Y-\\m-\\d \\H:\\M:\\S,\\9Z\""@,
        (false, Some((true, FractionPrecision::Variable)), true) => "\"\\Y-\\m-\\d \\H:\\M:\\S,\\TZ\""@,
    }
}

/// Punctuation and precision of the fraction of a date-time.
pub open spec fn date_fraction_form(text: Seq<u8>) -> Option<(bool, FractionPrecision)> {
    if has_fraction(text) {
        match precision_of(date_fraction(text)) {
            Some(precision) => Some((text[19] == COMMA, precision)),
            None => None,
        }
    } else {
        None
    }
}

/// Timestamp of a date-time.
pub open spec fn date_time_epoch(text: Seq<u8>) -> Result<ResolvedView, JsonTimestampError> {
    let invalid = Err(unsupported(JsonTimestampScalarKind::String));
    if !has_date_shape(text) {
        invalid
    } else {
        match (
            date_digits(text, 0, 4),
            date_digits(text, 5, 2),
            date_digits(text, 8, 2),
            date_digits(text, 11, 2),
            date_digits(text, 14, 2),
            date_digits(text, 17, 2),
        ) {
            (Some(year), Some(month), Some(day), Some(hour), Some(minute), Some(second)) => {
                let fraction = date_fraction(text);
                if hour > 23 || minute > 59 || second > 59 || !is_date(year, month, day) {
                    invalid
                } else if has_fraction(text) && (fraction.len() > 9 || precision_of(
                    fraction,
                ) is None) {
                    invalid
                } else if !ends_as_date(text) {
                    invalid
                } else {
                    let seconds = civil_days(year, month, day) * 86_400 + hour * 3_600 + minute * 60
                        + second;
                    let nanoseconds = if has_fraction(text) {
                        fraction_nanoseconds(fraction)
                    } else {
                        0
                    };
                    epoch_in_range(
                        seconds * 1_000_000_000 + nanoseconds,
                        date_pattern(
                            text[10] == 0x54,
                            date_fraction_form(text),
                            byte_at(text, fraction_end(text), 0x5a),
                        ),
                    )
                }
            },
            _ => invalid,
        }
    }
}

/// Whether a text holds digits, minus signs, and points alone, with a point among them.
pub open spec fn is_numeric_with_point(text: Seq<u8>) -> bool {
    &&& forall|i: int|
        0 <= i < text.len() ==> is_digit(#[trigger] text[i]) || text[i] == MINUS || text[i] == DOT
    &&& text.contains(DOT)
}

/// Timestamp of a text, whose kind in an error is that of a string.
pub open spec fn text_epoch(text: Seq<u8>) -> Result<ResolvedView, JsonTimestampError> {
    let resolved = match parsed_i64(text) {
        Some(value) => integer_epoch(value as i64, true),
        None => if is_numeric_with_point(text) {
            fractional_epoch(text, true, false)
        } else {
            date_time_epoch(text)
        },
    };
    match resolved {
        Err(JsonTimestampError::UnsupportedLexeme { .. }) => Err(
            unsupported(JsonTimestampScalarKind::String),
        ),
        other => other,
    }
}

/// Timestamp of a text that must be UTF-8.
pub open spec fn utf8_text_epoch(text: Seq<u8>) -> Result<ResolvedView, JsonTimestampError> {
    if valid_utf8(text) {
        text_epoch(text)
    } else {
        Err(JsonTimestampError::InvalidUtf8)
    }
}

/// Resolves an integer epoch.
fn resolve_integer(value: i64, quoted: bool) -> (result: Result<
    KvIrResolvedTimestamp,
    JsonTimestampError,
>)
    ensures
        resolved_as(integer_epoch(value, quoted), result),
{
    if value == i64::MIN {
        return Err(JsonTimestampError::EpochNanosecondsOutOfRange);
    }
    let magnitude = magnitude_of(value);
    let (unit, plain, with_quotes): (i64, &'static str, &'static str) = if magnitude
        > 31_536_000_000_000_000 {
        (1, "\\N", "\"\\N\"")
    } else if magnitude > 31_536_000_000_000 {
        (1_000, "\\C", "\"\\C\"")
    } else if magnitude > 31_536_000_000 {
        (1_000_000, "\\L", "\"\\L\"")
    } else {
        (1_000_000_000, "\\E", "\"\\E\"")
    };
    match value.checked_mul(unit) {
        None => Err(JsonTimestampError::EpochNanosecondsOutOfRange),
        Some(epoch) => Ok(
            KvIrResolvedTimestamp {
                epoch_nanoseconds: epoch,
                pattern: if quoted {
                    with_quotes
                } else {
                    plain
                },
            },
        ),
    }
}

fn are_digits(bytes: &[u8]) -> (result: bool)
    ensures
        result == all_digits(bytes@),
{
    let mut at: usize = 0;
    while at < bytes.len()
        invariant
            at <= bytes@.len(),
            forall|i: int| 0 <= i < at ==> is_digit(#[trigger] bytes@[i]),
        decreases bytes@.len() - at,
    {
        if !is_ascii_digit(bytes[at]) {
            assert(!is_digit(bytes@[at as int]));
            return false;
        }
        at += 1;
    }
    true
}

/// Reads a signed 64-bit integer: an optional sign, and one or more digits.
pub fn parse_i64(text: &[u8]) -> (result: Option<i64>)
    ensures
        match result {
            Some(value) => parsed_i64(text@) == Some(value as int),
            None => parsed_i64(text@) is None,
        },
{
    let negative = text.len() > 0 && text[0] == MINUS;
    let start: usize = if negative || (text.len() > 0 && text[0] == PLUS) {
        1
    } else {
        0
    };
    let run = slice_subrange(text, start, text.len());
    proof {
        assert(text@.skip(1) =~= text@.subrange(1, text@.len() as int)) by {
            if text@.len() == 0 {
                assert(text@.skip(1) =~= text@.subrange(1, text@.len() as int));
            }
        }
        assert(text@.subrange(0, text@.len() as int) =~= text@);
        assert(run@.subrange(0, run@.len() as int) =~= run@);
    }
    if run.len() == 0 || !are_digits(run) {
        return None;
    }
    match parse_magnitude(run, 0) {
        None => None,
        Some(magnitude) => {
            if negative {
                if magnitude > 0x8000_0000_0000_0000 {
                    None
                } else if magnitude == 0x8000_0000_0000_0000 {
                    Some(i64::MIN)
                } else {
                    Some(-(magnitude as i64))
                }
            } else if magnitude > 0x7fff_ffff_ffff_ffff {
                None
            } else {
                Some(magnitude as i64)
            }
        },
    }
}

fn fraction_precision(fraction: &[u8]) -> (precision: Option<FractionPrecision>)
    ensures
        precision == precision_of(fraction@),
{
    match fraction.len() {
        3 => Some(FractionPrecision::Milliseconds),
        6 => Some(FractionPrecision::Microseconds),
        9 => Some(FractionPrecision::Nanoseconds),
        0 => None,
        length => {
            if fraction[length - 1] == ZERO {
                None
            } else {
                Some(FractionPrecision::Variable)
            }
        },
    }
}

fn numeric_fraction_pattern(precision: FractionPrecision, quoted: bool) -> (pattern: &'static str)
    ensures
        pattern@ == fraction_pattern(precision, quoted),
{
    match (precision, quoted) {
        (FractionPrecision::Milliseconds, false) => "\\E.\\3",
        (FractionPrecision::Milliseconds, true) => "\"\\E.\\3\"",
        (FractionPrecision::Microseconds, false) => "\\E.\\6",
        (FractionPrecision::Microseconds, true) => "\"\\E.\\6\"",
        (FractionPrecision::Nanoseconds, false) => "\\E.\\9",
        (FractionPrecision::Nanoseconds, true) => "\"\\E.\\9\"",
        (FractionPrecision::Variable, false) => "\\E.\\T",
        (FractionPrecision::Variable, true) => "\"\\E.\\T\"",
    }
}

/// Nanoseconds of a fraction of one to nine digits.
fn scaled_fraction(fraction: &[u8]) -> (nanoseconds: i64)
    requires
        0 < fraction@.len() <= 9,
        all_digits(fraction@),
    ensures
        nanoseconds == fraction_nanoseconds(fraction@),
        0 <= nanoseconds < 1_000_000_000,
{
    let ghost run = fraction@;
    proof {
        lemma_padded_of_value(run);
        lemma_power_of_ten_grows(run.len(), 9);
        assert(power_of_ten(9) == 1_000_000_000) by {
            reveal_with_fuel(power_of_ten, 10);
        }
        assert(run.subrange(0, run.len() as int) =~= run);
    }
    let mut value: u64 = match parse_magnitude(fraction, 0) {
        Some(value) => value,
        None => 0,
    };
    let mut digits: usize = fraction.len();
    while digits < 9
        invariant
            run.len() <= digits <= 9,
            value * power_of_ten((9 - digits) as nat) == fraction_nanoseconds(run),
            value < power_of_ten(digits as nat) <= 1_000_000_000,
            power_of_ten(9) == 1_000_000_000,
        decreases 9 - digits,
    {
        proof {
            let rest = power_of_ten((9 - digits - 1) as nat);
            assert(power_of_ten((9 - digits) as nat) == 10 * rest);
            assert(value * (10 * rest) == (value * 10) * rest) by (nonlinear_arith);
            assert(power_of_ten((digits + 1) as nat) == 10 * power_of_ten(digits as nat));
            lemma_power_of_ten_grows((digits + 1) as nat, 9);
        }
        value = value * 10;
        digits += 1;
    }
    proof {
        let one = power_of_ten((9 - digits) as nat);
        assert(one == 1);
        assert(value * one == value) by (nonlinear_arith)
            requires
                one == 1,
        ;
    }
    value as i64
}

/// Resolves a fractional epoch in seconds.
fn resolve_fractional_epoch(source: &[u8], quoted: bool, fixed: bool) -> (result: Result<
    KvIrResolvedTimestamp,
    JsonTimestampError,
>)
    ensures
        resolved_as(fractional_epoch(source@, quoted, fixed), result),
{
    let number = JsonTimestampError::UnsupportedLexeme { kind: JsonTimestampScalarKind::Number };
    let mut point: usize = 0;
    while point < source.len() && source[point] != DOT
        invariant
            point <= source@.len(),
            point_from(source@, point as int) == point_from(source@, 0),
        decreases source@.len() - point,
    {
        point += 1;
    }
    if point == source.len() {
        return Err(number);
    }
    let seconds = slice_subrange(source, 0, point);
    let fraction = slice_subrange(source, point + 1, source.len());
    proof {
        assert(seconds@ =~= source@.take(point as int));
        assert(fraction@ =~= source@.skip(point + 1));
    }
    let negative_zero = seconds.len() == 2 && seconds[0] == MINUS && seconds[1] == ZERO;
    proof {
        assert(negative_zero == (seconds@ == seq![MINUS, ZERO])) by {
            if negative_zero {
                assert(seconds@ =~= seq![MINUS, ZERO]);
            }
        }
    }
    if fraction.len() == 0 || fraction.len() > 9 || !are_digits(fraction) || seconds.len() == 0 || (
    !fixed && negative_zero) || (fixed && fraction.len() != 9) {
        return Err(number);
    }
    let whole = match parse_i64(seconds) {
        Some(whole) => whole,
        None => {
            return Err(JsonTimestampError::EpochNanosecondsOutOfRange);
        },
    };
    let nanoseconds = scaled_fraction(fraction);
    let scaled = match whole.checked_mul(1_000_000_000) {
        Some(scaled) => scaled,
        None => {
            return Err(JsonTimestampError::EpochNanosecondsOutOfRange);
        },
    };
    let epoch = if seconds[0] == MINUS {
        scaled.checked_sub(nanoseconds)
    } else {
        scaled.checked_add(nanoseconds)
    };
    let epoch = match epoch {
        Some(epoch) => epoch,
        None => {
            return Err(JsonTimestampError::EpochNanosecondsOutOfRange);
        },
    };
    match fraction_precision(fraction) {
        None => Err(number),
        Some(precision) => Ok(
            KvIrResolvedTimestamp {
                epoch_nanoseconds: epoch,
                pattern: numeric_fraction_pattern(precision, quoted),
            },
        ),
    }
}

/// Reads two or four date digits.
fn parse_date_digits(text: &[u8], at: usize, count: usize) -> (result: Option<u32>)
    requires
        at + count <= text@.len(),
        1 <= count <= 4,
    ensures
        match result {
            Some(value) => date_digits(text@, at as int, count as int) == Some(value as int)
                && value < 10_000 && (count == 2 ==> value < 100),
            None => date_digits(text@, at as int, count as int) is None,
        },
{
    assert(text@.len() == text.len());
    let run = slice_subrange(text, at, at + count);
    if !are_digits(run) {
        return None;
    }
    proof {
        lemma_padded_of_value(run@);
        reveal_with_fuel(power_of_ten, 5);
        assert(run@.subrange(0, run@.len() as int) =~= run@);
        lemma_power_of_ten_grows(run@.len(), 4);
    }
    match parse_magnitude(run, 0) {
        Some(value) => Some(value as u32),
        None => None,
    }
}

/// Days of a month.
pub fn days_in_month(year: i64, month: u32) -> (days: u32)
    requires
        0 <= year,
    ensures
        days == month_days(year as int, month as int),
{
    match month {
        1 | 3 | 5 | 7 | 8 | 10 | 12 => 31,
        4 | 6 | 9 | 11 => 30,
        2 => {
            if year % 4 == 0 && (year % 100 != 0 || year % 400 == 0) {
                29
            } else {
                28
            }
        },
        _ => 0,
    }
}

/// Days from the first day of 1970 to a date of the years 0 to 9999, if the date exists.
pub fn days_from_civil(year: i64, month: u32, day: u32) -> (result: Option<i64>)
    requires
        0 <= year <= 9999,
    ensures
        match result {
            Some(days) => is_date(year as int, month as int, day as int) && days == civil_days(
                year as int,
                month as int,
                day as int,
            ) && -800_000 <= days <= 4_000_000,
            None => !is_date(year as int, month as int, day as int),
        },
{
    if month < 1 || month > 12 || day == 0 || day > days_in_month(year, month) {
        return None;
    }
    let before_year = 365 * year + (year + 3) / 4 - (year + 99) / 100 + (year + 399) / 400;
    let mut before_month: i64 = 0;
    let mut passed: u32 = 1;
    while passed < month
        invariant
            0 <= year <= 9999,
            1 <= passed <= month <= 12,
            0 <= before_month <= 31 * (passed - 1),
            before_month == days_before_month(year as int, passed as int),
        decreases month - passed,
    {
        before_month = before_month + days_in_month(year, passed) as i64;
        passed += 1;
    }
    Some(before_year + before_month + (day as i64 - 1) - 719_528)
}

fn iso_date_time_pattern(
    letter_separator: bool,
    fraction: Option<(bool, FractionPrecision)>,
    zulu: bool,
) -> (pattern: &'static str)
    ensures
        pattern@ == date_pattern(letter_separator, fraction, zulu),
{
    match (letter_separator, fraction, zulu) {
        (true, None, false) => "\"\\Y-\\m-\\dT\\H:\\M:\\S\"",
        (true, Some((false, FractionPrecision::Milliseconds)), false) => "\"\\Y-\\m-\\dT\\H:\\M:\\S.\\3\"",
        (true, Some((false, FractionPrecision::Microseconds)), false) => "\"\\Y-\\m-\\dT\\H:\\M:\\S.\\6\"",
        (true, Some((false, FractionPrecision::Nanoseconds)), false) => "\"\\Y-\\m-\\dT\\H:\\M:\\S.\\9\"",
        (true, Some((false, FractionPrecision::Variable)), false) => "\"\\Y-\\m-\\dT\\H:\\M:\\S.\\T\"",
        (true, Some((true, FractionPrecision::Milliseconds)), false) => "\"\\Y-\\m-\\dT\\H:\\M:\\S,\\3\"",
        (true, Some((true, FractionPrecision::Microseconds)), false) => "\"\\Y-\\m-\\dT\\H:\\M:\\S,\\6\"",
        (true, Some((true, FractionPrecision::Nanoseconds)), false) => "\"\\Y-\\m-\\dT\\H:\\M:\\S,\\9\"",
        (true, Some((true, FractionPrecision::Variable)), false) => "\"\\Y-\\m-\\dT\\H:\\M:\\S,\\T\"",
        (true, None, true) => "\"\\Y-\\m-\\dT\\H:\\M:\\SZ\"",
        (true, Some((false, FractionPrecision::Milliseconds)), true) => "\"\\Y-\\m-\\dT\\H:\\M:\\S.\\3Z\"",
        (true, Some((false, FractionPrecision::Microseconds)), true) => "\"\\Y-\\m-\\dT\\H:\\M:\\S.\\6Z\"",
        (true, Some((false, FractionPrecision::Nanoseconds)), true) => "\"\\Y-\\m-\\dT\\H:\\M:\\S.\\9Z\"",
        (true, Some((false, FractionPrecision::Variable)), true) => "\"\\Y-\\m-\\dT\\H:\\M:\\S.\\TZ\"",
        (true, Some((true, FractionPrecision::Milliseconds)), true) => "\"\\Y-\\m-\\dT\\H:\\M:\\S,\\3Z\"",
        (true, Some((true, FractionPrecision::Microseconds)), true) => "\"\\Y-\\m-\\dT\\H:\\M:\\S,\\6Z\"",
        (true, Some((true, FractionPrecision::Nanoseconds)), true) => "\"\\Y-\\m-\\dT\\H:\\M:\\S,\\9Z\"",
        (true, Some((true, FractionPrecision::Variable)), true) => "\"\\Y-\\m-\\dT\\H:\\M:\\S,\\TZ\"",
        (false, None, false) => "\"\\Y-\\m-\\d \\H:\\M:\\S\"",
        (false, Some((false, FractionPrecision::Milliseconds)), false) => "\"\\Y-\\m-\\d \\H:\\M:\\S.\\3\"",
        (false, Some((false, FractionPrecision::Microseconds)), false) => "\"\\Y-\\m-\\d \\H:\\M:\\S.\\6\"",
        (false, Some((false, FractionPrecision::Nanoseconds)), false) => "\"\\Y-\\m-\\d \\H:\\M:\\S.\\9\"",
        (false, Some((false, FractionPrecision::Variable)), false) => "\"\\Y-\\m-\\d \\H:\\M:\\S.\\T\"",
        (false, Some((true, FractionPrecision::Milliseconds)), false) => "\"\\Y-\\m-\\d \\H:\\M:\\S,\\3\"",
        (false, Some((true, FractionPrecision::Microseconds)), false) => "\"\\Y-\\m-\\d \\H:\\M:\\S,\\6\"",
        (false, Some((true, FractionPrecision::Nanoseconds)), false) => "\"\\Y-\\m-\\d \\H:\\M:\\S,\\9\"",
        (false, Some((true, FractionPrecision::Variable)), false) => "\"\\Y-\\m-\\d \\H:\\M:\\S,\\T\"",
        (false, None, true) => "\"\\Y-\\m-\\d \\H:\\M:\\SZ\"",
        (false, Some((false, FractionPrecision::Milliseconds)), true) => "\"\\Y-\\m-\\d \\H:\\M:\\S.\\3Z\"",
        (false, Some((false, FractionPrecision::Microseconds)), true) => "\"\\Y-\\m-\\d \\H:\\M:\\S.\\6Z\"",
        (false, Some((false, FractionPrecision::Nanoseconds)), true) => "\"\\Y-\\m-\\d \\H:\\M:\\S.\\9Z\"",
        (false, Some((false, FractionPrecision::Variable)), true) => "\"\\Y-\\m-\\d \\H:\\M:\\S.\\TZ\"",
        (false, Some((true, FractionPrecision::Milliseconds)), true) => "\"\\Y-\\m-\\d \\H:\\M:\\S,\\3Z\"",
        (false, Some((true, FractionPrecision::Microseconds)), true) => "\"\\Y-\\m-\\d \\H:\\M:\\S,\\6Z\"",
        (false, Some((true, FractionPrecision::Nanoseconds)), true) => "\"\\Y-\\m-\\d \\H:\\M:\\S,\\9Z\"",
        (false, Some((true, FractionPrecision::Variable)), true) => "\"\\Y-\\m-\\d \\H:\\M:\\S,\\TZ\"",
    }
}

/// Resolves a date-time.
fn resolve_iso_date_time(text: &[u8]) -> (result: Result<
    KvIrResolvedTimestamp,
    JsonTimestampError,
>)
    ensures
        resolved_as(date_time_epoch(text@), result),
{
    let invalid = JsonTimestampError::UnsupportedLexeme { kind: JsonTimestampScalarKind::String };
    if text.len() < 19 || text[4] != MINUS || text[7] != MINUS || !(text[10] == 0x54 || text[10]
        == 0x20) || text[13] != 0x3a || text[16] != 0x3a {
        return Err(invalid);
    }
    let (year, month, day, hour, minute, second) = match (
        parse_date_digits(text, 0, 4),
        parse_date_digits(text, 5, 2),
        parse_date_digits(text, 8, 2),
        parse_date_digits(text, 11, 2),
        parse_date_digits(text, 14, 2),
        parse_date_digits(text, 17, 2),
    ) {
        (Some(year), Some(month), Some(day), Some(hour), Some(minute), Some(second)) => (
            year,
            month,
            day,
            hour,
            minute,
            second,
        ),
        _ => {
            return Err(invalid);
        },
    };
    if hour > 23 || minute > 59 || second > 59 {
        return Err(invalid);
    }
    let days = match days_from_civil(year as i64, month, day) {
        Some(days) => days,
        None => {
            return Err(invalid);
        },
    };
    let mut end: usize = 19;
    let mut fraction_form: Option<(bool, FractionPrecision)> = None;
    let mut nanoseconds: i64 = 0;
    if text.len() > 19 && (text[19] == DOT || text[19] == COMMA) {
        end = digits_end(text, 20);
        proof {
            lemma_skip_digits(text@, 20);
        }
        let fraction = slice_subrange(text, 20, end);
        if fraction.len() == 0 || fraction.len() > 9 {
            return Err(invalid);
        }
        proof {
            assert forall|i: int| 0 <= i < fraction@.len() implies is_digit(
                #[trigger] fraction@[i],
            ) by {
                assert(is_digit(text@[20 + i]));
            }
        }
        match fraction_precision(fraction) {
            None => {
                return Err(invalid);
            },
            Some(precision) => {
                fraction_form = Some((text[19] == COMMA, precision));
            },
        }
        nanoseconds = scaled_fraction(fraction);
    }
    let zulu = end < text.len() && text[end] == 0x5a;
    let last = if zulu {
        end + 1
    } else {
        end
    };
    if last != text.len() {
        return Err(invalid);
    }
    let seconds: i128 = days as i128 * 86_400 + hour as i128 * 3_600 + minute as i128 * 60
        + second as i128;
    let epoch: i128 = seconds * 1_000_000_000 + nanoseconds as i128;
    if epoch < i64::MIN as i128 || epoch > i64::MAX as i128 {
        return Err(JsonTimestampError::EpochNanosecondsOutOfRange);
    }
    Ok(
        KvIrResolvedTimestamp {
            epoch_nanoseconds: epoch as i64,
            pattern: iso_date_time_pattern(text[10] == 0x54, fraction_form, zulu),
        },
    )
}

fn looks_numeric_with_point(text: &[u8]) -> (result: bool)
    ensures
        result == is_numeric_with_point(text@),
{
    let mut found = false;
    let mut at: usize = 0;
    while at < text.len()
        invariant
            at <= text@.len(),
            found ==> text@.contains(DOT),
            !found ==> forall|i: int| 0 <= i < at ==> text@[i] != DOT,
            forall|i: int|
                0 <= i < at ==> is_digit(#[trigger] text@[i]) || text@[i] == MINUS || text@[i]
                    == DOT,
        decreases text@.len() - at,
    {
        let byte = text[at];
        assert(text@[at as int] == byte);
        if byte == DOT {
            found = true;
        } else if !(is_ascii_digit(byte) || byte == MINUS) {
            return false;
        }
        at += 1;
    }
    found
}

/// Resolves the text of a string.
fn resolve_text(text: &[u8]) -> (result: Result<KvIrResolvedTimestamp, JsonTimestampError>)
    ensures
        resolved_as(text_epoch(text@), result),
{
    let resolved = match parse_i64(text) {
        Some(value) => resolve_integer(value, true),
        None => {
            if looks_numeric_with_point(text) {
                resolve_fractional_epoch(text, true, false)
            } else {
                resolve_iso_date_time(text)
            }
        },
    };
    match resolved {
        Err(JsonTimestampError::UnsupportedLexeme { .. }) => Err(
            JsonTimestampError::UnsupportedLexeme { kind: JsonTimestampScalarKind::String },
        ),
        other => other,
    }
}

/// A timestamp with its exact spelling and its range key.
#[derive(Clone, Copy, Debug)]
pub struct TimestampRef<'a> {
    epoch_nanoseconds: i64,
    lexeme: &'a [u8],
    pattern: &'static str,
    range_key: &'a str,
}

/// What a timestamp says.
pub struct TimestampView {
    pub resolved: ResolvedView,
    pub lexeme: Seq<u8>,
    pub range_key: Seq<char>,
}

impl<'a> View for TimestampRef<'a> {
    type V = TimestampView;

    closed spec fn view(&self) -> TimestampView {
        TimestampView {
            resolved: ResolvedView {
                epoch: self.epoch_nanoseconds as int,
                pattern: self.pattern@,
            },
            lexeme: self.lexeme@,
            range_key: self.range_key@,
        }
    }
}

impl<'a> TimestampRef<'a> {
    /// Joins a timestamp with its spelling and its range key.
    pub fn new(resolved: KvIrResolvedTimestamp, lexeme: &'a [u8], range_key: &'a str) -> (timestamp:
        Self)
        ensures
            timestamp@ == (TimestampView {
                resolved: resolved@,
                lexeme: lexeme@,
                range_key: range_key@,
            }),
    {
        TimestampRef {
            epoch_nanoseconds: resolved.epoch_nanoseconds,
            lexeme,
            pattern: resolved.pattern,
            range_key,
        }
    }

    /// Returns the epoch in nanoseconds.
    pub fn epoch_nanoseconds(self) -> (epoch: i64)
        ensures
            epoch == self@.resolved.epoch,
    {
        self.epoch_nanoseconds
    }

    /// Returns the exact spelling.
    pub fn lexeme(self) -> (lexeme: &'a [u8])
        ensures
            lexeme@ == self@.lexeme,
    {
        self.lexeme
    }

    /// Returns the pattern of the spelling.
    pub fn pattern(self) -> (pattern: &'static str)
        ensures
            pattern@ == self@.resolved.pattern,
    {
        self.pattern
    }

    /// Returns the descriptor of the path that selected the value.
    pub fn range_key(self) -> (range_key: &'a str)
        ensures
            range_key@ == self@.range_key,
    {
        self.range_key
    }
}

/// Timestamp of a number token whose text reads as the binary64 value with the given bits.
pub open spec fn number_token_epoch(source: Seq<u8>, bits: u64) -> Result<
    ResolvedView,
    JsonTimestampError,
> {
    if !valid_utf8(source) {
        Err(JsonTimestampError::InvalidUtf8)
    } else {
        match validated_number(source) {
            Err(error) => Err(JsonTimestampError::Number { source: error }),
            Ok(syntax) => validated_number_epoch(source, syntax, bits),
        }
    }
}

/// Timestamp of a number token of known syntax.
pub open spec fn validated_number_epoch(
    source: Seq<u8>,
    syntax: ValidatedJsonNumberSyntax,
    bits: u64,
) -> Result<ResolvedView, JsonTimestampError> {
    if syntax.spec_is_float() {
        if crate::number::finite_bits(bits) {
            fractional_epoch(source, false, false)
        } else {
            Err(
                JsonTimestampError::Number {
                    source: JsonNumberClassificationError::OutOfRange {
                        domain: crate::number::JsonNumberDomain::Float,
                    },
                },
            )
        }
    } else {
        match integer_value(source) {
            Some(value) => integer_epoch(value, false),
            None => Err(
                JsonTimestampError::Number {
                    source: JsonNumberClassificationError::OutOfRange {
                        domain: crate::number::JsonNumberDomain::Integer,
                    },
                },
            ),
        }
    }
}

/// Whether a number token is the canonical spelling of the signed integer it reads as.
pub open spec fn is_canonical_integer(source: Seq<u8>, syntax: ValidatedJsonNumberSyntax) -> bool {
    &&& !syntax.spec_is_float()
    &&& source != seq![MINUS, ZERO]
    &&& byte_at(source, 0, MINUS) || (integer_value(source) matches Some(value) && value >= 0)
}

/// Whether a timestamp was made of the expected epoch, the whole token, and the range key.
pub open spec fn token_resolved_as(
    expected: Result<ResolvedView, JsonTimestampError>,
    lexeme: Seq<u8>,
    range_key: Seq<char>,
    result: Result<TimestampRef<'_>, JsonTimestampError>,
) -> bool {
    match result {
        Ok(timestamp) => expected matches Ok(resolved) && timestamp@ == (TimestampView {
            resolved,
            lexeme,
            range_key,
        }),
        Err(error) => expected == Err::<ResolvedView, JsonTimestampError>(error),
    }
}

/// Content of a quoted token, if it is quoted.
pub open spec fn unquoted(raw: Seq<u8>) -> Option<Seq<u8>> {
    if raw.len() >= 2 && raw[0] == QUOTE && raw.last() == QUOTE {
        Some(raw.subrange(1, raw.len() - 1))
    } else {
        None
    }
}

/// Timestamp of a quoted token.
pub open spec fn string_token_epoch(raw: Seq<u8>) -> Result<ResolvedView, JsonTimestampError> {
    if !valid_utf8(raw) {
        Err(JsonTimestampError::InvalidUtf8)
    } else {
        match unquoted(raw) {
            None => Err(unsupported(JsonTimestampScalarKind::String)),
            Some(inner) => text_epoch(inner),
        }
    }
}

/// Compiled timestamp configuration for direct JSON input.
#[derive(Debug)]
pub struct JsonTimestampResolver {
    path: JsonTimestampPath,
}

impl View for JsonTimestampResolver {
    type V = PathView;

    closed spec fn view(&self) -> PathView {
        self.path@
    }
}

impl JsonTimestampResolver {
    /// Creates a resolver for a compiled path.
    pub fn new(path: JsonTimestampPath) -> (resolver: Self)
        ensures
            resolver@ == path@,
    {
        JsonTimestampResolver { path }
    }

    /// Compiles a resolver from one dotted descriptor.
    pub fn parse(descriptor: &str) -> (result: Result<Self, JsonTimestampPathError>)
        ensures
            match result {
                Ok(resolver) => compiled(descriptor@, default_path_limits()) == Ok::<
                    PathView,
                    JsonTimestampPathError,
                >(resolver@),
                Err(error) => compiled(descriptor@, default_path_limits()) == Err::<
                    PathView,
                    JsonTimestampPathError,
                >(error),
            },
    {
        let path = JsonTimestampPath::parse(descriptor)?;
        Ok(JsonTimestampResolver::new(path))
    }

    /// Compiles a resolver with the given path limits.
    pub fn parse_with_limits(descriptor: &str, limits: JsonTimestampPathLimits) -> (result: Result<
        Self,
        JsonTimestampPathError,
    >)
        ensures
            match result {
                Ok(resolver) => compiled(descriptor@, limits) == Ok::<
                    PathView,
                    JsonTimestampPathError,
                >(resolver@),
                Err(error) => compiled(descriptor@, limits) == Err::<
                    PathView,
                    JsonTimestampPathError,
                >(error),
            },
    {
        let path = JsonTimestampPath::parse_with_limits(descriptor, limits)?;
        Ok(JsonTimestampResolver::new(path))
    }

    /// Returns the configured path.
    pub fn path(&self) -> (path: &JsonTimestampPath)
        ensures
            path@ == self@,
    {
        &self.path
    }

    /// Resolves an exact number token; `bits` are those of the binary64 value its text reads as.
    pub fn resolve_number<'a>(&'a self, source: &'a [u8], bits: u64) -> (result: Result<
        TimestampRef<'a>,
        JsonTimestampError,
    >)
        ensures
            token_resolved_as(
                number_token_epoch(source@, bits),
                source@,
                self@.descriptor,
                result,
            ),
    {
        match utf8_text(source) {
            Ok(_) => {},
            Err(_) => {
                return Err(JsonTimestampError::InvalidUtf8);
            },
        }
        match crate::number::validate_number(source) {
            Err(error) => Err(JsonTimestampError::Number { source: error }),
            Ok(syntax) => {
                let (timestamp, _) = self.resolve_validated_number(source, syntax, bits)?;
                Ok(timestamp)
            },
        }
    }

    /// Resolves a number token of known syntax; also returns whether it is the canonical spelling
    /// of a signed integer.
    pub fn resolve_validated_number<'a>(
        &'a self,
        source: &'a [u8],
        syntax: ValidatedJsonNumberSyntax,
        bits: u64,
    ) -> (result: Result<(TimestampRef<'a>, bool), JsonTimestampError>)
        requires
            validated_number(source@) == Ok::<_, JsonNumberClassificationError>(syntax),
        ensures
            match result {
                Ok((timestamp, canonical)) => token_resolved_as(
                    validated_number_epoch(source@, syntax, bits),
                    source@,
                    self@.descriptor,
                    Ok(timestamp),
                ) && canonical == is_canonical_integer(source@, syntax),
                Err(error) => validated_number_epoch(source@, syntax, bits) == Err::<
                    ResolvedView,
                    JsonTimestampError,
                >(error),
            },
    {
        let (resolved, canonical) = match classify_validated_json_number(source, syntax, bits) {
            Err(error) => {
                return Err(JsonTimestampError::Number { source: error });
            },
            Ok(ClassifiedJsonNumber::Integer(value)) => {
                let negative = source.len() > 0 && source[0] == MINUS;
                let negative_zero = source.len() == 2 && negative && source[1] == ZERO;
                proof {
                    assert(negative_zero == (source@ == seq![MINUS, ZERO])) by {
                        if negative_zero {
                            assert(source@ =~= seq![MINUS, ZERO]);
                        }
                    }
                }
                (resolve_integer(value, false), !negative_zero && (negative || value >= 0))
            },
            Ok(ClassifiedJsonNumber::Float { .. }) => (
                resolve_fractional_epoch(source, false, false),
                false,
            ),
        };
        match resolved {
            Err(error) => Err(error),
            Ok(resolved) => Ok(
                (TimestampRef::new(resolved, source, self.path.descriptor()), canonical),
            ),
        }
    }

    /// Resolves an exact quoted token. The pattern reproduces the token byte for byte, so its
    /// escapes are not decoded.
    pub fn resolve_string<'a>(&'a self, value: JsonString<'a>) -> (result: Result<
        TimestampRef<'a>,
        JsonTimestampError,
    >)
        ensures
            token_resolved_as(
                string_token_epoch(value.raw()),
                value.raw(),
                self@.descriptor,
                result,
            ),
    {
        let lexeme = value.raw_json();
        match utf8_text(lexeme) {
            Ok(_) => {},
            Err(_) => {
                return Err(JsonTimestampError::InvalidUtf8);
            },
        }
        if lexeme.len() < 2 || lexeme[0] != QUOTE || lexeme[lexeme.len() - 1] != QUOTE {
            return Err(
                JsonTimestampError::UnsupportedLexeme { kind: JsonTimestampScalarKind::String },
            );
        }
        let resolved = resolve_text(slice_subrange(lexeme, 1, lexeme.len() - 1))?;
        Ok(TimestampRef::new(resolved, lexeme, self.path.descriptor()))
    }
}

/// Compiled, namespace-aware timestamp configuration for key-value IR.
///
/// An unprefixed descriptor selects the user-generated schema tree and a leading `@` the
/// auto-generated one. The prefixes `$`, `!`, and `#` compile but select no tree.
#[derive(Debug)]
pub struct KvIrTimestampResolver {
    path: JsonTimestampPath,
    namespace: Option<KvIrNamespace>,
}

impl View for KvIrTimestampResolver {
    type V = (PathView, Option<KvIrNamespace>);

    closed spec fn view(&self) -> (PathView, Option<KvIrNamespace>) {
        (self.path@, self.namespace)
    }
}

impl KvIrTimestampResolver {
    /// Compiles a descriptor with the default limits.
    pub fn parse(descriptor: &str) -> (result: Result<Self, JsonTimestampPathError>)
        ensures
            match result {
                Ok(resolver) => compiled_with_namespace(descriptor@, default_path_limits()) == Ok::<
                    (PathView, Option<KvIrNamespace>),
                    JsonTimestampPathError,
                >(resolver@),
                Err(error) => compiled_with_namespace(descriptor@, default_path_limits()) == Err::<
                    (PathView, Option<KvIrNamespace>),
                    JsonTimestampPathError,
                >(error),
            },
    {
        KvIrTimestampResolver::parse_with_limits(descriptor, JsonTimestampPathLimits::default())
    }

    /// Compiles a descriptor with the given limits.
    pub fn parse_with_limits(descriptor: &str, limits: JsonTimestampPathLimits) -> (result: Result<
        Self,
        JsonTimestampPathError,
    >)
        ensures
            match result {
                Ok(resolver) => compiled_with_namespace(descriptor@, limits) == Ok::<
                    (PathView, Option<KvIrNamespace>),
                    JsonTimestampPathError,
                >(resolver@),
                Err(error) => compiled_with_namespace(descriptor@, limits) == Err::<
                    (PathView, Option<KvIrNamespace>),
                    JsonTimestampPathError,
                >(error),
            },
    {
        let (path, namespace) = parse_with_namespace(descriptor, limits)?;
        Ok(KvIrTimestampResolver { path, namespace })
    }

    /// Returns the compiled path.
    pub fn path(&self) -> (path: &JsonTimestampPath)
        ensures
            path@ == self@.0,
    {
        &self.path
    }

    /// Returns the selected schema tree, if the prefix selects one.
    pub fn namespace(&self) -> (namespace: Option<KvIrNamespace>)
        ensures
            namespace == self@.1,
    {
        self.namespace
    }

    /// Resolves an integer.
    pub fn resolve_integer(value: i64) -> (result: Result<
        KvIrResolvedTimestamp,
        JsonTimestampError,
    >)
        ensures
            resolved_as(integer_epoch(value, false), result),
    {
        resolve_integer(value, false)
    }

    /// Resolves a float by its spelling with nine fractional digits.
    pub fn resolve_fixed_nine_float(lexeme: &[u8]) -> (result: Result<
        KvIrResolvedTimestamp,
        JsonTimestampError,
    >)
        ensures
            resolved_as(fractional_epoch_fixed(lexeme@), result),
    {
        match resolve_fractional_epoch(lexeme, false, true) {
            Err(error) => Err(error),
            Ok(resolved) => Ok(resolved),
        }
    }

    /// Resolves the text of a string.
    pub fn resolve_string(value: &[u8]) -> (result: Result<
        KvIrResolvedTimestamp,
        JsonTimestampError,
    >)
        ensures
            resolved_as(utf8_text_epoch(value@), result),
    {
        match utf8_text(value) {
            Ok(_) => resolve_text(value),
            Err(_) => Err(JsonTimestampError::InvalidUtf8),
        }
    }
}

/// Timestamp of a float by its spelling with nine fractional digits.
pub open spec fn fractional_epoch_fixed(lexeme: Seq<u8>) -> Result<
    ResolvedView,
    JsonTimestampError,
> {
    fractional_epoch(lexeme, false, true)
}

} // verus!
