//! Classification of JSON number tokens into the signed 64-bit and binary64 domains.
//!
//! A nonnegative integer token is read as an unsigned 64-bit value whose bits are then taken as a
//! signed one, so `9223372036854775808` becomes `i64::MIN` and `18446744073709551615` becomes `-1`.
//! An integer outside the combined signed and unsigned 64-bit domain is rejected, never rounded.

use vstd::prelude::*;

use crate::text::{
    byte_at, digit_at, is_ascii_digit, is_digit, lemma_skip_digits, skip_digits, DOT, LOWER_E,
    MINUS, NINE, ONE, PLUS, UPPER_E, ZERO,
};

verus! {

/// A JSON number within its numeric domain.
#[derive(Clone, Copy, Debug, PartialEq, Eq)]
#[non_exhaustive]
pub enum ClassifiedJsonNumber<'a> {
    /// A signed integer, including the two's-complement reading of an unsigned one.
    Integer(i64),
    /// A finite binary64 value, given by its bits, and its exact source token.
    Float { bits: u64, source: &'a [u8] },
}

/// Numeric domain whose finite representation was exceeded.
#[derive(Clone, Copy, Debug, PartialEq, Eq, Structural)]
#[non_exhaustive]
pub enum JsonNumberDomain {
    /// Signed-negative or unsigned-nonnegative 64-bit integers.
    Integer,
    /// Finite binary64 values.
    Float,
}

/// Failure to validate or classify one JSON number token.
#[derive(Clone, Copy, Debug, PartialEq, Eq, Structural)]
#[non_exhaustive]
pub enum JsonNumberClassificationError {
    /// The token does not follow the JSON number grammar.
    InvalidSyntax { byte_offset: usize },
    /// The token is valid but lies outside its numeric domain.
    OutOfRange { domain: JsonNumberDomain },
}

/// Where a validated number token has its fraction and its exponent.
#[derive(Clone, Copy, Debug, PartialEq, Eq, Structural)]
pub struct ValidatedJsonNumberSyntax {
    pub dot_position: usize,
    pub exponent_position: usize,
}

/// Position that stands for an absent delimiter.
pub const MISSING_POSITION: usize = usize::MAX;

/// Position stored for an optional delimiter.
pub open spec fn stored_position(position: Option<int>) -> usize {
    match position {
        Some(position) => position as usize,
        None => MISSING_POSITION,
    }
}

/// Syntax record for the given optional delimiters.
pub open spec fn number_syntax(dot: Option<int>, exponent: Option<int>) -> ValidatedJsonNumberSyntax {
    ValidatedJsonNumberSyntax {
        dot_position: stored_position(dot),
        exponent_position: stored_position(exponent),
    }
}

/// End and syntax of the JSON number token that starts at `start`, or the offset at which the
/// grammar fails.
pub open spec fn number_token(source: Seq<u8>, start: int) -> Result<
    (int, ValidatedJsonNumberSyntax),
    int,
> {
    let first = if byte_at(source, start, MINUS) {
        start + 1
    } else {
        start
    };
    if byte_at(source, first, ZERO) {
        if digit_at(source, first + 1) {
            Err(first + 1)
        } else {
            fraction_token(source, start, first + 1)
        }
    } else if digit_at(source, first) {
        fraction_token(source, start, skip_digits(source, first))
    } else {
        Err(first)
    }
}

/// Continues a number token at its optional fraction.
pub open spec fn fraction_token(source: Seq<u8>, start: int, at: int) -> Result<
    (int, ValidatedJsonNumberSyntax),
    int,
> {
    if byte_at(source, at, DOT) {
        if digit_at(source, at + 1) {
            exponent_token(source, start, skip_digits(source, at + 1), Some(at - start))
        } else {
            Err(at + 1)
        }
    } else {
        exponent_token(source, start, at, None)
    }
}

/// Continues a number token at its optional exponent.
pub open spec fn exponent_token(source: Seq<u8>, start: int, at: int, dot: Option<int>) -> Result<
    (int, ValidatedJsonNumberSyntax),
    int,
> {
    if byte_at(source, at, LOWER_E) || byte_at(source, at, UPPER_E) {
        let digits = if byte_at(source, at + 1, PLUS) || byte_at(source, at + 1, MINUS) {
            at + 2
        } else {
            at + 1
        };
        if digit_at(source, digits) {
            Ok((skip_digits(source, digits), number_syntax(dot, Some(at - start))))
        } else {
            Err(digits)
        }
    } else {
        Ok((at, number_syntax(dot, None)))
    }
}

/// Syntax of a token that is one JSON number and nothing else.
pub open spec fn validated_number(source: Seq<u8>) -> Result<
    ValidatedJsonNumberSyntax,
    JsonNumberClassificationError,
> {
    match number_token(source, 0) {
        Err(offset) => Err(
            JsonNumberClassificationError::InvalidSyntax { byte_offset: offset as usize },
        ),
        Ok((end, syntax)) => if end == source.len() {
            Ok(syntax)
        } else {
            Err(JsonNumberClassificationError::InvalidSyntax { byte_offset: end as usize })
        },
    }
}

/// Value of a run of ASCII digits in base ten.
pub open spec fn decimal_value(digits: Seq<u8>) -> nat
    decreases digits.len(),
{
    if digits.len() == 0 {
        0
    } else {
        decimal_value(digits.drop_last()) * 10 + (digits.last() - 0x30) as nat
    }
}

/// Whether binary64 bits stand for a finite value: not all exponent bits are set.
pub open spec fn finite_bits(bits: u64) -> bool {
    (bits >> 52) & 0x7ff != 0x7ff
}

/// The signed integer for an integer token, if it lies in the 64-bit domain.
pub open spec fn integer_value(source: Seq<u8>) -> Option<i64> {
    if byte_at(source, 0, MINUS) {
        let magnitude = decimal_value(source.subrange(1, source.len() as int));
        if magnitude <= 0x8000_0000_0000_0000 {
            Some((-magnitude) as i64)
        } else {
            None
        }
    } else {
        let magnitude = decimal_value(source);
        if magnitude <= u64::MAX {
            Some((magnitude as u64) as i64)
        } else {
            None
        }
    }
}

/// Classification of a token whose syntax is known.
pub open spec fn classified_number(
    source: Seq<u8>,
    syntax: ValidatedJsonNumberSyntax,
    bits: u64,
    result: Result<ClassifiedJsonNumber<'_>, JsonNumberClassificationError>,
) -> bool {
    if syntax.spec_is_float() {
        if finite_bits(bits) {
            result matches Ok(ClassifiedJsonNumber::Float { bits: kept, source: token }) && kept
                == bits && token@ == source
        } else {
            result == Err::<ClassifiedJsonNumber, JsonNumberClassificationError>(
                JsonNumberClassificationError::OutOfRange { domain: JsonNumberDomain::Float },
            )
        }
    } else {
        match integer_value(source) {
            Some(value) => result == Ok::<ClassifiedJsonNumber, JsonNumberClassificationError>(
                ClassifiedJsonNumber::Integer(value),
            ),
            None => result == Err::<ClassifiedJsonNumber, JsonNumberClassificationError>(
                JsonNumberClassificationError::OutOfRange { domain: JsonNumberDomain::Integer },
            ),
        }
    }
}

impl<'a> ClassifiedJsonNumber<'a> {
    /// Returns the signed integer when this token belongs to the 64-bit integer domain.
    pub fn integer(self) -> (result: Option<i64>)
        ensures
            result == (match self {
                ClassifiedJsonNumber::Integer(value) => Some(value),
                ClassifiedJsonNumber::Float { .. } => None,
            }),
    {
        match self {
            ClassifiedJsonNumber::Integer(value) => Some(value),
            ClassifiedJsonNumber::Float { .. } => None,
        }
    }

    /// Returns the binary64 bits and the exact token when this is a floating-point number.
    pub fn float(self) -> (result: Option<(u64, &'a [u8])>)
        ensures
            result == (match self {
                ClassifiedJsonNumber::Integer(_) => None,
                ClassifiedJsonNumber::Float { bits, source } => Some((bits, source)),
            }),
    {
        match self {
            ClassifiedJsonNumber::Integer(_) => None,
            ClassifiedJsonNumber::Float { bits, source } => Some((bits, source)),
        }
    }
}

impl JsonNumberDomain {
    /// Human-readable name of the domain.
    pub fn description(self) -> (text: &'static str)
        ensures
            text@ == (match self {
                JsonNumberDomain::Integer => "64-bit integer"@,
                JsonNumberDomain::Float => "finite binary64"@,
            }),
    {
        match self {
            JsonNumberDomain::Integer => "64-bit integer",
            JsonNumberDomain::Float => "finite binary64",
        }
    }
}

impl JsonNumberClassificationError {
    /// Returns the syntax-error offset, if this is a grammar error.
    pub fn byte_offset(self) -> (result: Option<usize>)
        ensures
            result == (match self {
                JsonNumberClassificationError::InvalidSyntax { byte_offset } => Some(byte_offset),
                JsonNumberClassificationError::OutOfRange { .. } => None,
            }),
    {
        match self {
            JsonNumberClassificationError::InvalidSyntax { byte_offset } => Some(byte_offset),
            JsonNumberClassificationError::OutOfRange { .. } => None,
        }
    }

    /// Returns the exceeded numeric domain, if this is a range error.
    pub fn domain(self) -> (result: Option<JsonNumberDomain>)
        ensures
            result == (match self {
                JsonNumberClassificationError::InvalidSyntax { .. } => None,
                JsonNumberClassificationError::OutOfRange { domain } => Some(domain),
            }),
    {
        match self {
            JsonNumberClassificationError::InvalidSyntax { .. } => None,
            JsonNumberClassificationError::OutOfRange { domain } => Some(domain),
        }
    }
}

impl ValidatedJsonNumberSyntax {
    pub open spec fn spec_is_float(self) -> bool {
        self.dot_position != MISSING_POSITION || self.exponent_position != MISSING_POSITION
    }

    /// Records the optional delimiters of a token.
    pub fn new(dot_position: Option<usize>, exponent_position: Option<usize>) -> (result: Self)
        ensures
            result.dot_position == (match dot_position {
                Some(position) => position,
                None => MISSING_POSITION,
            }),
            result.exponent_position == (match exponent_position {
                Some(position) => position,
                None => MISSING_POSITION,
            }),
    {
        ValidatedJsonNumberSyntax {
            dot_position: match dot_position {
                Some(position) => position,
                None => MISSING_POSITION,
            },
            exponent_position: match exponent_position {
                Some(position) => position,
                None => MISSING_POSITION,
            },
        }
    }

    /// Whether the token has a fraction or an exponent.
    pub fn is_float(self) -> (result: bool)
        ensures
            result == self.spec_is_float(),
    {
        self.dot_position != MISSING_POSITION || self.exponent_position != MISSING_POSITION
    }

    /// Position of the decimal point within the token.
    pub fn dot_position(self) -> (result: Option<usize>)
        ensures
            result == (if self.dot_position == MISSING_POSITION {
                None
            } else {
                Some(self.dot_position)
            }),
    {
        if self.dot_position == MISSING_POSITION {
            None
        } else {
            Some(self.dot_position)
        }
    }

    /// Position of the exponent marker within the token.
    pub fn exponent_position(self) -> (result: Option<usize>)
        ensures
            result == (if self.exponent_position == MISSING_POSITION {
                None
            } else {
                Some(self.exponent_position)
            }),
    {
        if self.exponent_position == MISSING_POSITION {
            None
        } else {
            Some(self.exponent_position)
        }
    }
}

/// Index of the first byte at or after `start` that is not an ASCII digit.
pub fn digits_end(source: &[u8], start: usize) -> (end: usize)
    requires
        start <= source@.len(),
    ensures
        end == skip_digits(source@, start as int),
        start <= end <= source@.len(),
{
    let mut end: usize = start;
    while end < source.len() && is_ascii_digit(source[end])
        invariant
            start <= end <= source@.len(),
            skip_digits(source@, end as int) == skip_digits(source@, start as int),
        decreases source@.len() - end,
    {
        end += 1;
    }
    end
}

/// Finds the end and the syntax of the number token at `start`, or the failing offset.
pub fn scan_number(source: &[u8], start: usize) -> (result: Result<
    (usize, ValidatedJsonNumberSyntax),
    usize,
>)
    requires
        start <= source@.len(),
    ensures
        match result {
            Ok((end, syntax)) => number_token(source@, start as int) == Ok::<_, int>(
                (end as int, syntax),
            ) && start < end <= source@.len(),
            Err(offset) => number_token(source@, start as int) == Err::<
                (int, ValidatedJsonNumberSyntax),
                int,
            >(offset as int) && start <= offset <= source@.len(),
        },
{
    let mut at: usize = start;
    if at < source.len() && source[at] == MINUS {
        at += 1;
    }
    if at >= source.len() {
        return Err(at);
    }
    if source[at] == ZERO {
        at += 1;
        if at < source.len() && is_ascii_digit(source[at]) {
            return Err(at);
        }
    } else if ONE <= source[at] && source[at] <= NINE {
        at = digits_end(source, at);
        proof {
            lemma_skip_digits(source@, at as int);
        }
    } else {
        return Err(at);
    }
    let mut dot: Option<usize> = None;
    if at < source.len() && source[at] == DOT {
        dot = Some(at - start);
        at += 1;
        if at >= source.len() || !is_ascii_digit(source[at]) {
            return Err(at);
        }
        at = digits_end(source, at);
    }
    let mut exponent: Option<usize> = None;
    if at < source.len() && (source[at] == LOWER_E || source[at] == UPPER_E) {
        exponent = Some(at - start);
        at += 1;
        if at < source.len() && (source[at] == PLUS || source[at] == MINUS) {
            at += 1;
        }
        if at >= source.len() || !is_ascii_digit(source[at]) {
            return Err(at);
        }
        at = digits_end(source, at);
    }
    Ok((at, ValidatedJsonNumberSyntax::new(dot, exponent)))
}

/// Validates one exact JSON number token.
pub fn validate_number(source: &[u8]) -> (result: Result<
    ValidatedJsonNumberSyntax,
    JsonNumberClassificationError,
>)
    ensures
        result == validated_number(source@),
{
    match scan_number(source, 0) {
        Ok((end, syntax)) => {
            if end == source.len() {
                Ok(syntax)
            } else {
                Err(JsonNumberClassificationError::InvalidSyntax { byte_offset: end })
            }
        },
        Err(offset) => Err(JsonNumberClassificationError::InvalidSyntax { byte_offset: offset }),
    }
}

/// Reads the digits of `source` from `start` on, or nothing once they exceed 64 bits.
pub fn parse_magnitude(source: &[u8], start: usize) -> (result: Option<u64>)
    requires
        start <= source@.len(),
        forall|i: int| start <= i < source@.len() ==> is_digit(#[trigger] source@[i]),
    ensures
        ({
            let value = decimal_value(source@.subrange(start as int, source@.len() as int));
            result == (if value <= u64::MAX {
                Some(value as u64)
            } else {
                None
            })
        }),
{
    let ghost whole = source@.subrange(start as int, source@.len() as int);
    let mut value: u64 = 0;
    let mut at: usize = start;
    while at < source.len()
        invariant
            start <= at <= source@.len(),
            whole == source@.subrange(start as int, source@.len() as int),
            forall|i: int| start <= i < source@.len() ==> is_digit(#[trigger] source@[i]),
            value == decimal_value(whole.take(at - start)),
        decreases source@.len() - at,
    {
        let digit = (source[at] - 0x30) as u64;
        proof {
            let longer = whole.take(at + 1 - start);
            assert(longer.drop_last() =~= whole.take(at - start));
            assert(longer.last() == source@[at as int]);
            lemma_decimal_value_grows(whole, at + 1 - start);
        }
        if value > (u64::MAX - digit) / 10 {
            assert(value * 10 + digit > u64::MAX) by (nonlinear_arith)
                requires
                    value > (u64::MAX - digit) / 10,
                    digit <= 9,
            ;
            return None;
        }
        value = value * 10 + digit;
        at += 1;
    }
    assert(whole.take(at - start) =~= whole);
    Some(value)
}

/// A longer run of digits has no smaller value than a prefix of it.
pub proof fn lemma_decimal_value_grows(digits: Seq<u8>, prefix: int)
    requires
        0 <= prefix <= digits.len(),
        forall|i: int| 0 <= i < digits.len() ==> is_digit(#[trigger] digits[i]),
    ensures
        decimal_value(digits.take(prefix)) <= decimal_value(digits),
    decreases digits.len(),
{
    if prefix == digits.len() {
        assert(digits.take(prefix) =~= digits);
    } else {
        let shorter = digits.drop_last();
        lemma_decimal_value_grows(shorter, prefix);
        assert(shorter.take(prefix) =~= digits.take(prefix));
        assert(is_digit(digits[digits.len() - 1]));
    }
}

/// A validated token without fraction and exponent is an optional minus sign and digits.
proof fn lemma_integer_token_digits(source: Seq<u8>, syntax: ValidatedJsonNumberSyntax)
    requires
        validated_number(source) == Ok::<_, JsonNumberClassificationError>(syntax),
        !syntax.spec_is_float(),
        source.len() <= usize::MAX,
    ensures
        source.len() > 0,
        forall|i: int|
            (if byte_at(source, 0, MINUS) {
                1
            } else {
                0int
            }) <= i < source.len() ==> is_digit(#[trigger] source[i]),
{
    let first = if byte_at(source, 0, MINUS) {
        1
    } else {
        0int
    };
    if byte_at(source, first, ZERO) {
    } else if digit_at(source, first) {
        lemma_skip_digits(source, first);
    }
}

/// Digits end at the same place when the source is cut off there or later, and moves with it.
proof fn lemma_skip_digits_cut(source: Seq<u8>, start: int, end: int, at: int)
    requires
        0 <= start <= at <= end <= source.len(),
        skip_digits(source, at) <= end,
    ensures
        skip_digits(source.subrange(start, end), at - start) == skip_digits(source, at) - start,
    decreases end - at,
{
    let token = source.subrange(start, end);
    lemma_skip_digits(source, at);
    if digit_at(source, at) {
        lemma_skip_digits(source, at + 1);
        assert(token[at - start] == source[at]);
        lemma_skip_digits_cut(source, start, end, at + 1);
    }
}

/// A number token is not empty and lies within the source, and so does a failing offset.
pub proof fn lemma_number_token_bounds(source: Seq<u8>, start: int)
    requires
        0 <= start <= source.len(),
    ensures
        match number_token(source, start) {
            Ok((end, syntax)) => start < end <= source.len(),
            Err(offset) => start <= offset <= source.len(),
        },
{
    let first = if byte_at(source, start, MINUS) {
        start + 1
    } else {
        start
    };
    if byte_at(source, first, ZERO) {
        if !digit_at(source, first + 1) {
            lemma_fraction_token_bounds(source, start, first + 1);
        }
    } else if digit_at(source, first) {
        lemma_skip_digits(source, first);
        lemma_fraction_token_bounds(source, start, skip_digits(source, first));
    }
}

proof fn lemma_fraction_token_bounds(source: Seq<u8>, start: int, at: int)
    requires
        0 <= start < at <= source.len(),
    ensures
        match fraction_token(source, start, at) {
            Ok((end, syntax)) => start < end <= source.len(),
            Err(offset) => start <= offset <= source.len(),
        },
{
    if byte_at(source, at, DOT) && digit_at(source, at + 1) {
        lemma_skip_digits(source, at + 1);
        lemma_exponent_token_bounds(source, start, skip_digits(source, at + 1), Some(at - start));
    } else {
        lemma_exponent_token_bounds(source, start, at, None);
    }
}

proof fn lemma_exponent_token_bounds(source: Seq<u8>, start: int, at: int, dot: Option<int>)
    requires
        0 <= start < at <= source.len(),
    ensures
        match exponent_token(source, start, at, dot) {
            Ok((end, syntax)) => at <= end <= source.len(),
            Err(offset) => start <= offset <= source.len(),
        },
{
    if at < source.len() {
        lemma_skip_digits(source, at + 1);
        if at + 1 < source.len() {
            lemma_skip_digits(source, at + 2);
        }
    }
}

proof fn lemma_exponent_token_cut(
    source: Seq<u8>,
    start: int,
    end: int,
    at: int,
    dot: Option<int>,
    syntax: ValidatedJsonNumberSyntax,
)
    requires
        0 <= start < at <= source.len(),
        exponent_token(source, start, at, dot) == Ok::<_, int>((end, syntax)),
    ensures
        at <= end <= source.len(),
        exponent_token(source.subrange(start, end), 0, at - start, dot) == Ok::<_, int>(
            (end - start, syntax),
        ),
{
    lemma_exponent_token_bounds(source, start, at, dot);
    let token = source.subrange(start, end);
    if byte_at(source, at, LOWER_E) || byte_at(source, at, UPPER_E) {
        let digits = if byte_at(source, at + 1, PLUS) || byte_at(source, at + 1, MINUS) {
            at + 2
        } else {
            at + 1
        };
        lemma_skip_digits(source, digits);
        lemma_skip_digits_cut(source, start, end, digits);
        assert(token[at - start] == source[at]);
        assert(token[at + 1 - start] == source[at + 1]);
        assert(token[digits - start] == source[digits]);
        assert(digit_at(token, digits - start));
    }
}

proof fn lemma_fraction_token_cut(
    source: Seq<u8>,
    start: int,
    end: int,
    at: int,
    syntax: ValidatedJsonNumberSyntax,
)
    requires
        0 <= start < at <= source.len(),
        fraction_token(source, start, at) == Ok::<_, int>((end, syntax)),
    ensures
        at <= end <= source.len(),
        fraction_token(source.subrange(start, end), 0, at - start) == Ok::<_, int>(
            (end - start, syntax),
        ),
{
    let token = source.subrange(start, end);
    if byte_at(source, at, DOT) {
        let after = skip_digits(source, at + 1);
        lemma_skip_digits(source, at + 1);
        lemma_exponent_token_cut(source, start, end, after, Some(at - start), syntax);
        lemma_skip_digits_cut(source, start, end, at + 1);
        assert(token[at - start] == source[at]);
        assert(token[at + 1 - start] == source[at + 1]);
        assert(digit_at(token, at + 1 - start));
    } else {
        lemma_exponent_token_cut(source, start, end, at, None, syntax);
        if at < end {
            assert(token[at - start] == source[at]);
        }
    }
}

/// The token that a number scan delimits inside a longer source is a number by itself, with the
/// same syntax.
pub proof fn lemma_number_token_is_validated(
    source: Seq<u8>,
    start: int,
    end: int,
    syntax: ValidatedJsonNumberSyntax,
)
    requires
        0 <= start <= source.len(),
        number_token(source, start) == Ok::<_, int>((end, syntax)),
    ensures
        start < end <= source.len(),
        validated_number(source.subrange(start, end)) == Ok::<_, JsonNumberClassificationError>(
            syntax,
        ),
{
    lemma_number_token_bounds(source, start);
    let token = source.subrange(start, end);
    let first = if byte_at(source, start, MINUS) {
        start + 1
    } else {
        start
    };
    assert(token[0] == source[start]);
    if byte_at(source, first, ZERO) {
        lemma_fraction_token_cut(source, start, end, first + 1, syntax);
        assert(token[first - start] == source[first]);
        assert(!digit_at(token, first + 1 - start)) by {
            if first + 1 < end {
                assert(token[first + 1 - start] == source[first + 1]);
            }
        }
    } else {
        let after = skip_digits(source, first);
        lemma_skip_digits(source, first);
        lemma_fraction_token_cut(source, start, end, after, syntax);
        lemma_skip_digits_cut(source, start, end, first);
        assert(token[first - start] == source[first]);
        assert(digit_at(token, first - start));
    }
    assert(number_token(token, 0) == Ok::<_, int>((end - start, syntax)));
}

/// Classifies a token of known syntax; `bits` are the binary64 bits that its text reads as.
pub fn classify_validated_json_number<'a>(
    source: &'a [u8],
    syntax: ValidatedJsonNumberSyntax,
    bits: u64,
) -> (result: Result<ClassifiedJsonNumber<'a>, JsonNumberClassificationError>)
    requires
        validated_number(source@) == Ok::<_, JsonNumberClassificationError>(syntax),
    ensures
        classified_number(source@, syntax, bits, result),
{
    if syntax.is_float() {
        if (bits >> 52) & 0x7ff == 0x7ff {
            return Err(
                JsonNumberClassificationError::OutOfRange { domain: JsonNumberDomain::Float },
            );
        }
        return Ok(ClassifiedJsonNumber::Float { bits, source });
    }
    proof {
        assert(source@.len() == source.len());
        lemma_integer_token_digits(source@, syntax);
        assert(source@.subrange(0, source@.len() as int) =~= source@);
    }
    if source[0] == MINUS {
        match parse_magnitude(source, 1) {
            Some(magnitude) => {
                if magnitude <= 0x7fff_ffff_ffff_ffff {
                    return Ok(ClassifiedJsonNumber::Integer(-(magnitude as i64)));
                }
                if magnitude == 0x8000_0000_0000_0000 {
                    return Ok(ClassifiedJsonNumber::Integer(i64::MIN));
                }
            },
            None => {},
        }
    } else {
        match parse_magnitude(source, 0) {
            Some(magnitude) => {
                return Ok(
                    ClassifiedJsonNumber::Integer(
                        #[verifier::truncate]
                        (magnitude as i64),
                    ),
                );
            },
            None => {},
        }
    }
    Err(JsonNumberClassificationError::OutOfRange { domain: JsonNumberDomain::Integer })
}

/// Validates and classifies one exact JSON number token.
///
/// `bits` are the bits of the nearest binary64 value of the token's text. They matter only for a
/// token with a fraction or an exponent, which must remain finite.
pub fn classify_json_number<'a>(source: &'a [u8], bits: u64) -> (result: Result<
    ClassifiedJsonNumber<'a>,
    JsonNumberClassificationError,
>)
    ensures
        match validated_number(source@) {
            Ok(syntax) => classified_number(source@, syntax, bits, result),
            Err(error) => result == Err::<ClassifiedJsonNumber, JsonNumberClassificationError>(
                error,
            ),
        },
{
    match validate_number(source) {
        Ok(syntax) => classify_validated_json_number(source, syntax, bits),
        Err(error) => Err(error),
    }
}

} // verus!
