//! Encoding of texts: variables are parted from the constant logtype, and numbers are packed.

use vstd::prelude::*;
use vstd::slice::slice_subrange;

use crate::decimal::{decimal, digits, lemma_power_of_ten_grows, lemma_ten_to_sixteen, power_of_ten};
use crate::kv_ir::{KvIrEncodedVariable, KvIrEncoding};
use crate::kv_ir_text::{
    is_logtype_marker, DICTIONARY_PLACEHOLDER, FLOAT_PLACEHOLDER, INTEGER_PLACEHOLDER,
    EncodedTextView, FloatProperties,
};
use crate::number::{decimal_value, parse_magnitude};
use crate::serializer_options::KvIrSerializerError;
use crate::stage::{
    and_event_bytes, append_limited, checked_push, event_bytes, scalar_bytes,
    serialize_encoded_variable, serialize_string, staged, string_packet, variable_packet,
    with_string, with_variable, WidthTags,
};
use crate::text::{byte_at, is_ascii_digit, is_digit, BACKSLASH, DOT, MINUS};

verus! {

/// Whether a byte parts tokens.
pub open spec fn is_delimiter_byte(byte: u8) -> bool {
    !(byte == 0x2b || byte == 0x2d || byte == 0x2e || 0x30 <= byte <= 0x39 || 0x41 <= byte <= 0x5a
        || byte == 0x5c || byte == 0x5f || 0x61 <= byte <= 0x7a)
}

pub open spec fn is_alphabetic(byte: u8) -> bool {
    0x41 <= byte <= 0x5a || 0x61 <= byte <= 0x7a
}

pub open spec fn is_hexadecimal(byte: u8) -> bool {
    0x30 <= byte <= 0x39 || 0x41 <= byte <= 0x46 || 0x61 <= byte <= 0x66
}

/// First byte at or after `at` that is no delimiter.
pub open spec fn token_start(message: Seq<u8>, at: int) -> int
    decreases message.len() - at,
{
    if 0 <= at < message.len() && is_delimiter_byte(message[at]) {
        token_start(message, at + 1)
    } else {
        at
    }
}

/// First delimiter at or after `at`.
pub open spec fn token_end(message: Seq<u8>, at: int) -> int
    decreases message.len() - at,
{
    if 0 <= at < message.len() && !is_delimiter_byte(message[at]) {
        token_end(message, at + 1)
    } else {
        at
    }
}

/// Whether a token is a variable: it holds a digit, or follows an equals sign and holds a letter,
/// or has two or more bytes that are all hexadecimal digits.
pub open spec fn is_variable_token(message: Seq<u8>, begin: int, end: int) -> bool {
    ||| exists|i: int| begin <= i < end && is_digit(#[trigger] message[i])
    ||| begin > 0 && message[begin - 1] == 0x3d && exists|i: int|
        begin <= i < end && is_alphabetic(#[trigger] message[i])
    ||| end - begin >= 2 && forall|i: int|
        begin <= i < end ==> is_hexadecimal(#[trigger] message[i])
}

/// Range of the first variable at or after `at`, which is no middle of a token.
pub open spec fn next_variable_at(message: Seq<u8>, at: int) -> Option<(int, int)>
    decreases message.len() - at,
{
    let begin = token_start(message, at);
    let end = token_end(message, begin);
    if begin >= message.len() || end <= at || end > message.len() {
        None
    } else if is_variable_token(message, begin, end) {
        Some((begin, end))
    } else {
        next_variable_at(message, end)
    }
}

/// Whether a token is spelled as a decimal integer without leading zeros.
pub open spec fn is_integer_spelling(token: Seq<u8>) -> bool {
    let start = if byte_at(token, 0, MINUS) {
        1
    } else {
        0int
    };
    &&& start < token.len()
    &&& forall|i: int| start <= i < token.len() ==> is_digit(#[trigger] token[i])
    &&& token.len() > 1 ==> token[start] != 0x30
}

/// Value of an integer spelling.
pub open spec fn integer_spelled(token: Seq<u8>) -> int {
    if byte_at(token, 0, MINUS) {
        -(decimal_value(token.skip(1)) as int)
    } else {
        decimal_value(token) as int
    }
}

/// Variable of a token that is an integer in range.
pub open spec fn integer_variable(token: Seq<u8>, encoding: KvIrEncoding) -> Option<
    KvIrEncodedVariable,
> {
    let value = integer_spelled(token);
    if !is_integer_spelling(token) {
        None
    } else {
        match encoding {
            KvIrEncoding::FourByte => if i32::MIN <= value <= i32::MAX {
                Some(KvIrEncodedVariable::FourByte(value as i32))
            } else {
                None
            },
            KvIrEncoding::EightByte => if i64::MIN <= value <= i64::MAX {
                Some(KvIrEncodedVariable::EightByte(value as i64))
            } else {
                None
            },
        }
    }
}

/// Most digits of an encoded float.
pub open spec fn max_float_digits(encoding: KvIrEncoding) -> int {
    match encoding {
        KvIrEncoding::FourByte => 8,
        KvIrEncoding::EightByte => 16,
    }
}

/// Whether a token is an optional minus sign and digits around the one decimal point at `dot`.
pub open spec fn is_float_spelling(token: Seq<u8>, start: int, dot: int) -> bool {
    &&& start <= dot < token.len()
    &&& token[dot] == DOT
    &&& forall|i: int| start <= i < token.len() && i != dot ==> is_digit(#[trigger] token[i])
}

/// Digits of a float spelling, without its point.
pub open spec fn float_digits(token: Seq<u8>, start: int, dot: int) -> Seq<u8> {
    token.subrange(start, dot) + token.skip(dot + 1)
}

/// Packs the properties of a float.
pub open spec fn packed_float(properties: FloatProperties, encoding: KvIrEncoding) -> KvIrEncodedVariable {
    let sign = if properties.negative {
        1
    } else {
        0int
    };
    match encoding {
        KvIrEncoding::FourByte => KvIrEncodedVariable::FourByte(
            ((sign * 0x8000_0000 + properties.digits * 0x40 + (properties.digit_count - 1) * 8 + (
            properties.decimal_position - 1)) as u32) as i32,
        ),
        KvIrEncoding::EightByte => KvIrEncodedVariable::EightByte(
            ((sign * 0x8000_0000_0000_0000 + properties.digits * 0x100 + (properties.digit_count
                - 1) * 0x10 + (properties.decimal_position - 1)) as u64) as i64,
        ),
    }
}

/// Properties of a float spelling with its point at `dot`.
pub open spec fn spelled_float(token: Seq<u8>, start: int, dot: int) -> FloatProperties {
    FloatProperties {
        negative: start == 1,
        digits: decimal_value(float_digits(token, start, dot)) as u64,
        digit_count: (token.len() - start - 1) as u8,
        decimal_position: (token.len() - dot - 1) as u8,
    }
}

/// Whether a float spelling can be packed.
pub open spec fn float_fits(token: Seq<u8>, start: int, dot: int, encoding: KvIrEncoding) -> bool {
    &&& is_float_spelling(token, start, dot)
    &&& dot + 1 < token.len()
    &&& token.len() - start - 1 <= max_float_digits(encoding)
    &&& encoding is FourByte ==> decimal_value(float_digits(token, start, dot)) < 0x200_0000
}

/// Where the sign of a token ends.
pub open spec fn sign_end(token: Seq<u8>) -> int {
    if byte_at(token, 0, MINUS) {
        1
    } else {
        0
    }
}

/// Variable of a token that is a float in range.
pub open spec fn float_variable(token: Seq<u8>, encoding: KvIrEncoding) -> Option<
    KvIrEncodedVariable,
> {
    let start = sign_end(token);
    if exists|dot: int| float_fits(token, start, dot, encoding) {
        let dot = choose|dot: int| float_fits(token, start, dot, encoding);
        Some(packed_float(spelled_float(token, start, dot), encoding))
    } else {
        None
    }
}

/// One variable of a text.
pub enum TextVariable {
    Float(KvIrEncodedVariable),
    Integer(KvIrEncodedVariable),
    Dictionary(Seq<u8>),
}

/// How a variable token is kept.
pub open spec fn variable_of(token: Seq<u8>, encoding: KvIrEncoding) -> TextVariable {
    match float_variable(token, encoding) {
        Some(value) => TextVariable::Float(value),
        None => match integer_variable(token, encoding) {
            Some(value) => TextVariable::Integer(value),
            None => TextVariable::Dictionary(token),
        },
    }
}

/// Logtype byte that stands for a variable.
pub open spec fn placeholder(variable: TextVariable) -> u8 {
    match variable {
        TextVariable::Float(_) => FLOAT_PLACEHOLDER,
        TextVariable::Integer(_) => INTEGER_PLACEHOLDER,
        TextVariable::Dictionary(_) => DICTIONARY_PLACEHOLDER,
    }
}

/// A constant with its markers escaped.
pub open spec fn escaped(constant: Seq<u8>) -> Seq<u8>
    decreases constant.len(),
{
    if constant.len() == 0 {
        Seq::empty()
    } else {
        let head = if is_logtype_marker(constant[0]) {
            seq![BACKSLASH, constant[0]]
        } else {
            seq![constant[0]]
        };
        head + escaped(constant.drop_first())
    }
}

/// Logtype of a message from `at` on.
pub open spec fn logtype_of(message: Seq<u8>, encoding: KvIrEncoding, at: int) -> Seq<u8>
    decreases message.len() - at,
{
    match next_variable_at(message, at) {
        None => escaped(message.skip(at)),
        Some((begin, end)) => if at < end <= message.len() {
            escaped(message.subrange(at, begin)) + seq![
                placeholder(variable_of(message.subrange(begin, end), encoding)),
            ] + logtype_of(message, encoding, end)
        } else {
            Seq::empty()
        },
    }
}

/// Variables of a message from `at` on.
pub open spec fn variables_of(message: Seq<u8>, encoding: KvIrEncoding, at: int) -> Seq<
    TextVariable,
>
    decreases message.len() - at,
{
    match next_variable_at(message, at) {
        None => Seq::empty(),
        Some((begin, end)) => if at < end <= message.len() {
            seq![variable_of(message.subrange(begin, end), encoding)] + variables_of(
                message,
                encoding,
                end,
            )
        } else {
            Seq::empty()
        },
    }
}

/// The packed variables among the variables of a text, in order.
pub open spec fn packed_variables(variables: Seq<TextVariable>) -> Seq<KvIrEncodedVariable>
    decreases variables.len(),
{
    if variables.len() == 0 {
        Seq::empty()
    } else {
        match variables[0] {
            TextVariable::Dictionary(_) => packed_variables(variables.drop_first()),
            TextVariable::Float(value) => seq![value] + packed_variables(variables.drop_first()),
            TextVariable::Integer(value) => seq![value] + packed_variables(variables.drop_first()),
        }
    }
}

/// The dictionary entries among the variables of a text, in order.
pub open spec fn dictionary_entries(variables: Seq<TextVariable>) -> Seq<Seq<u8>>
    decreases variables.len(),
{
    if variables.len() == 0 {
        Seq::empty()
    } else {
        match variables[0] {
            TextVariable::Dictionary(entry) => seq![entry] + dictionary_entries(
                variables.drop_first(),
            ),
            _ => dictionary_entries(variables.drop_first()),
        }
    }
}

/// The encoded text of a message.
pub open spec fn encoded_text(message: Seq<u8>, encoding: KvIrEncoding) -> EncodedTextView {
    EncodedTextView {
        encoding,
        variables: packed_variables(variables_of(message, encoding, 0)),
        dictionary: dictionary_entries(variables_of(message, encoding, 0)),
        logtype: logtype_of(message, encoding, 0),
    }
}

pub open spec fn dictionary_tags() -> WidthTags {
    WidthTags { one: 0x11, two: 0x12, four: 0x13 }
}

pub open spec fn logtype_tags() -> WidthTags {
    WidthTags { one: 0x21, two: 0x22, four: 0x23 }
}

pub open spec fn text_tag(encoding: KvIrEncoding) -> u8 {
    match encoding {
        KvIrEncoding::FourByte => 0x59,
        KvIrEncoding::EightByte => 0x5a,
    }
}

/// Packets of the variables of a text, in order.
pub open spec fn variable_packets(variables: Seq<TextVariable>) -> Seq<u8>
    decreases variables.len(),
{
    if variables.len() == 0 {
        Seq::empty()
    } else {
        let first = match variables[0] {
            TextVariable::Float(value) => variable_packet(value),
            TextVariable::Integer(value) => variable_packet(value),
            TextVariable::Dictionary(entry) => string_packet(entry, dictionary_tags()),
        };
        first + variable_packets(variables.drop_first())
    }
}

/// Bytes of the encoded text of a message: its tag, its variables in order, and its logtype.
pub open spec fn text_packet(message: Seq<u8>, encoding: KvIrEncoding) -> Seq<u8> {
    seq![text_tag(encoding)] + variable_packets(variables_of(message, encoding, 0))
        + string_packet(logtype_of(message, encoding, 0), logtype_tags())
}

/// Whether a constant holds a marker.
pub open spec fn has_marker(constant: Seq<u8>) -> bool {
    exists|i: int| 0 <= i < constant.len() && is_logtype_marker(#[trigger] constant[i])
}

/// The logtype with a constant appended byte by byte, from its byte `at` on.
pub open spec fn with_escaped_bytes(logtype: Seq<u8>, constant: Seq<u8>, at: int, limit: u64) -> Result<
    Seq<u8>,
    KvIrSerializerError,
>
    decreases constant.len() - at,
{
    if at < 0 || at >= constant.len() {
        Ok(logtype)
    } else {
        let marked = if is_logtype_marker(constant[at]) {
            event_bytes(logtype, seq![BACKSLASH], limit)
        } else {
            Ok(logtype)
        };
        match and_event_bytes(marked, seq![constant[at]], limit) {
            Ok(next) => with_escaped_bytes(next, constant, at + 1, limit),
            Err(error) => Err(error),
        }
    }
}

/// The logtype with a constant appended.
pub open spec fn with_constant(logtype: Seq<u8>, constant: Seq<u8>, limit: u64) -> Result<
    Seq<u8>,
    KvIrSerializerError,
> {
    if has_marker(constant) {
        with_escaped_bytes(logtype, constant, 0, limit)
    } else {
        scalar_bytes(logtype, constant, limit)
    }
}

/// The output with one variable appended.
pub open spec fn with_text_variable(output: Seq<u8>, variable: TextVariable, limit: u64) -> Result<
    Seq<u8>,
    KvIrSerializerError,
> {
    match variable {
        TextVariable::Float(value) => with_variable(output, value, limit),
        TextVariable::Integer(value) => with_variable(output, value, limit),
        TextVariable::Dictionary(entry) => with_string(output, entry, dictionary_tags(), limit),
    }
}

/// The output and the logtype after a message from `at` on.
pub open spec fn with_message_from(
    message: Seq<u8>,
    encoding: KvIrEncoding,
    limit: u64,
    at: int,
    output: Seq<u8>,
    logtype: Seq<u8>,
) -> Result<(Seq<u8>, Seq<u8>), KvIrSerializerError>
    decreases message.len() - at,
{
    match next_variable_at(message, at) {
        None => match with_constant(logtype, message.skip(at), limit) {
            Ok(last) => Ok((output, last)),
            Err(error) => Err(error),
        },
        Some((begin, end)) => {
            let variable = variable_of(message.subrange(begin, end), encoding);
            match with_constant(logtype, message.subrange(at, begin), limit) {
                Err(error) => Err(error),
                Ok(constant) => match event_bytes(constant, seq![placeholder(variable)], limit) {
                    Err(error) => Err(error),
                    Ok(marked) => match with_text_variable(output, variable, limit) {
                        Err(error) => Err(error),
                        Ok(next) => if at < end <= message.len() {
                            with_message_from(message, encoding, limit, end, next, marked)
                        } else {
                            Err(KvIrSerializerError::SizeOverflow)
                        },
                    },
                },
            }
        },
    }
}

/// The output with the encoded text of a message appended.
pub open spec fn with_clp_text(
    output: Seq<u8>,
    message: Seq<u8>,
    encoding: KvIrEncoding,
    limit: u64,
) -> Result<Seq<u8>, KvIrSerializerError> {
    match event_bytes(output, seq![text_tag(encoding)], limit) {
        Err(error) => Err(error),
        Ok(tagged) => match with_message_from(message, encoding, limit, 0, tagged, Seq::empty()) {
            Err(error) => Err(error),
            Ok((variables, logtype)) => with_string(variables, logtype, logtype_tags(), limit),
        },
    }
}

pub proof fn lemma_token_start(message: Seq<u8>, at: int)
    requires
        0 <= at <= message.len(),
    ensures
        at <= token_start(message, at) <= message.len(),
        token_start(message, at) < message.len() ==> !is_delimiter_byte(
            message[token_start(message, at)],
        ),
    decreases message.len() - at,
{
    if at < message.len() && is_delimiter_byte(message[at]) {
        lemma_token_start(message, at + 1);
    }
}

pub proof fn lemma_token_end(message: Seq<u8>, at: int)
    requires
        0 <= at <= message.len(),
    ensures
        at <= token_end(message, at) <= message.len(),
        at < message.len() && !is_delimiter_byte(message[at]) ==> at < token_end(message, at),
    decreases message.len() - at,
{
    if at < message.len() && !is_delimiter_byte(message[at]) {
        lemma_token_end(message, at + 1);
    }
}

pub proof fn lemma_next_variable(message: Seq<u8>, at: int)
    requires
        0 <= at <= message.len(),
    ensures
        next_variable_at(message, at) matches Some((begin, end)) ==> at <= begin < end
            <= message.len(),
    decreases message.len() - at,
{
    lemma_token_start(message, at);
    let begin = token_start(message, at);
    lemma_token_end(message, begin);
    let end = token_end(message, begin);
    if begin < message.len() && at < end <= message.len() {
        lemma_next_variable(message, end);
    }
}

/// The one place of the point in a float spelling.
proof fn lemma_point_is_unique(token: Seq<u8>, start: int, first: int, second: int)
    requires
        is_float_spelling(token, start, first),
        is_float_spelling(token, start, second),
    ensures
        first == second,
{
    if first != second {
        assert(is_digit(token[first]));
    }
}

fn is_delimiter(byte: u8) -> (result: bool)
    ensures
        result == is_delimiter_byte(byte),
{
    !(byte == 0x2b || byte == 0x2d || byte == 0x2e || (0x30 <= byte && byte <= 0x39) || (0x41
        <= byte && byte <= 0x5a) || byte == 0x5c || byte == 0x5f || (0x61 <= byte && byte <= 0x7a))
}

fn is_marker(byte: u8) -> (result: bool)
    ensures
        result == is_logtype_marker(byte),
{
    byte == BACKSLASH || byte == INTEGER_PLACEHOLDER || byte == DICTIONARY_PLACEHOLDER || byte
        == FLOAT_PLACEHOLDER
}

/// Finds the first variable at or after `at`.
pub fn next_variable(message: &[u8], at: usize) -> (result: Option<(usize, usize)>)
    requires
        at <= message@.len(),
    ensures
        match result {
            Some((begin, end)) => next_variable_at(message@, at as int) == Some(
                (begin as int, end as int),
            ) && at <= begin < end <= message@.len(),
            None => next_variable_at(message@, at as int) is None,
        },
{
    let mut end: usize = at;
    while end < message.len()
        invariant
            at <= end <= message@.len(),
            next_variable_at(message@, end as int) == next_variable_at(message@, at as int),
        decreases message@.len() - end,
    {
        let ghost from = end as int;
        let mut begin: usize = end;
        while begin < message.len() && is_delimiter(message[begin])
            invariant
                from <= begin <= message@.len(),
                token_start(message@, begin as int) == token_start(message@, from),
            decreases message@.len() - begin,
        {
            begin += 1;
        }
        if begin == message.len() {
            return None;
        }
        let mut contains_digit = false;
        let mut contains_letter = false;
        let mut all_hexadecimal = true;
        end = begin;
        while end < message.len() && !is_delimiter(message[end])
            invariant
                begin <= end <= message@.len(),
                token_end(message@, end as int) == token_end(message@, begin as int),
                contains_digit == exists|i: int| begin <= i < end && is_digit(#[trigger] message@[i]),
                contains_letter == exists|i: int|
                    begin <= i < end && is_alphabetic(#[trigger] message@[i]),
                all_hexadecimal == forall|i: int|
                    begin <= i < end ==> is_hexadecimal(#[trigger] message@[i]),
            decreases message@.len() - end,
        {
            let byte = message[end];
            let digit = is_ascii_digit(byte);
            let letter = (0x41 <= byte && byte <= 0x5a) || (0x61 <= byte && byte <= 0x7a);
            let hexadecimal = digit || (0x41 <= byte && byte <= 0x46) || (0x61 <= byte && byte
                <= 0x66);
            proof {
                let here = end as int;
                assert(message@[here] == byte);
                if contains_digit {
                    let i = choose|i: int| begin <= i < here && is_digit(#[trigger] message@[i]);
                    assert(begin <= i < here + 1 && is_digit(message@[i]));
                }
                if contains_letter {
                    let i = choose|i: int|
                        begin <= i < here && is_alphabetic(#[trigger] message@[i]);
                    assert(begin <= i < here + 1 && is_alphabetic(message@[i]));
                }
                if !all_hexadecimal {
                    let i = choose|i: int|
                        begin <= i < here && !is_hexadecimal(#[trigger] message@[i]);
                    assert(begin <= i < here + 1 && !is_hexadecimal(message@[i]));
                }
            }
            contains_digit = contains_digit || digit;
            contains_letter = contains_letter || letter;
            all_hexadecimal = all_hexadecimal && hexadecimal;
            end += 1;
        }
        proof {
            lemma_token_end(message@, begin as int);
        }
        if contains_digit || (begin > 0 && message[begin - 1] == 0x3d && contains_letter) || (end
            - begin >= 2 && all_hexadecimal) {
            return Some((begin, end));
        }
    }
    None
}

/// Packs a token that is an integer in range.
pub fn encode_integer_token(token: &[u8], encoding: KvIrEncoding) -> (result: Option<
    KvIrEncodedVariable,
>)
    ensures
        result == integer_variable(token@, encoding),
{
    if token.len() == 0 {
        return None;
    }
    let negative = token[0] == MINUS;
    let start: usize = if negative {
        1
    } else {
        0
    };
    if start >= token.len() {
        return None;
    }
    if token.len() > 1 && token[start] == 0x30 {
        return None;
    }
    let mut at: usize = start;
    while at < token.len()
        invariant
            start <= at <= token@.len(),
            start < token@.len(),
            start == (if byte_at(token@, 0, MINUS) {
                1int
            } else {
                0
            }),
            forall|i: int| start <= i < at ==> is_digit(#[trigger] token@[i]),
        decreases token@.len() - at,
    {
        if !is_ascii_digit(token[at]) {
            assert(!is_digit(token@[at as int]));
            return None;
        }
        at += 1;
    }
    proof {
        assert(token@.subrange(start as int, token@.len() as int) =~= token@.skip(start as int));
        assert(token@.skip(0) =~= token@);
    }
    let magnitude = match parse_magnitude(token, start) {
        Some(magnitude) => magnitude,
        None => {
            return None;
        },
    };
    let signed: i64 = if negative {
        if magnitude > 0x8000_0000_0000_0000 {
            return None;
        }
        if magnitude == 0x8000_0000_0000_0000 {
            i64::MIN
        } else {
            -(magnitude as i64)
        }
    } else {
        if magnitude > 0x7fff_ffff_ffff_ffff {
            return None;
        }
        magnitude as i64
    };
    assert(signed == integer_spelled(token@));
    match encoding {
        KvIrEncoding::FourByte => {
            if -0x8000_0000 <= signed && signed <= 0x7fff_ffff {
                Some(KvIrEncodedVariable::FourByte(signed as i32))
            } else {
                None
            }
        },
        KvIrEncoding::EightByte => Some(KvIrEncodedVariable::EightByte(signed)),
    }
}

/// A float spelling does not fit where the digits up to `cut` say so, or there is no one point.
proof fn lemma_no_float(token: Seq<u8>, encoding: KvIrEncoding)
    requires
        forall|dot: int| !float_fits(token, sign_end(token), dot, encoding),
    ensures
        float_variable(token, encoding) is None,
{
}

proof fn lemma_some_float(token: Seq<u8>, dot: int, encoding: KvIrEncoding)
    requires
        float_fits(token, sign_end(token), dot, encoding),
    ensures
        float_variable(token, encoding) == Some(
            packed_float(spelled_float(token, sign_end(token), dot), encoding),
        ),
{
    let start = sign_end(token);
    let chosen = choose|dot: int| float_fits(token, start, dot, encoding);
    assert(float_fits(token, start, chosen, encoding));
    lemma_point_is_unique(token, start, dot, chosen);
}

/// Packs a token that is a float in range.
pub fn encode_float(token: &[u8], encoding: KvIrEncoding) -> (result: Option<KvIrEncodedVariable>)
    ensures
        result == float_variable(token@, encoding),
{
    let negative = token.len() > 0 && token[0] == MINUS;
    let start: usize = if negative {
        1
    } else {
        0
    };
    let max_digits: usize = match encoding {
        KvIrEncoding::FourByte => 8,
        KvIrEncoding::EightByte => 16,
    };
    if token.len() == 0 || token.len() - start > max_digits + 1 {
        proof {
            lemma_no_float(token@, encoding);
        }
        return None;
    }
    let mut value: u64 = 0;
    let mut dot: Option<usize> = None;
    let mut at: usize = start;
    let ghost mut run: Seq<u8> = Seq::empty();
    while at < token.len()
        invariant
            start == sign_end(token@),
            start <= at <= token@.len(),
            token@.len() - start <= 17,
            match dot {
                None => {
                    &&& forall|i: int| start <= i < at ==> is_digit(#[trigger] token@[i])
                    &&& run == token@.subrange(start as int, at as int)
                },
                Some(dot) => {
                    &&& start <= dot < at
                    &&& token@[dot as int] == DOT
                    &&& forall|i: int|
                        start <= i < at && i != dot ==> is_digit(#[trigger] token@[i])
                    &&& run == token@.subrange(start as int, dot as int) + token@.subrange(
                        dot + 1,
                        at as int,
                    )
                },
            },
            run.len() <= at - start,
            value == decimal_value(run),
            value < power_of_ten(run.len()),
        decreases token@.len() - at,
    {
        let byte = token[at];
        let ghost before = run;
        if is_ascii_digit(byte) {
            proof {
                run = run.push(byte);
                assert(run.drop_last() =~= before);
                lemma_ten_to_sixteen();
                lemma_power_of_ten_grows(before.len(), 16);
                assert(power_of_ten(run.len()) == 10 * power_of_ten(before.len()));
                match dot {
                    None => {
                        assert(run =~= token@.subrange(start as int, at + 1));
                    },
                    Some(dot) => {
                        assert(run =~= token@.subrange(start as int, dot as int) + token@.subrange(
                            dot + 1,
                            at + 1,
                        ));
                    },
                }
            }
            value = value * 10 + (byte - 0x30) as u64;
        } else if byte == DOT && dot.is_none() {
            dot = Some(at);
            proof {
                assert(run =~= token@.subrange(start as int, at as int) + token@.subrange(
                    at + 1,
                    at + 1,
                ));
            }
        } else {
            proof {
                assert(!is_digit(token@[at as int]));
                assert forall|other: int| !float_fits(
                    token@,
                    sign_end(token@),
                    other,
                    encoding,
                ) by {
                    if float_fits(token@, sign_end(token@), other, encoding) {
                        if other != at {
                            assert(is_digit(token@[at as int]));
                        } else {
                            assert(is_digit(token@[dot->0 as int]));
                        }
                    }
                }
                lemma_no_float(token@, encoding);
            }
            return None;
        }
        at += 1;
    }
    let dot = match dot {
        None => {
            proof {
                assert forall|other: int| !float_fits(
                    token@,
                    sign_end(token@),
                    other,
                    encoding,
                ) by {
                    if float_fits(token@, sign_end(token@), other, encoding) {
                        assert(is_digit(token@[other]));
                    }
                }
                lemma_no_float(token@, encoding);
            }
            return None;
        },
        Some(dot) => dot,
    };
    proof {
        assert(token@.subrange(dot + 1, token@.len() as int) =~= token@.skip(dot + 1));
        assert(run == float_digits(token@, start as int, dot as int));
        assert(is_float_spelling(token@, start as int, dot as int));
        assert forall|other: int| other != dot implies !float_fits(
            token@,
            sign_end(token@),
            other,
            encoding,
        ) by {
            if float_fits(token@, sign_end(token@), other, encoding) {
                lemma_point_is_unique(token@, start as int, dot as int, other);
            }
        }
    }
    let digit_count = token.len() - start - 1;
    let decimal_position = token.len() - dot - 1;
    if decimal_position == 0 || digit_count > max_digits {
        proof {
            lemma_no_float(token@, encoding);
        }
        return None;
    }
    let sign: u64 = if negative {
        1
    } else {
        0
    };
    match encoding {
        KvIrEncoding::FourByte => {
            if value >= 0x200_0000 {
                proof {
                    lemma_no_float(token@, encoding);
                }
                return None;
            }
            let packed: u32 = (sign * 0x8000_0000 + value * 0x40 + (digit_count as u64 - 1) * 8 + (
            decimal_position as u64 - 1)) as u32;
            proof {
                lemma_some_float(token@, dot as int, encoding);
            }
            Some(
                KvIrEncodedVariable::FourByte(
                    #[verifier::truncate]
                    (packed as i32),
                ),
            )
        },
        KvIrEncoding::EightByte => {
            proof {
                lemma_ten_to_sixteen();
                lemma_power_of_ten_grows(run.len(), 16);
                lemma_some_float(token@, dot as int, encoding);
            }
            let packed: u64 = sign * 0x8000_0000_0000_0000 + value * 0x100 + (digit_count as u64
                - 1) * 0x10 + (decimal_position as u64 - 1);
            Some(
                KvIrEncodedVariable::EightByte(
                    #[verifier::truncate]
                    (packed as i64),
                ),
            )
        },
    }
}

/// Appends a constant to a logtype with its markers escaped.
pub fn append_escaped_constant(constant: &[u8], logtype: &mut Vec<u8>, limit: u64) -> (result:
    Result<(), KvIrSerializerError>)
    ensures
        staged(old(logtype)@, limit, with_constant(old(logtype)@, constant@, limit), final(logtype)@, result),
{
    let mut found = false;
    let mut scanned: usize = 0;
    while scanned < constant.len()
        invariant
            scanned <= constant@.len(),
            found ==> has_marker(constant@),
            !found ==> forall|i: int|
                0 <= i < scanned ==> !is_logtype_marker(#[trigger] constant@[i]),
        decreases constant@.len() - scanned,
    {
        if is_marker(constant[scanned]) {
            assert(is_logtype_marker(constant@[scanned as int]));
            found = true;
        }
        scanned += 1;
    }
    if !found {
        return append_limited(logtype, constant, limit);
    }
    let mut at: usize = 0;
    while at < constant.len()
        invariant
            old(logtype)@.len() <= logtype@.len(),
            at <= constant@.len(),
            with_escaped_bytes(logtype@, constant@, at as int, limit) == with_escaped_bytes(
                old(logtype)@,
                constant@,
                0,
                limit,
            ),
            has_marker(constant@),
        decreases constant@.len() - at,
    {
        if is_marker(constant[at]) {
            checked_push(logtype, BACKSLASH, limit, "CLP logtype")?;
        }
        checked_push(logtype, constant[at], limit, "CLP logtype")?;
        at += 1;
    }
    Ok(())
}

/// Appends the encoded text of a message. The logtype buffer is scratch space.
pub fn serialize_clp_text(
    encoding: KvIrEncoding,
    message: &[u8],
    output: &mut Vec<u8>,
    logtype: &mut Vec<u8>,
    limit: u64,
) -> (result: Result<(), KvIrSerializerError>)
    ensures
        staged(old(output)@, limit, with_clp_text(old(output)@, message@, encoding, limit), final(output)@, result),
{
    let tag: u8 = match encoding {
        KvIrEncoding::FourByte => 0x59,
        KvIrEncoding::EightByte => 0x5a,
    };
    checked_push(output, tag, limit, "CLP value staging")?;
    logtype.clear();
    let ghost target = with_message_from(
        message@,
        encoding,
        limit,
        0,
        output@,
        Seq::<u8>::empty(),
    );
    let mut at: usize = 0;
    loop
        invariant_except_break
            at <= message@.len(),
            with_message_from(message@, encoding, limit, at as int, output@, logtype@) == target,
            match event_bytes(old(output)@, seq![text_tag(encoding)], limit) {
                Ok(tagged) => target == with_message_from(
                    message@,
                    encoding,
                    limit,
                    0,
                    tagged,
                    Seq::<u8>::empty(),
                ),
                Err(_) => false,
            },
        ensures
            at <= message@.len(),
            next_variable_at(message@, at as int) is None,
            with_message_from(message@, encoding, limit, at as int, output@, logtype@) == target,
            match event_bytes(old(output)@, seq![text_tag(encoding)], limit) {
                Ok(tagged) => target == with_message_from(
                    message@,
                    encoding,
                    limit,
                    0,
                    tagged,
                    Seq::<u8>::empty(),
                ),
                Err(_) => false,
            },
        decreases message@.len() - at,
    {
        let (begin, end) = match next_variable(message, at) {
            None => {
                break;
            },
            Some(range) => range,
        };
        append_escaped_constant(slice_subrange(message, at, begin), logtype, limit)?;
        let token = slice_subrange(message, begin, end);
        match encode_float(token, encoding) {
            Some(value) => {
                checked_push(logtype, FLOAT_PLACEHOLDER, limit, "CLP logtype")?;
                serialize_encoded_variable(output, value, limit)?;
            },
            None => match encode_integer_token(token, encoding) {
                Some(value) => {
                    checked_push(logtype, INTEGER_PLACEHOLDER, limit, "CLP logtype")?;
                    serialize_encoded_variable(output, value, limit)?;
                },
                None => {
                    checked_push(logtype, DICTIONARY_PLACEHOLDER, limit, "CLP logtype")?;
                    serialize_string(
                        output,
                        token,
                        WidthTags { one: 0x11, two: 0x12, four: 0x13 },
                        limit,
                    )?;
                },
            },
        }
        at = end;
    }
    assert(message@.subrange(at as int, message@.len() as int) =~= message@.skip(at as int));
    append_escaped_constant(slice_subrange(message, at, message.len()), logtype, limit)?;
    serialize_string(
        output,
        logtype.as_slice(),
        WidthTags { one: 0x21, two: 0x22, four: 0x23 },
        limit,
    )
}

} // verus!
