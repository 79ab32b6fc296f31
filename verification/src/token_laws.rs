//! Which parts of a message are variables, and how they are kept.

use vstd::prelude::*;

use crate::clp_text::{
    float_fits, integer_spelled, is_delimiter_byte, is_float_spelling, is_integer_spelling,
    is_variable_token, lemma_token_end, lemma_token_start, next_variable_at, placeholder, sign_end,
    token_end, token_start, variable_of, TextVariable,
};
use crate::decimal::{decimal, digits, lemma_digits};
use crate::kv_ir::{KvIrEncodedVariable, KvIrEncoding};
use crate::number_laws::lemma_digits_parts;
use crate::text::is_digit;

verus! {

/// Whether an integer fits the width of an encoding.
pub open spec fn fits_width(value: int, encoding: KvIrEncoding) -> bool {
    match encoding {
        KvIrEncoding::FourByte => -0x8000_0000 <= value <= 0x7fff_ffff,
        KvIrEncoding::EightByte => -0x8000_0000_0000_0000 <= value <= 0x7fff_ffff_ffff_ffff,
    }
}

/// Whether a variable is an integer.
pub open spec fn is_integer_variable(kept: TextVariable, value: int, encoding: KvIrEncoding) -> bool {
    kept matches TextVariable::Integer(variable) && match (encoding, variable) {
        (KvIrEncoding::FourByte, KvIrEncodedVariable::FourByte(number)) => number == value,
        (KvIrEncoding::EightByte, KvIrEncodedVariable::EightByte(number)) => number == value,
        _ => false,
    }
}

/// The decimal spelling of an integer is kept as that integer where it fits the width of the
/// encoding, and otherwise as it is spelled.
pub proof fn spelled_integers_are_kept_as_integers(value: int, encoding: KvIrEncoding)
    ensures
        fits_width(value, encoding) ==> is_integer_variable(
            variable_of(decimal(value), encoding),
            value,
            encoding,
        ),
        !fits_width(value, encoding) ==> variable_of(decimal(value), encoding)
            == TextVariable::Dictionary(decimal(value)),
{
    let token = decimal(value);
    let size = if value < 0 {
        (-value) as nat
    } else {
        value as nat
    };
    let run = digits(size);
    lemma_digits(size);
    lemma_digits_parts(size);
    let start = sign_end(token);
    assert(is_digit(run[0]));
    if value < 0 {
        assert(token.skip(1) =~= run);
        assert(token[0] == 0x2d);
    } else {
        assert(token =~= run);
    }
    assert(start == (if value < 0 {
        1int
    } else {
        0
    }));
    assert forall|i: int| start <= i < token.len() implies is_digit(#[trigger] token[i]) by {
        assert(token[i] == run[i - start]);
    }
    assert(token[start] == run[0]);
    if value < 0 && run.len() == 1 && run[0] == 0x30 {
        lemma_zero(size);
    }
    assert(is_integer_spelling(token));
    assert(integer_spelled(token) == value);
    assert forall|dot: int| !(#[trigger] float_fits(token, start, dot, encoding)) by {
        if is_float_spelling(token, start, dot) {
            assert(is_digit(token[dot]));
        }
    }
}

proof fn lemma_zero(size: nat)
    requires
        digits(size).len() == 1,
        digits(size)[0] == 0x30,
    ensures
        size == 0,
{
    if size >= 10 {
        lemma_digits(size / 10);
    }
}

/// A token that is kept as an integer or as a float has nothing but digits, a minus sign before
/// them and, for a float, a point among them; any other token is kept as it is.
pub proof fn other_tokens_are_kept_as_they_are(token: Seq<u8>, encoding: KvIrEncoding)
    ensures
        (exists|i: int|
            0 <= i < token.len() && !is_digit(#[trigger] token[i]) && token[i] != 0x2d && token[i]
                != 0x2e) ==> variable_of(token, encoding) == TextVariable::Dictionary(token),
        variable_of(token, encoding) is Integer ==> forall|i: int|
            0 < i < token.len() ==> is_digit(#[trigger] token[i]),
        variable_of(token, encoding) is Float ==> exists|i: int|
            0 <= i < token.len() && #[trigger] token[i] == 0x2e,
{
    let start = sign_end(token);
    if variable_of(token, encoding) is Float {
        let dot = choose|dot: int| float_fits(token, start, dot, encoding);
        assert(float_fits(token, start, dot, encoding));
        assert(token[dot] == 0x2e);
        assert forall|i: int| 0 <= i < token.len() implies is_digit(#[trigger] token[i])
            || token[i] == 0x2d || token[i] == 0x2e by {}
    }
}

/// The logtype marks an integer, a dictionary entry and a float each with its own byte.
pub proof fn variables_are_marked_by_their_kind(kept: TextVariable)
    ensures
        placeholder(kept) == (match kept {
            TextVariable::Integer(_) => 0x11u8,
            TextVariable::Dictionary(_) => 0x12,
            TextVariable::Float(_) => 0x13,
        }),
{
}

/// Whether a byte may stand within a token: a letter, a digit, a sign, a point, an underscore or a
/// backslash.
pub open spec fn is_token_byte(byte: u8) -> bool {
    ||| 0x30 <= byte <= 0x39
    ||| 0x41 <= byte <= 0x5a
    ||| 0x61 <= byte <= 0x7a
    ||| byte == 0x2b || byte == 0x2d || byte == 0x2e || byte == 0x5c || byte == 0x5f
}

/// A variable is a whole token: nothing of a token stands before it or behind it. Whatever stands
/// before the first variable, and all of a message that has none, is without digits.
pub proof fn variables_are_whole_tokens(message: Seq<u8>, at: int)
    requires
        0 <= at <= message.len(),
    ensures
        match next_variable_at(message, at) {
            Some((begin, end)) => {
                &&& at <= begin < end <= message.len()
                &&& forall|i: int| begin <= i < end ==> is_token_byte(#[trigger] message[i])
                &&& begin > at ==> !is_token_byte(message[begin - 1])
                &&& end < message.len() ==> !is_token_byte(message[end])
                &&& forall|i: int| at <= i < begin ==> !is_digit(#[trigger] message[i])
                &&& {
                    ||| exists|i: int| begin <= i < end && is_digit(#[trigger] message[i])
                    ||| begin > 0 && message[begin - 1] == 0x3d
                    ||| end - begin >= 2 && forall|i: int|
                        begin <= i < end ==> (0x41 <= #[trigger] message[i] <= 0x46 || 0x61
                            <= message[i] <= 0x66)
                }
            },
            None => forall|i: int| at <= i < message.len() ==> !is_digit(#[trigger] message[i]),
        },
    decreases message.len() - at,
{
    let begin = token_start(message, at);
    let end = token_end(message, begin);
    lemma_token_start(message, at);
    lemma_token_end(message, begin);
    lemma_start_run(message, at);
    lemma_end_run(message, begin);
    if begin < message.len() {
        assert(end > begin);
        if !is_variable_token(message, begin, end) {
            variables_are_whole_tokens(message, end);
            assert forall|i: int| begin <= i < end implies !is_digit(#[trigger] message[i]) by {}
        } else {
            if forall|i: int| begin <= i < end ==> !is_digit(#[trigger] message[i]) {
                assert forall|i: int|
                    begin <= i < end && crate::clp_text::is_hexadecimal(
                        #[trigger] message[i],
                    ) implies (0x41 <= message[i] <= 0x46 || 0x61 <= message[i] <= 0x66) by {
                    assert(!is_digit(message[i]));
                }
            }
        }
    }
}

proof fn lemma_start_run(message: Seq<u8>, at: int)
    requires
        0 <= at <= message.len(),
    ensures
        at <= token_start(message, at) <= message.len(),
        forall|i: int| at <= i < token_start(message, at) ==> !is_token_byte(#[trigger] message[i]),
        token_start(message, at) < message.len() ==> is_token_byte(
            message[token_start(message, at)],
        ),
    decreases message.len() - at,
{
    if at < message.len() && is_delimiter_byte(message[at]) {
        lemma_start_run(message, at + 1);
    }
}

proof fn lemma_end_run(message: Seq<u8>, at: int)
    requires
        0 <= at <= message.len(),
    ensures
        at <= token_end(message, at) <= message.len(),
        forall|i: int| at <= i < token_end(message, at) ==> is_token_byte(#[trigger] message[i]),
        token_end(message, at) < message.len() ==> !is_token_byte(message[token_end(message, at)]),
    decreases message.len() - at,
{
    if at < message.len() && !is_delimiter_byte(message[at]) {
        lemma_end_run(message, at + 1);
    }
}

} // verus!
