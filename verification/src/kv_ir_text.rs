//! Reconstruction of encoded texts.

use vstd::prelude::*;
use vstd::slice::slice_subrange;

use crate::decimal::{
    decimal, decimal_digits, digits, lemma_padded, magnitude_of, padded, power_of_ten,
};
use crate::kv_ir::{KvIrEncodedText, KvIrEncodedVariable, KvIrEncoding};
use crate::text::{append_slice, BACKSLASH, DOT, MINUS};

verus! {

/// Logtype byte that stands for an encoded integer.
pub const INTEGER_PLACEHOLDER: u8 = 0x11;

/// Logtype byte that stands for a dictionary variable.
pub const DICTIONARY_PLACEHOLDER: u8 = 0x12;

/// Logtype byte that stands for an encoded float.
pub const FLOAT_PLACEHOLDER: u8 = 0x13;

/// What makes an encoded text malformed.
#[derive(Clone, Copy, Debug, PartialEq, Eq, Structural)]
pub enum EncodedTextFault {
    EncodedVariableWidthMismatch,
    MissingEncodedVariable,
    MissingDictionaryVariable,
    TrailingEscape,
    EncodedFloatDecimalPosition,
    EncodedFloatDigitsTooLarge,
    EncodedFloatDigitCount,
}

/// Why an encoded text could not be reconstructed.
#[derive(Clone, Copy, Debug, PartialEq, Eq, Structural)]
#[non_exhaustive]
pub enum KvIrEncodedTextError {
    EncodedVariableWidthMismatch,
    MissingEncodedVariable,
    MissingDictionaryVariable,
    TrailingEscape,
    EncodedFloatDecimalPosition,
    EncodedFloatDigitsTooLarge,
    EncodedFloatDigitCount,
    Limit { actual: usize, limit: usize },
    AllocationFailed { requested_additional: usize },
    SizeOverflow,
}

/// How far one value, and the buffer that holds it, may grow.
#[derive(Clone, Copy, Debug, PartialEq, Eq, Structural)]
pub struct GrowthLimits {
    /// Where the value starts in its buffer.
    pub value_start: usize,
    pub value_bytes: u64,
    pub buffer_bytes: u64,
}

/// Why a buffer was not extended, or what was to be appended is malformed.
#[derive(Clone, Copy, Debug, PartialEq, Eq, Structural)]
pub enum TextFailure {
    Malformed(EncodedTextFault),
    ValueLimit { actual: usize },
    BufferLimit { actual: usize },
    AllocationFailed { requested_additional: usize },
    SizeOverflow,
}

/// Whether a buffer may grow by `additional` bytes.
pub open spec fn growth(output: Seq<u8>, limits: GrowthLimits, additional: int) -> Result<
    (),
    TextFailure,
> {
    let length = output.len() + additional;
    if length > usize::MAX || length < limits.value_start {
        Err(TextFailure::SizeOverflow)
    } else if length - limits.value_start > limits.value_bytes {
        Err(TextFailure::ValueLimit { actual: (length - limits.value_start) as usize })
    } else if length > limits.buffer_bytes {
        Err(TextFailure::BufferLimit { actual: length as usize })
    } else {
        Ok(())
    }
}

/// The buffer with `bytes` appended.
pub open spec fn grown(output: Seq<u8>, limits: GrowthLimits, bytes: Seq<u8>) -> Result<
    Seq<u8>,
    TextFailure,
> {
    match growth(output, limits, bytes.len() as int) {
        Ok(_) => Ok(output + bytes),
        Err(failure) => Err(failure),
    }
}

/// Whether a logtype byte escapes another or stands for a variable.
pub open spec fn is_logtype_marker(byte: u8) -> bool {
    byte == BACKSLASH || byte == INTEGER_PLACEHOLDER || byte == DICTIONARY_PLACEHOLDER || byte
        == FLOAT_PLACEHOLDER
}

/// End of the run of ordinary logtype bytes at `at`.
pub open spec fn literal_end(logtype: Seq<u8>, at: int) -> int
    decreases logtype.len() - at,
{
    if 0 <= at < logtype.len() && !is_logtype_marker(logtype[at]) {
        literal_end(logtype, at + 1)
    } else {
        at
    }
}

/// Sign, digits, and decimal point of an encoded float.
#[derive(Clone, Copy, Debug, PartialEq, Eq, Structural)]
pub struct FloatProperties {
    pub negative: bool,
    pub digits: u64,
    pub digit_count: u8,
    pub decimal_position: u8,
}

/// Properties packed into a variable, field by field.
pub open spec fn unpacked_float(encoding: KvIrEncoding, value: KvIrEncodedVariable) -> Result<
    FloatProperties,
    EncodedTextFault,
> {
    match (encoding, value) {
        (KvIrEncoding::FourByte, KvIrEncodedVariable::FourByte(value)) => {
            let packed = value as u32;
            Ok(
                FloatProperties {
                    negative: packed / 0x8000_0000 != 0,
                    digits: (packed / 0x40 % 0x200_0000) as u64,
                    digit_count: (packed / 8 % 8 + 1) as u8,
                    decimal_position: (packed % 8 + 1) as u8,
                },
            )
        },
        (KvIrEncoding::EightByte, KvIrEncodedVariable::EightByte(value)) => {
            let packed = value as u64;
            let digits = (packed / 0x100 % 0x40_0000_0000_0000) as u64;
            if digits > 9_999_999_999_999_999 {
                Err(EncodedTextFault::EncodedFloatDigitsTooLarge)
            } else {
                Ok(
                    FloatProperties {
                        negative: packed / 0x8000_0000_0000_0000 != 0,
                        digits,
                        digit_count: (packed / 0x10 % 0x10 + 1) as u8,
                        decimal_position: (packed % 0x10 + 1) as u8,
                    },
                )
            }
        },
        _ => Err(EncodedTextFault::EncodedVariableWidthMismatch),
    }
}

/// Properties of an encoded float whose decimal point lies among its digits.
pub open spec fn float_properties(encoding: KvIrEncoding, value: KvIrEncodedVariable) -> Result<
    FloatProperties,
    EncodedTextFault,
> {
    match unpacked_float(encoding, value) {
        Ok(properties) => if properties.decimal_position > properties.digit_count {
            Err(EncodedTextFault::EncodedFloatDecimalPosition)
        } else {
            Ok(properties)
        },
        Err(fault) => Err(fault),
    }
}

/// Sign of a float.
pub open spec fn float_sign(properties: FloatProperties) -> Seq<u8> {
    if properties.negative {
        seq![MINUS]
    } else {
        Seq::empty()
    }
}

/// Spelling of a float.
pub open spec fn float_text(properties: FloatProperties) -> Seq<u8> {
    let run = padded(properties.digits as nat, properties.digit_count as nat);
    let whole = properties.digit_count - properties.decimal_position;
    float_sign(properties) + run.take(whole) + seq![DOT] + run.skip(whole)
}

/// The integer of a variable of the right width.
pub open spec fn integer_of(encoding: KvIrEncoding, value: KvIrEncodedVariable) -> Option<int> {
    match (encoding, value) {
        (KvIrEncoding::FourByte, KvIrEncodedVariable::FourByte(value)) => Some(value as int),
        (KvIrEncoding::EightByte, KvIrEncodedVariable::EightByte(value)) => Some(value as int),
        _ => None,
    }
}

/// The buffer with an integer appended: its sign, then its digits.
pub open spec fn with_integer(output: Seq<u8>, limits: GrowthLimits, value: int) -> Result<
    Seq<u8>,
    TextFailure,
> {
    if value < 0 {
        match grown(output, limits, seq![MINUS]) {
            Ok(signed) => grown(signed, limits, digits((-value) as nat)),
            Err(failure) => Err(failure),
        }
    } else {
        grown(output, limits, digits(value as nat))
    }
}

/// The buffer with an encoded integer appended.
pub open spec fn with_encoded_integer(
    output: Seq<u8>,
    limits: GrowthLimits,
    encoding: KvIrEncoding,
    value: KvIrEncodedVariable,
) -> Result<Seq<u8>, TextFailure> {
    match integer_of(encoding, value) {
        Some(value) => with_integer(output, limits, value),
        None => Err(TextFailure::Malformed(EncodedTextFault::EncodedVariableWidthMismatch)),
    }
}

/// The buffer with an encoded float appended.
pub open spec fn with_encoded_float(
    output: Seq<u8>,
    limits: GrowthLimits,
    encoding: KvIrEncoding,
    value: KvIrEncodedVariable,
) -> Result<Seq<u8>, TextFailure> {
    match float_properties(encoding, value) {
        Err(fault) => Err(TextFailure::Malformed(fault)),
        Ok(properties) => match growth(output, limits, float_text(properties).len() as int) {
            Err(failure) => Err(failure),
            Ok(_) => if properties.digits >= power_of_ten(properties.digit_count as nat) {
                Err(TextFailure::Malformed(EncodedTextFault::EncodedFloatDigitCount))
            } else {
                Ok(output + float_text(properties))
            },
        },
    }
}

/// An encoded text as mathematical sequences.
pub struct EncodedTextView {
    pub encoding: KvIrEncoding,
    pub variables: Seq<KvIrEncodedVariable>,
    pub dictionary: Seq<Seq<u8>>,
    pub logtype: Seq<u8>,
}

impl<'a> View for KvIrEncodedText<'a> {
    type V = EncodedTextView;

    open spec fn view(&self) -> EncodedTextView {
        EncodedTextView {
            encoding: self.encoding,
            variables: self.encoded_variables@,
            dictionary: self.dictionary_variables@.map_values(|variable: Vec<u8>| variable@),
            logtype: self.logtype@,
        }
    }
}

/// The buffer with the rest of a text appended: its logtype from `at` on, whose placeholders take
/// the variables from `variable` and the dictionary entries from `entry` on.
pub open spec fn with_text(
    output: Seq<u8>,
    limits: GrowthLimits,
    text: EncodedTextView,
    at: int,
    variable: int,
    entry: int,
) -> Result<Seq<u8>, TextFailure>
    decreases text.logtype.len() - at,
{
    if at < 0 || at >= text.logtype.len() {
        Ok(output)
    } else {
        let byte = text.logtype[at];
        if byte == BACKSLASH {
            if at + 1 >= text.logtype.len() {
                Err(TextFailure::Malformed(EncodedTextFault::TrailingEscape))
            } else {
                match grown(output, limits, seq![text.logtype[at + 1]]) {
                    Ok(next) => with_text(next, limits, text, at + 2, variable, entry),
                    Err(failure) => Err(failure),
                }
            }
        } else if byte == DICTIONARY_PLACEHOLDER {
            if entry >= text.dictionary.len() {
                Err(TextFailure::Malformed(EncodedTextFault::MissingDictionaryVariable))
            } else {
                match grown(output, limits, text.dictionary[entry]) {
                    Ok(next) => with_text(next, limits, text, at + 1, variable, entry + 1),
                    Err(failure) => Err(failure),
                }
            }
        } else if byte == INTEGER_PLACEHOLDER || byte == FLOAT_PLACEHOLDER {
            if variable >= text.variables.len() {
                Err(TextFailure::Malformed(EncodedTextFault::MissingEncodedVariable))
            } else {
                let value = text.variables[variable];
                let appended = if byte == INTEGER_PLACEHOLDER {
                    with_encoded_integer(output, limits, text.encoding, value)
                } else {
                    with_encoded_float(output, limits, text.encoding, value)
                };
                match appended {
                    Ok(next) => with_text(next, limits, text, at + 1, variable + 1, entry),
                    Err(failure) => Err(failure),
                }
            }
        } else {
            let end = literal_end(text.logtype, at);
            if end <= at || end > text.logtype.len() {
                Err(TextFailure::SizeOverflow)
            } else {
                match grown(output, limits, text.logtype.subrange(at, end)) {
                    Ok(next) => with_text(next, limits, text, end, variable, entry),
                    Err(failure) => Err(failure),
                }
            }
        }
    }
}

/// The number of bytes for which memory was refused.
pub open spec fn refused_bytes(result: Result<(), TextFailure>) -> Option<int> {
    match result {
        Err(TextFailure::AllocationFailed { requested_additional }) => Some(
            requested_additional as int,
        ),
        _ => None,
    }
}

/// Whether appending bytes asks for memory for `count` bytes: for all of them, once they fit.
pub open spec fn bytes_ask(output: Seq<u8>, limits: GrowthLimits, bytes: Seq<u8>, count: int) -> bool {
    growth(output, limits, bytes.len() as int) is Ok && count == bytes.len() && 0 < count
}

/// Whether appending an integer asks for memory for `count` bytes: for its sign, then its digits.
pub open spec fn integer_asks(output: Seq<u8>, limits: GrowthLimits, value: int, count: int) -> bool {
    if value < 0 {
        ||| bytes_ask(output, limits, seq![MINUS], count)
        ||| grown(output, limits, seq![MINUS]) matches Ok(signed) && bytes_ask(
            signed,
            limits,
            digits((-value) as nat),
            count,
        )
    } else {
        bytes_ask(output, limits, digits(value as nat), count)
    }
}

/// Whether appending an encoded float asks for memory for `count` bytes: for all of its spelling.
pub open spec fn float_asks(
    output: Seq<u8>,
    limits: GrowthLimits,
    encoding: KvIrEncoding,
    value: KvIrEncodedVariable,
    count: int,
) -> bool {
    float_properties(encoding, value) matches Ok(properties) && bytes_ask(
        output,
        limits,
        float_text(properties),
        count,
    )
}

/// Whether appending the rest of a text asks for memory for `count` bytes: for each part in turn,
/// once it fits.
pub open spec fn text_asks(
    output: Seq<u8>,
    limits: GrowthLimits,
    text: EncodedTextView,
    at: int,
    variable: int,
    entry: int,
    count: int,
) -> bool
    decreases text.logtype.len() - at,
{
    if at < 0 || at >= text.logtype.len() {
        false
    } else {
        let byte = text.logtype[at];
        if byte == BACKSLASH {
            at + 1 < text.logtype.len() && {
                let bytes = seq![text.logtype[at + 1]];
                ||| bytes_ask(output, limits, bytes, count)
                ||| grown(output, limits, bytes) matches Ok(next) && text_asks(
                    next,
                    limits,
                    text,
                    at + 2,
                    variable,
                    entry,
                    count,
                )
            }
        } else if byte == DICTIONARY_PLACEHOLDER {
            entry < text.dictionary.len() && {
                let bytes = text.dictionary[entry];
                ||| bytes_ask(output, limits, bytes, count)
                ||| grown(output, limits, bytes) matches Ok(next) && text_asks(
                    next,
                    limits,
                    text,
                    at + 1,
                    variable,
                    entry + 1,
                    count,
                )
            }
        } else if byte == INTEGER_PLACEHOLDER {
            variable < text.variables.len() && {
                let value = text.variables[variable];
                ||| integer_of(text.encoding, value) matches Some(number) && integer_asks(
                    output,
                    limits,
                    number,
                    count,
                )
                ||| with_encoded_integer(output, limits, text.encoding, value) matches Ok(next)
                    && text_asks(next, limits, text, at + 1, variable + 1, entry, count)
            }
        } else if byte == FLOAT_PLACEHOLDER {
            variable < text.variables.len() && {
                let value = text.variables[variable];
                ||| float_asks(output, limits, text.encoding, value, count)
                ||| with_encoded_float(output, limits, text.encoding, value) matches Ok(next)
                    && text_asks(next, limits, text, at + 1, variable + 1, entry, count)
            }
        } else {
            let end = literal_end(text.logtype, at);
            at < end <= text.logtype.len() && {
                let bytes = text.logtype.subrange(at, end);
                ||| bytes_ask(output, limits, bytes, count)
                ||| grown(output, limits, bytes) matches Ok(next) && text_asks(
                    next,
                    limits,
                    text,
                    end,
                    variable,
                    entry,
                    count,
                )
            }
        }
    }
}

pub proof fn lemma_literal_end(logtype: Seq<u8>, at: int)
    requires
        0 <= at <= logtype.len(),
    ensures
        at <= literal_end(logtype, at) <= logtype.len(),
        at < logtype.len() && !is_logtype_marker(logtype[at]) ==> at < literal_end(logtype, at),
        forall|i: int|
            at <= i < literal_end(logtype, at) ==> !is_logtype_marker(#[trigger] logtype[i]),
    decreases logtype.len() - at,
{
    if at < logtype.len() && !is_logtype_marker(logtype[at]) {
        lemma_literal_end(logtype, at + 1);
    }
}

/// What an operation on a buffer came to: the buffer that `expected` gives or its failure, or the
/// refusal of memory for bytes that the buffer, as it was left, might have taken.
pub open spec fn appended(
    limits: GrowthLimits,
    expected: Result<Seq<u8>, TextFailure>,
    after: Seq<u8>,
    result: Result<(), TextFailure>,
) -> bool {
    match result {
        Ok(_) => expected == Ok::<Seq<u8>, TextFailure>(after),
        Err(TextFailure::AllocationFailed { requested_additional }) => growth(
            after,
            limits,
            requested_additional as int,
        ) is Ok && 0 < requested_additional,
        Err(failure) => expected == Err::<Seq<u8>, TextFailure>(failure),
    }
}

/// A buffer still starts with what it held before.
pub open spec fn extends(after: Seq<u8>, before: Seq<u8>) -> bool {
    before.len() <= after.len() && after.take(before.len() as int) == before
}

/// Whether a buffer of `length` bytes may grow by `additional`.
fn check_growth(length: usize, limits: GrowthLimits, additional: usize, output: Ghost<Seq<u8>>) -> (result:
    Result<(), TextFailure>)
    requires
        output@.len() == length,
    ensures
        result == growth(output@, limits, additional as int),
{
    if additional > usize::MAX - length {
        return Err(TextFailure::SizeOverflow);
    }
    let new_length = length + additional;
    if new_length < limits.value_start {
        return Err(TextFailure::SizeOverflow);
    }
    let actual = new_length - limits.value_start;
    if actual as u64 > limits.value_bytes {
        return Err(TextFailure::ValueLimit { actual });
    }
    if new_length as u64 > limits.buffer_bytes {
        return Err(TextFailure::BufferLimit { actual: new_length });
    }
    Ok(())
}

/// Appends bytes within the limits.
pub fn append_bytes(output: &mut Vec<u8>, limits: GrowthLimits, bytes: &[u8]) -> (result: Result<
    (),
    TextFailure,
>)
    ensures
        appended(limits, grown(old(output)@, limits, bytes@), final(output)@, result),
        extends(final(output)@, old(output)@),
        result is Err ==> final(output)@ == old(output)@,
        refused_bytes(result) matches Some(count) ==> bytes_ask(
            old(output)@,
            limits,
            bytes@,
            count,
        ),
{
    assert(output@.take(output@.len() as int) =~= output@);
    match check_growth(output.len(), limits, bytes.len(), Ghost(output@)) {
        Ok(_) => {},
        Err(failure) => {
            return Err(failure);
        },
    }
    let reserved = bytes.len() == 0 || output.try_reserve(bytes.len()).is_ok();
    append_reserved(output, bytes, reserved)
}

/// Appends bytes, given whether there is memory for them.
pub fn append_reserved(output: &mut Vec<u8>, bytes: &[u8], reserved: bool) -> (result: Result<
    (),
    TextFailure,
>)
    ensures
        match result {
            Ok(_) => reserved && final(output)@ == old(output)@ + bytes@,
            Err(failure) => !reserved && final(output)@ == old(output)@ && failure
                == (TextFailure::AllocationFailed { requested_additional: bytes@.len() as usize }),
        },
        extends(final(output)@, old(output)@),
{
    assert(output@.take(output@.len() as int) =~= output@);
    if !reserved {
        return Err(TextFailure::AllocationFailed { requested_additional: bytes.len() });
    }
    append_slice(output, bytes);
    assert(output@.take(old(output)@.len() as int) =~= old(output)@);
    Ok(())
}

/// Appends a signed integer in decimal.
pub fn append_integer(output: &mut Vec<u8>, limits: GrowthLimits, value: i64) -> (result: Result<
    (),
    TextFailure,
>)
    ensures
        appended(limits, with_integer(old(output)@, limits, value as int), final(output)@, result),
        extends(final(output)@, old(output)@),
        refused_bytes(result) matches Some(count) ==> integer_asks(
            old(output)@,
            limits,
            value as int,
            count,
        ),
{
    if value < 0 {
        let sign: [u8; 1] = [MINUS];
        assert(sign@ =~= seq![MINUS]);
        match append_bytes(output, limits, &sign) {
            Ok(_) => {},
            Err(failure) => {
                return Err(failure);
            },
        }
    }
    let ghost signed = output@;
    let spelling = decimal_digits(magnitude_of(value));
    let result = append_bytes(output, limits, spelling.as_slice());
    assert(output@.take(old(output)@.len() as int) =~= old(output)@) by {
        assert(output@.take(signed.len() as int) == signed);
        assert(signed.take(old(output)@.len() as int) =~= old(output)@);
        assert forall|i: int| 0 <= i < old(output)@.len() implies output@[i] == old(output)@[i] by {
            assert(output@.take(signed.len() as int)[i] == output@[i]);
            assert(signed.take(old(output)@.len() as int)[i] == signed[i]);
        }
    }
    result
}

/// Unpacks and checks the properties of an encoded float.
pub fn decode_float_properties(encoding: KvIrEncoding, value: KvIrEncodedVariable) -> (result:
    Result<FloatProperties, EncodedTextFault>)
    ensures
        result == float_properties(encoding, value),
        result matches Ok(properties) ==> 1 <= properties.decimal_position
            <= properties.digit_count <= 16 && properties.digits <= 9_999_999_999_999_999,
{
    let properties = match (encoding, value) {
        (KvIrEncoding::FourByte, KvIrEncodedVariable::FourByte(value)) => {
            let packed =
                #[verifier::truncate]
                (value as u32);
            FloatProperties {
                negative: packed / 0x8000_0000 != 0,
                digits: (packed / 0x40 % 0x200_0000) as u64,
                digit_count: (packed / 8 % 8 + 1) as u8,
                decimal_position: (packed % 8 + 1) as u8,
            }
        },
        (KvIrEncoding::EightByte, KvIrEncodedVariable::EightByte(value)) => {
            let packed =
                #[verifier::truncate]
                (value as u64);
            let digits = packed / 0x100 % 0x40_0000_0000_0000;
            if digits > 9_999_999_999_999_999 {
                return Err(EncodedTextFault::EncodedFloatDigitsTooLarge);
            }
            FloatProperties {
                negative: packed / 0x8000_0000_0000_0000 != 0,
                digits,
                digit_count: (packed / 0x10 % 0x10 + 1) as u8,
                decimal_position: (packed % 0x10 + 1) as u8,
            }
        },
        _ => {
            return Err(EncodedTextFault::EncodedVariableWidthMismatch);
        },
    };
    if properties.decimal_position > properties.digit_count {
        return Err(EncodedTextFault::EncodedFloatDecimalPosition);
    }
    Ok(properties)
}

/// The lowest `count` digits of a number, and what is left of the number.
fn padded_digits(number: u64, count: u8) -> (result: (Vec<u8>, u64))
    ensures
        result.0@ == padded(number as nat, count as nat),
        (result.1 == 0) == (number < power_of_ten(count as nat)),
    decreases count,
{
    if count == 0 {
        let empty: Vec<u8> = Vec::new();
        assert(empty@ =~= padded(number as nat, 0));
        (empty, number)
    } else {
        let (mut text, left) = padded_digits(number / 10, count - 1);
        text.push(0x30 + (number % 10) as u8);
        (text, left)
    }
}

/// Returns how many bytes the text of a float has.
fn float_length(properties: FloatProperties) -> (length: usize)
    requires
        properties.decimal_position <= properties.digit_count,
    ensures
        length == float_text(properties).len(),
{
    proof {
        lemma_padded(properties.digits as nat, properties.digit_count as nat);
    }
    let length: usize = properties.digit_count as usize + 1;
    if properties.negative {
        length + 1
    } else {
        length
    }
}

/// Appends an encoded float.
pub fn append_float(
    output: &mut Vec<u8>,
    limits: GrowthLimits,
    encoding: KvIrEncoding,
    value: KvIrEncodedVariable,
) -> (result: Result<(), TextFailure>)
    ensures
        appended(
            limits,
            with_encoded_float(old(output)@, limits, encoding, value),
            final(output)@,
            result,
        ),
        extends(final(output)@, old(output)@),
        refused_bytes(result) matches Some(count) ==> float_asks(
            old(output)@,
            limits,
            encoding,
            value,
            count,
        ),
{
    assert(output@.take(output@.len() as int) =~= output@);
    let properties = match decode_float_properties(encoding, value) {
        Ok(properties) => properties,
        Err(fault) => {
            return Err(TextFailure::Malformed(fault));
        },
    };
    let length = float_length(properties);
    match check_growth(output.len(), limits, length, Ghost(output@)) {
        Ok(_) => {},
        Err(failure) => {
            return Err(failure);
        },
    }
    let reserved = output.try_reserve(length).is_ok();
    append_reserved_float(output, properties, reserved)
}

/// Appends the text of a float, given whether there is memory for it. Digits that the float has no
/// room for are found then.
pub fn append_reserved_float(
    output: &mut Vec<u8>,
    properties: FloatProperties,
    reserved: bool,
) -> (result: Result<(), TextFailure>)
    requires
        properties.decimal_position <= properties.digit_count,
    ensures
        extends(final(output)@, old(output)@),
        match result {
            Ok(_) => {
                &&& reserved
                &&& properties.digits < power_of_ten(properties.digit_count as nat)
                &&& final(output)@ == old(output)@ + float_text(properties)
            },
            Err(TextFailure::AllocationFailed { requested_additional }) => {
                &&& !reserved
                &&& final(output)@ == old(output)@
                &&& requested_additional == float_text(properties).len()
            },
            Err(failure) => {
                &&& reserved
                &&& final(output)@ == old(output)@
                &&& properties.digits >= power_of_ten(properties.digit_count as nat)
                &&& failure == TextFailure::Malformed(EncodedTextFault::EncodedFloatDigitCount)
            },
        },
{
    assert(output@.take(output@.len() as int) =~= output@);
    if !reserved {
        return Err(TextFailure::AllocationFailed { requested_additional: float_length(properties) });
    }
    proof {
        lemma_padded(properties.digits as nat, properties.digit_count as nat);
    }
    let (run, left) = padded_digits(properties.digits, properties.digit_count);
    if left != 0 {
        return Err(TextFailure::Malformed(EncodedTextFault::EncodedFloatDigitCount));
    }
    let whole = (properties.digit_count - properties.decimal_position) as usize;
    if properties.negative {
        output.push(MINUS);
    }
    append_slice(output, slice_subrange(run.as_slice(), 0, whole));
    output.push(DOT);
    append_slice(output, slice_subrange(run.as_slice(), whole, run.len()));
    proof {
        assert(run@.subrange(0, whole as int) =~= run@.take(whole as int));
        assert(run@.subrange(whole as int, run@.len() as int) =~= run@.skip(whole as int));
        assert(output@ =~= old(output)@ + float_text(properties));
        assert(output@.take(old(output)@.len() as int) =~= old(output)@);
    }
    Ok(())
}

/// Appends an encoded integer.
fn append_encoded_integer(
    output: &mut Vec<u8>,
    limits: GrowthLimits,
    encoding: KvIrEncoding,
    value: KvIrEncodedVariable,
) -> (result: Result<(), TextFailure>)
    ensures
        appended(
            limits,
            with_encoded_integer(old(output)@, limits, encoding, value),
            final(output)@,
            result,
        ),
        extends(final(output)@, old(output)@),
        refused_bytes(result) matches Some(count) ==> (integer_of(encoding, value) matches Some(
            number,
        ) && integer_asks(old(output)@, limits, number, count)),
{
    assert(output@.take(output@.len() as int) =~= output@);
    match (encoding, value) {
        (KvIrEncoding::FourByte, KvIrEncodedVariable::FourByte(value)) => append_integer(
            output,
            limits,
            value as i64,
        ),
        (KvIrEncoding::EightByte, KvIrEncodedVariable::EightByte(value)) => append_integer(
            output,
            limits,
            value,
        ),
        _ => Err(TextFailure::Malformed(EncodedTextFault::EncodedVariableWidthMismatch)),
    }
}

/// Extending twice is extending.
proof fn lemma_extends_twice(first: Seq<u8>, second: Seq<u8>, third: Seq<u8>)
    requires
        extends(second, first),
        extends(third, second),
    ensures
        extends(third, first),
{
    assert forall|i: int| 0 <= i < first.len() implies third[i] == first[i] by {
        assert(third.take(second.len() as int)[i] == third[i]);
        assert(second.take(first.len() as int)[i] == second[i]);
    }
    assert(third.take(first.len() as int) =~= first);
}

/// Appends the exact bytes that an encoded text stands for.
///
/// On failure the buffer keeps what it held before, followed by the part that was reconstructed.
pub fn append_text(output: &mut Vec<u8>, limits: GrowthLimits, text: KvIrEncodedText<'_>) -> (result:
    Result<(), TextFailure>)
    ensures
        appended(limits, with_text(old(output)@, limits, text@, 0, 0, 0), final(output)@, result),
        extends(final(output)@, old(output)@),
        refused_bytes(result) matches Some(count) ==> text_asks(
            old(output)@,
            limits,
            text@,
            0,
            0,
            0,
            count,
        ),
{
    let logtype = text.logtype;
    let mut at: usize = 0;
    let mut variable: usize = 0;
    let mut entry: usize = 0;
    assert(output@.take(output@.len() as int) =~= output@);
    while at < logtype.len()
        invariant
            logtype@ == text@.logtype,
            at <= logtype@.len(),
            variable <= text.encoded_variables@.len(),
            entry <= text.dictionary_variables@.len(),
            extends(output@, old(output)@),
            with_text(output@, limits, text@, at as int, variable as int, entry as int)
                == with_text(old(output)@, limits, text@, 0, 0, 0),
            forall|count: int|
                text_asks(
                    output@,
                    limits,
                    text@,
                    at as int,
                    variable as int,
                    entry as int,
                    count,
                ) ==> #[trigger] text_asks(old(output)@, limits, text@, 0, 0, 0, count),
        decreases logtype@.len() - at,
    {
        assert(logtype@.len() == logtype.len());
        let ghost before = output@;
        let byte = logtype[at];
        let result = if byte == BACKSLASH {
            if logtype.len() - at < 2 {
                return Err(TextFailure::Malformed(EncodedTextFault::TrailingEscape));
            }
            let escaped: [u8; 1] = [logtype[at + 1]];
            assert(escaped@ =~= seq![logtype@[at + 1]]);
            at += 2;
            append_bytes(output, limits, &escaped)
        } else if byte == DICTIONARY_PLACEHOLDER {
            if entry >= text.dictionary_variables.len() {
                return Err(TextFailure::Malformed(EncodedTextFault::MissingDictionaryVariable));
            }
            at += 1;
            entry += 1;
            append_bytes(output, limits, text.dictionary_variables[entry - 1].as_slice())
        } else if byte == INTEGER_PLACEHOLDER || byte == FLOAT_PLACEHOLDER {
            if variable >= text.encoded_variables.len() {
                return Err(TextFailure::Malformed(EncodedTextFault::MissingEncodedVariable));
            }
            let value = text.encoded_variables[variable];
            at += 1;
            variable += 1;
            if byte == INTEGER_PLACEHOLDER {
                append_encoded_integer(output, limits, text.encoding, value)
            } else {
                append_float(output, limits, text.encoding, value)
            }
        } else {
            let start = at;
            while at < logtype.len() && !(logtype[at] == BACKSLASH || logtype[at]
                == INTEGER_PLACEHOLDER || logtype[at] == DICTIONARY_PLACEHOLDER || logtype[at]
                == FLOAT_PLACEHOLDER)
                invariant
                    start <= at <= logtype@.len(),
                    literal_end(logtype@, at as int) == literal_end(logtype@, start as int),
                decreases logtype@.len() - at,
            {
                at += 1;
            }
            proof {
                lemma_literal_end(logtype@, start as int);
            }
            append_bytes(output, limits, slice_subrange(logtype, start, at))
        };
        proof {
            lemma_extends_twice(old(output)@, before, output@);
        }
        match result {
            Ok(_) => {},
            Err(failure) => {
                return Err(failure);
            },
        }
    }
    Ok(())
}

/// The error that a failure is reported as.
pub open spec fn text_error(failure: TextFailure, limit: usize) -> KvIrEncodedTextError {
    match failure {
        TextFailure::Malformed(fault) => match fault {
            EncodedTextFault::EncodedVariableWidthMismatch =>
                KvIrEncodedTextError::EncodedVariableWidthMismatch,
            EncodedTextFault::MissingEncodedVariable =>
                KvIrEncodedTextError::MissingEncodedVariable,
            EncodedTextFault::MissingDictionaryVariable =>
                KvIrEncodedTextError::MissingDictionaryVariable,
            EncodedTextFault::TrailingEscape => KvIrEncodedTextError::TrailingEscape,
            EncodedTextFault::EncodedFloatDecimalPosition =>
                KvIrEncodedTextError::EncodedFloatDecimalPosition,
            EncodedTextFault::EncodedFloatDigitsTooLarge =>
                KvIrEncodedTextError::EncodedFloatDigitsTooLarge,
            EncodedTextFault::EncodedFloatDigitCount =>
                KvIrEncodedTextError::EncodedFloatDigitCount,
        },
        TextFailure::ValueLimit { actual } => KvIrEncodedTextError::Limit { actual, limit },
        TextFailure::BufferLimit { .. } => KvIrEncodedTextError::SizeOverflow,
        TextFailure::AllocationFailed { requested_additional } =>
            KvIrEncodedTextError::AllocationFailed { requested_additional },
        TextFailure::SizeOverflow => KvIrEncodedTextError::SizeOverflow,
    }
}

fn report_text_failure(failure: TextFailure, limit: usize) -> (error: KvIrEncodedTextError)
    ensures
        error == text_error(failure, limit),
{
    match failure {
        TextFailure::Malformed(fault) => match fault {
            EncodedTextFault::EncodedVariableWidthMismatch =>
                KvIrEncodedTextError::EncodedVariableWidthMismatch,
            EncodedTextFault::MissingEncodedVariable =>
                KvIrEncodedTextError::MissingEncodedVariable,
            EncodedTextFault::MissingDictionaryVariable =>
                KvIrEncodedTextError::MissingDictionaryVariable,
            EncodedTextFault::TrailingEscape => KvIrEncodedTextError::TrailingEscape,
            EncodedTextFault::EncodedFloatDecimalPosition =>
                KvIrEncodedTextError::EncodedFloatDecimalPosition,
            EncodedTextFault::EncodedFloatDigitsTooLarge =>
                KvIrEncodedTextError::EncodedFloatDigitsTooLarge,
            EncodedTextFault::EncodedFloatDigitCount =>
                KvIrEncodedTextError::EncodedFloatDigitCount,
        },
        TextFailure::ValueLimit { actual } => KvIrEncodedTextError::Limit { actual, limit },
        TextFailure::BufferLimit { .. } => KvIrEncodedTextError::SizeOverflow,
        TextFailure::AllocationFailed { requested_additional } =>
            KvIrEncodedTextError::AllocationFailed { requested_additional },
        TextFailure::SizeOverflow => KvIrEncodedTextError::SizeOverflow,
    }
}

/// Limits of a text that starts at the end of `output` and may take `max_decoded_bytes`.
pub open spec fn text_limits(output: Seq<u8>, max_decoded_bytes: usize) -> GrowthLimits {
    GrowthLimits {
        value_start: output.len() as usize,
        value_bytes: max_decoded_bytes as u64,
        buffer_bytes: u64::MAX,
    }
}

impl<'a> KvIrEncodedText<'a> {
    /// Appends the exact decoded bytes and returns where they lie. On failure the output is what it
    /// was before.
    pub fn append_decoded_to(self, output: &mut Vec<u8>, max_decoded_bytes: usize) -> (result:
        Result<core::ops::Range<usize>, KvIrEncodedTextError>)
        ensures
            ({
                let limits = text_limits(old(output)@, max_decoded_bytes);
                let expected = with_text(old(output)@, limits, self@, 0, 0, 0);
                match result {
                    Ok(range) => {
                        &&& expected == Ok::<Seq<u8>, TextFailure>(final(output)@)
                        &&& range.start == old(output)@.len()
                        &&& range.end == final(output)@.len()
                    },
                    Err(error) => {
                        &&& final(output)@ == old(output)@
                        &&& (error matches KvIrEncodedTextError::AllocationFailed {
                            requested_additional,
                        } && text_asks(
                            old(output)@,
                            limits,
                            self@,
                            0,
                            0,
                            0,
                            requested_additional as int,
                        )) || (expected matches Err(failure) && error == text_error(
                            failure,
                            max_decoded_bytes,
                        ))
                    },
                }
            }),
    {
        let start = output.len();
        let limits = GrowthLimits {
            value_start: start,
            value_bytes: max_decoded_bytes as u64,
            buffer_bytes: u64::MAX,
        };
        match append_text(output, limits, self) {
            Ok(_) => Ok(start..output.len()),
            Err(failure) => {
                output.truncate(start);
                assert(output@ =~= old(output)@);
                Err(report_text_failure(failure, max_decoded_bytes))
            },
        }
    }
}

} // verus!
