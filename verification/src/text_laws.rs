//! What the encoding and the reconstruction of texts promise together.

use vstd::prelude::*;

use crate::clp_text::{
    dictionary_entries, dictionary_tags, encoded_text, escaped, float_digits, float_fits,
    float_variable, has_marker, integer_variable, is_float_spelling, lemma_next_variable,
    logtype_of, logtype_tags, max_float_digits, next_variable_at, packed_float, packed_variables,
    placeholder, sign_end, spelled_float, text_packet, text_tag, variable_of, variable_packets,
    variables_of, with_clp_text, with_constant, with_escaped_bytes, with_message_from, TextVariable,
};
use crate::decimal::{
    decimal, digits, lemma_digits_of_value, lemma_padded_of_value, lemma_power_of_ten_grows,
    lemma_ten_to_sixteen, padded, power_of_ten,
};
use crate::kv_ir::{KvIrEncodedVariable, KvIrEncoding};
use crate::kv_ir_text::{
    float_properties, float_text, integer_of, is_logtype_marker, lemma_literal_end, literal_end,
    with_integer, with_text, EncodedTextView, FloatProperties, GrowthLimits, TextFailure,
};
use crate::stage::{lemma_string_packet, lemma_variable_packet, string_packet, variable_packet};
use crate::text::{byte_at, is_digit, BACKSLASH, MINUS};

verus! {

/// An integer token that was packed is the decimal spelling of what it was packed into.
pub proof fn integer_tokens_survive(token: Seq<u8>, encoding: KvIrEncoding)
    ensures
        integer_variable(token, encoding) matches Some(value) ==> {
            &&& integer_of(encoding, value) matches Some(number)
            &&& decimal(integer_of(encoding, value)->0) == token
        },
{
    if integer_variable(token, encoding) is Some {
        if byte_at(token, 0, MINUS) {
            let run = token.skip(1);
            assert forall|i: int| 0 <= i < run.len() implies is_digit(#[trigger] run[i]) by {
                assert(is_digit(token[i + 1]));
            }
            lemma_digits_of_value(run);
            assert(seq![MINUS] + run =~= token);
        } else {
            lemma_digits_of_value(token);
        }
    }
}

/// The fields of a number written in mixed radix.
proof fn lemma_fields(sign: int, value: int, count: int, position: int, radix: int, top: int)
    requires
        0 <= sign <= 1,
        0 <= count < radix,
        0 <= position < radix,
        0 <= value < top,
        radix == 8 || radix == 0x10,
        top == 0x200_0000 || top == 0x80_0000_0000_0000,
    ensures
        ({
            let packed = sign * (top * radix * radix) + value * (radix * radix) + count * radix
                + position;
            &&& packed % radix == position
            &&& packed / radix % radix == count
            &&& packed / (radix * radix) == sign * top + value
            &&& packed / (top * radix * radix) == sign
        }),
{
    let square = radix * radix;
    let upper = sign * top + value;
    let packed = upper * square + count * radix + position;
    assert(packed == sign * (top * radix * radix) + value * (radix * radix) + count * radix
        + position) by (nonlinear_arith)
        requires
            packed == upper * square + count * radix + position,
            upper == sign * top + value,
            square == radix * radix,
    ;
    let middle = upper * radix + count;
    assert(packed == middle * radix + position) by (nonlinear_arith)
        requires
            packed == upper * square + count * radix + position,
            middle == upper * radix + count,
            square == radix * radix,
    ;
    vstd::arithmetic::div_mod::lemma_fundamental_div_mod_converse(packed, radix, middle, position);
    vstd::arithmetic::div_mod::lemma_fundamental_div_mod_converse(middle, radix, upper, count);
    let low = count * radix + position;
    assert(0 <= low < square) by (nonlinear_arith)
        requires
            low == count * radix + position,
            0 <= count < radix,
            0 <= position < radix,
            square == radix * radix,
    ;
    vstd::arithmetic::div_mod::lemma_fundamental_div_mod_converse(packed, square, upper, low);
    let all = top * radix * radix;
    let under = value * square + low;
    assert(packed == sign * all + under && 0 <= under < all) by (nonlinear_arith)
        requires
            packed == upper * square + low,
            upper == sign * top + value,
            square == radix * radix,
            all == top * radix * radix,
            under == value * square + low,
            0 <= low < square,
            0 <= value < top,
    ;
    vstd::arithmetic::div_mod::lemma_fundamental_div_mod_converse(packed, all, sign, under);
}

/// Packing and unpacking a float keeps its properties.
proof fn lemma_packed_float(properties: FloatProperties, encoding: KvIrEncoding)
    requires
        1 <= properties.decimal_position <= properties.digit_count <= max_float_digits(encoding),
        encoding is FourByte ==> properties.digits < 0x200_0000,
        encoding is EightByte ==> properties.digits <= 9_999_999_999_999_999,
    ensures
        float_properties(encoding, packed_float(properties, encoding)) == Ok::<
            FloatProperties,
            crate::kv_ir_text::EncodedTextFault,
        >(properties),
{
    let sign = if properties.negative {
        1
    } else {
        0int
    };
    match encoding {
        KvIrEncoding::FourByte => {
            let packed = (sign * 0x8000_0000 + properties.digits * 0x40 + (properties.digit_count
                - 1) * 8 + (properties.decimal_position - 1)) as u32;
            assert((packed as i32) as u32 == packed) by (bit_vector);
            lemma_fields(
                sign,
                properties.digits as int,
                properties.digit_count - 1,
                properties.decimal_position - 1,
                8,
                0x200_0000,
            );
            vstd::arithmetic::div_mod::lemma_fundamental_div_mod_converse(
                sign * 0x200_0000 + properties.digits,
                0x200_0000,
                sign,
                properties.digits as int,
            );
            assert(packed == sign * 0x8000_0000 + properties.digits * 0x40 + (
            properties.digit_count - 1) * 8 + (properties.decimal_position - 1));
        },
        KvIrEncoding::EightByte => {
            let packed = (sign * 0x8000_0000_0000_0000 + properties.digits * 0x100 + (
            properties.digit_count - 1) * 0x10 + (properties.decimal_position - 1)) as u64;
            assert((packed as i64) as u64 == packed) by (bit_vector);
            lemma_fields(
                sign,
                properties.digits as int,
                properties.digit_count - 1,
                properties.decimal_position - 1,
                0x10,
                0x80_0000_0000_0000,
            );
            assert((sign * 0x80_0000_0000_0000 + properties.digits) % 0x40_0000_0000_0000
                == properties.digits) by {
                vstd::arithmetic::div_mod::lemma_fundamental_div_mod_converse(
                    sign * 0x80_0000_0000_0000 + properties.digits,
                    0x40_0000_0000_0000,
                    sign * 2,
                    properties.digits as int,
                );
            }
            assert(packed == sign * 0x8000_0000_0000_0000 + properties.digits * 0x100 + (
            properties.digit_count - 1) * 0x10 + (properties.decimal_position - 1));
        },
    }
}

/// Sign, digits, and point of a float spelling make up the token.
proof fn lemma_float_spelling(token: Seq<u8>, start: int, dot: int)
    requires
        start == sign_end(token),
        is_float_spelling(token, start, dot),
        dot + 1 < token.len() < 0x80,
        ({
            let run = float_digits(token, start, dot);
            padded(spelled_float(token, start, dot).digits as nat, run.len()) == run
        }),
    ensures
        float_text(spelled_float(token, start, dot)) == token,
{
    let properties = spelled_float(token, start, dot);
    let run = float_digits(token, start, dot);
    assert(run.len() == properties.digit_count);
    let whole = properties.digit_count - properties.decimal_position;
    assert(whole == dot - start);
    assert(run.take(whole) =~= token.subrange(start, dot));
    assert(run.skip(whole) =~= token.skip(dot + 1));
    assert(float_text(properties) =~= token);
}

/// A float token that was packed is the spelling of what it was packed into.
pub proof fn float_tokens_survive(token: Seq<u8>, encoding: KvIrEncoding)
    ensures
        float_variable(token, encoding) matches Some(value) ==> {
            &&& float_properties(encoding, value) matches Ok(properties)
            &&& float_text(float_properties(encoding, value)->Ok_0) == token
            &&& float_properties(encoding, value)->Ok_0.digits < power_of_ten(
                float_properties(encoding, value)->Ok_0.digit_count as nat,
            )
        },
{
    let start = sign_end(token);
    if exists|dot: int| float_fits(token, start, dot, encoding) {
        let dot = choose|dot: int| float_fits(token, start, dot, encoding);
        let run = float_digits(token, start, dot);
        assert forall|i: int| 0 <= i < run.len() implies is_digit(#[trigger] run[i]) by {
            if i < dot - start {
                assert(run[i] == token[start + i]);
            } else {
                assert(run[i] == token[start + i + 1]);
            }
        }
        lemma_padded_of_value(run);
        lemma_power_of_ten_grows(run.len(), 16);
        lemma_ten_to_sixteen();
        let properties = spelled_float(token, start, dot);
        lemma_packed_float(properties, encoding);
        lemma_float_spelling(token, start, dot);
    }
}

/// Whether a buffer may hold `length` bytes.
pub open spec fn fits(limits: GrowthLimits, length: int) -> bool {
    &&& limits.value_start <= length <= usize::MAX
    &&& length - limits.value_start <= limits.value_bytes
    &&& length <= limits.buffer_bytes
}

/// An ordinary logtype byte stands for itself.
proof fn lemma_literal_step(
    output: Seq<u8>,
    limits: GrowthLimits,
    text: EncodedTextView,
    at: int,
    variable: int,
    entry: int,
)
    requires
        0 <= at < text.logtype.len(),
        !is_logtype_marker(text.logtype[at]),
        limits.value_start <= output.len(),
        fits(limits, output.len() + (literal_end(text.logtype, at) - at)),
    ensures
        with_text(output, limits, text, at, variable, entry) == with_text(
            output.push(text.logtype[at]),
            limits,
            text,
            at + 1,
            variable,
            entry,
        ),
{
    let logtype = text.logtype;
    let end = literal_end(logtype, at);
    lemma_literal_end(logtype, at);
    lemma_literal_end(logtype, at + 1);
    let next = output.push(logtype[at]);
    assert(with_text(output, limits, text, at, variable, entry) == with_text(
        output + logtype.subrange(at, end),
        limits,
        text,
        end,
        variable,
        entry,
    ));
    if at + 1 < logtype.len() && !is_logtype_marker(logtype[at + 1]) {
        assert(next + logtype.subrange(at + 1, end) =~= output + logtype.subrange(at, end));
    } else {
        assert(end == at + 1);
        assert(next =~= output + logtype.subrange(at, end));
    }
}

/// The run of ordinary bytes at the start of an escaped constant is no longer than the constant.
proof fn lemma_run_length(logtype: Seq<u8>, at: int, constant: Seq<u8>)
    requires
        0 <= at,
        at + escaped(constant).len() <= logtype.len(),
        logtype.subrange(at, at + escaped(constant).len()) == escaped(constant),
        at + escaped(constant).len() == logtype.len() || is_logtype_marker(
            logtype[at + escaped(constant).len()],
        ),
    ensures
        literal_end(logtype, at) - at <= constant.len(),
    decreases constant.len(),
{
    if constant.len() > 0 {
        let whole = escaped(constant);
        assert(logtype[at] == whole[0]) by {
            assert(logtype.subrange(at, at + whole.len())[0] == logtype[at]);
        }
        if !is_logtype_marker(constant[0]) {
            let rest = escaped(constant.drop_first());
            assert(whole.len() == rest.len() + 1);
            assert(logtype.subrange(at + 1, at + 1 + rest.len()) =~= rest) by {
                assert forall|i: int| 0 <= i < rest.len() implies logtype[at + 1 + i]
                    == rest[i] by {
                    assert(whole[i + 1] == rest[i]);
                    assert(logtype.subrange(at, at + whole.len())[i + 1] == logtype[at + i + 1]);
                }
            }
            lemma_run_length(logtype, at + 1, constant.drop_first());
        }
    }
}

/// An escaped constant is reconstructed as the constant.
proof fn lemma_constant_survives(
    output: Seq<u8>,
    limits: GrowthLimits,
    text: EncodedTextView,
    at: int,
    variable: int,
    entry: int,
    constant: Seq<u8>,
)
    requires
        0 <= at,
        at + escaped(constant).len() <= text.logtype.len(),
        text.logtype.subrange(at, at + escaped(constant).len()) == escaped(constant),
        at + escaped(constant).len() == text.logtype.len() || is_logtype_marker(
            text.logtype[at + escaped(constant).len()],
        ),
        limits.value_start <= output.len(),
        fits(limits, (output.len() + constant.len()) as int),
    ensures
        with_text(output, limits, text, at, variable, entry) == with_text(
            output + constant,
            limits,
            text,
            at + escaped(constant).len(),
            variable,
            entry,
        ),
    decreases constant.len(),
{
    if constant.len() == 0 {
        assert(output + constant =~= output);
    } else {
        let logtype = text.logtype;
        let whole = escaped(constant);
        let head = if is_logtype_marker(constant[0]) {
            2int
        } else {
            1
        };
        let rest = escaped(constant.drop_first());
        assert(whole.len() == rest.len() + head);
        assert forall|i: int| 0 <= i < whole.len() implies logtype[at + i] == whole[i] by {
            assert(logtype.subrange(at, at + whole.len())[i] == logtype[at + i]);
        }
        assert(logtype.subrange(at + head, at + head + rest.len()) =~= rest) by {
            assert forall|i: int| 0 <= i < rest.len() implies logtype[at + head + i] == rest[i] by {
                assert(whole[i + head] == rest[i]);
                assert(logtype[at + (i + head)] == whole[i + head]);
            }
        }
        let next = output.push(constant[0]);
        if is_logtype_marker(constant[0]) {
            assert(whole[0] == BACKSLASH);
            assert(whole[1] == constant[0]);
            assert(logtype[at + 0] == whole[0]);
            assert(logtype[at + 1] == whole[1]);
            assert(next =~= output + seq![logtype[at + 1]]);
        } else {
            assert(whole[0] == constant[0]);
            assert(logtype[at + 0] == whole[0]);
            lemma_run_length(logtype, at, constant);
            lemma_literal_end(logtype, at);
            lemma_literal_step(output, limits, text, at, variable, entry);
        }
        lemma_constant_survives(
            next,
            limits,
            text,
            at + head,
            variable,
            entry,
            constant.drop_first(),
        );
        assert(next + constant.drop_first() =~= output + constant);
    }
}

/// Variables that a kept variable takes from the packed ones and from the dictionary.
spec fn taken(kept: TextVariable) -> (int, int) {
    match kept {
        TextVariable::Dictionary(_) => (0, 1),
        _ => (1, 0),
    }
}

/// A placeholder is reconstructed as the token that was kept.
proof fn lemma_variable_survives(
    output: Seq<u8>,
    limits: GrowthLimits,
    text: EncodedTextView,
    at: int,
    variable: int,
    entry: int,
    token: Seq<u8>,
    others: Seq<TextVariable>,
)
    requires
        0 <= at < text.logtype.len(),
        0 <= variable <= text.variables.len(),
        0 <= entry <= text.dictionary.len(),
        text.logtype[at] == placeholder(variable_of(token, text.encoding)),
        text.variables.skip(variable) == packed_variables(
            seq![variable_of(token, text.encoding)] + others,
        ),
        text.dictionary.skip(entry) == dictionary_entries(
            seq![variable_of(token, text.encoding)] + others,
        ),
        limits.value_start <= output.len(),
        fits(limits, (output.len() + token.len()) as int),
    ensures
        ({
            let (packed, entries) = taken(variable_of(token, text.encoding));
            &&& with_text(output, limits, text, at, variable, entry) == with_text(
                output + token,
                limits,
                text,
                at + 1,
                variable + packed,
                entry + entries,
            )
            &&& variable + packed <= text.variables.len()
            &&& entry + entries <= text.dictionary.len()
            &&& text.variables.skip(variable + packed) == packed_variables(others)
            &&& text.dictionary.skip(entry + entries) == dictionary_entries(others)
        }),
{
    let kept = variable_of(token, text.encoding);
    let all = seq![kept] + others;
    assert(all.drop_first() =~= others);
    assert(all[0] == kept);
    match kept {
        TextVariable::Dictionary(_) => {
            lemma_first_entry(text, entry, token, others);
        },
        TextVariable::Float(value) => {
            float_tokens_survive(token, text.encoding);
            lemma_first_variable(text, variable, value, others);
        },
        TextVariable::Integer(value) => {
            integer_tokens_survive(token, text.encoding);
            lemma_first_variable(text, variable, value, others);
            lemma_integer_appended(output, limits, integer_of(text.encoding, value)->0);
        },
    }
}

/// The three parts of a logtype that starts at `at`.
proof fn lemma_logtype_parts(
    logtype: Seq<u8>,
    at: int,
    constant: Seq<u8>,
    mark: u8,
    next: Seq<u8>,
)
    requires
        0 <= at <= logtype.len(),
        logtype.skip(at) == escaped(constant) + seq![mark] + next,
    ensures
        at + escaped(constant).len() < logtype.len(),
        logtype.subrange(at, at + escaped(constant).len()) == escaped(constant),
        logtype[at + escaped(constant).len()] == mark,
        logtype.skip(at + escaped(constant).len() + 1) == next,
{
    let parts = escaped(constant) + seq![mark] + next;
    let length = escaped(constant).len();
    assert(logtype.skip(at).len() == length + 1 + next.len());
    assert forall|i: int| 0 <= i < parts.len() implies logtype[at + i] == parts[i] by {
        assert(logtype.skip(at)[i] == logtype[at + i]);
    }
    assert(logtype.subrange(at, at + length) =~= escaped(constant)) by {
        assert forall|i: int| 0 <= i < length implies logtype[at + i] == escaped(constant)[i] by {
            assert(parts[i] == escaped(constant)[i]);
        }
    }
    assert(parts[length as int] == mark);
    assert(logtype.skip(at + length + 1) =~= next) by {
        assert forall|i: int| 0 <= i < next.len() implies logtype[at + length + 1 + i]
            == next[i] by {
            assert(parts[length + 1 + i] == next[i]);
            assert(logtype[at + (length + 1 + i)] == parts[length + 1 + i]);
        }
    }
}

/// The rest of a message survives, wherever in its encoded text the reconstruction stands.
proof fn lemma_message_survives(
    output: Seq<u8>,
    limits: GrowthLimits,
    message: Seq<u8>,
    text: EncodedTextView,
    from: int,
    at: int,
    variable: int,
    entry: int,
)
    requires
        0 <= from <= message.len(),
        0 <= at <= text.logtype.len(),
        0 <= variable <= text.variables.len(),
        0 <= entry <= text.dictionary.len(),
        text.logtype.skip(at) == logtype_of(message, text.encoding, from),
        text.variables.skip(variable) == packed_variables(
            variables_of(message, text.encoding, from),
        ),
        text.dictionary.skip(entry) == dictionary_entries(
            variables_of(message, text.encoding, from),
        ),
        limits.value_start <= output.len(),
        fits(limits, output.len() + (message.len() - from)),
    ensures
        with_text(output, limits, text, at, variable, entry) == Ok::<Seq<u8>, TextFailure>(
            output + message.skip(from),
        ),
    decreases message.len() - from,
{
    let encoding = text.encoding;
    let logtype = text.logtype;
    lemma_next_variable(message, from);
    match next_variable_at(message, from) {
        None => {
            let constant = message.skip(from);
            assert(logtype.skip(at).len() == logtype.len() - at);
            assert(logtype.subrange(at, at + escaped(constant).len()) =~= logtype.skip(at));
            lemma_constant_survives(output, limits, text, at, variable, entry, constant);
        },
        Some((begin, end)) => {
            let constant = message.subrange(from, begin);
            let token = message.subrange(begin, end);
            let kept = variable_of(token, encoding);
            let mark = at + escaped(constant).len();
            lemma_logtype_parts(
                logtype,
                at,
                constant,
                placeholder(kept),
                logtype_of(message, encoding, end),
            );
            lemma_constant_survives(output, limits, text, at, variable, entry, constant);
            let before = output + constant;
            lemma_variable_survives(
                before,
                limits,
                text,
                mark,
                variable,
                entry,
                token,
                variables_of(message, encoding, end),
            );
            let (packed, entries) = taken(kept);
            lemma_message_survives(
                before + token,
                limits,
                message,
                text,
                end,
                mark + 1,
                variable + packed,
                entry + entries,
            );
            assert(before + token + message.skip(end) =~= output + message.skip(from));
        },
    }
}

proof fn lemma_first_variable(
    text: EncodedTextView,
    variable: int,
    value: KvIrEncodedVariable,
    others: Seq<TextVariable>,
)
    requires
        0 <= variable <= text.variables.len(),
        text.variables.skip(variable) == seq![value] + packed_variables(others),
    ensures
        variable < text.variables.len(),
        text.variables[variable] == value,
        text.variables.skip(variable + 1) == packed_variables(others),
{
    assert(text.variables.skip(variable).len() == 1 + packed_variables(others).len());
    assert(text.variables.skip(variable)[0] == value);
    assert(text.variables.skip(variable + 1) =~= packed_variables(others)) by {
        assert forall|i: int| 0 <= i < packed_variables(others).len() implies text.variables[variable
            + 1 + i] == packed_variables(others)[i] by {
            assert(text.variables.skip(variable)[i + 1] == text.variables[variable + 1 + i]);
        }
    }
}

proof fn lemma_first_entry(
    text: EncodedTextView,
    entry: int,
    token: Seq<u8>,
    others: Seq<TextVariable>,
)
    requires
        0 <= entry <= text.dictionary.len(),
        text.dictionary.skip(entry) == seq![token] + dictionary_entries(others),
    ensures
        entry < text.dictionary.len(),
        text.dictionary[entry] == token,
        text.dictionary.skip(entry + 1) == dictionary_entries(others),
{
    assert(text.dictionary.skip(entry).len() == 1 + dictionary_entries(others).len());
    assert(text.dictionary.skip(entry)[0] == token);
    assert(text.dictionary.skip(entry + 1) =~= dictionary_entries(others)) by {
        assert forall|i: int| 0 <= i < dictionary_entries(others).len() implies text.dictionary[entry
            + 1 + i] == dictionary_entries(others)[i] by {
            assert(text.dictionary.skip(entry)[i + 1] == text.dictionary[entry + 1 + i]);
        }
    }
}

proof fn lemma_integer_appended(output: Seq<u8>, limits: GrowthLimits, value: int)
    requires
        limits.value_start <= output.len(),
        fits(limits, (output.len() + decimal(value).len()) as int),
    ensures
        with_integer(output, limits, value) == Ok::<Seq<u8>, TextFailure>(output + decimal(value)),
{
    if value < 0 {
        assert(output + seq![MINUS] + digits((-value) as nat) =~= output + decimal(value));
    }
}

/// Reconstructing the encoded text of a message gives back the message, byte for byte, wherever
/// the limits have room for it.
pub proof fn messages_survive(
    output: Seq<u8>,
    limits: GrowthLimits,
    message: Seq<u8>,
    encoding: KvIrEncoding,
)
    requires
        limits.value_start <= output.len(),
        fits(limits, (output.len() + message.len()) as int),
    ensures
        with_text(output, limits, encoded_text(message, encoding), 0, 0, 0) == Ok::<
            Seq<u8>,
            TextFailure,
        >(output + message),
{
    let text = encoded_text(message, encoding);
    assert(text.logtype.skip(0) =~= text.logtype);
    assert(text.variables.skip(0) =~= text.variables);
    assert(text.dictionary.skip(0) =~= text.dictionary);
    lemma_message_survives(output, limits, message, text, 0, 0, 0, 0);
    assert(message.skip(0) =~= message);
}

/// Escaping byte by byte appends the escaped constant.
proof fn lemma_escaped_bytes(logtype: Seq<u8>, constant: Seq<u8>, at: int, limit: u64)
    requires
        0 <= at <= constant.len(),
    ensures
        with_escaped_bytes(logtype, constant, at, limit) matches Ok(after) ==> after == logtype
            + escaped(constant.skip(at)),
    decreases constant.len() - at,
{
    let rest = constant.skip(at);
    if at < constant.len() {
        assert(rest.drop_first() =~= constant.skip(at + 1));
        assert(rest[0] == constant[at]);
        let marked = if is_logtype_marker(constant[at]) {
            logtype + seq![BACKSLASH] + seq![constant[at]]
        } else {
            logtype + seq![constant[at]]
        };
        lemma_escaped_bytes(marked, constant, at + 1, limit);
        assert(marked + escaped(constant.skip(at + 1)) =~= logtype + escaped(rest));
    } else {
        assert(logtype + escaped(rest) =~= logtype);
    }
}

/// A constant without markers is its own escaped form.
proof fn lemma_escaped_plain(constant: Seq<u8>)
    requires
        !has_marker(constant),
    ensures
        escaped(constant) == constant,
    decreases constant.len(),
{
    if constant.len() > 0 {
        let rest = constant.drop_first();
        assert(!is_logtype_marker(constant[0]));
        assert forall|i: int| 0 <= i < rest.len() implies !is_logtype_marker(
            #[trigger] rest[i],
        ) by {
            assert(!is_logtype_marker(constant[i + 1]));
        }
        lemma_escaped_plain(rest);
    }
    assert(escaped(constant) =~= constant);
}

proof fn lemma_constant_appended(logtype: Seq<u8>, constant: Seq<u8>, limit: u64)
    ensures
        with_constant(logtype, constant, limit) matches Ok(after) ==> after == logtype + escaped(
            constant,
        ),
{
    if has_marker(constant) {
        lemma_escaped_bytes(logtype, constant, 0, limit);
        assert(constant.skip(0) =~= constant);
    } else {
        lemma_escaped_plain(constant);
    }
}

/// Whether every entry has a length that a packet can name.
pub open spec fn are_nameable(variables: Seq<TextVariable>) -> bool {
    forall|i: int|
        0 <= i < variables.len() ==> (#[trigger] variables[i] matches TextVariable::Dictionary(
            entry,
        ) ==> entry.len() <= 0xffff_ffff)
}

proof fn lemma_message_packets(
    message: Seq<u8>,
    encoding: KvIrEncoding,
    limit: u64,
    at: int,
    output: Seq<u8>,
    logtype: Seq<u8>,
)
    requires
        0 <= at <= message.len(),
    ensures
        with_message_from(message, encoding, limit, at, output, logtype) matches Ok((
            variables,
            last,
        )) ==> variables == output + variable_packets(variables_of(message, encoding, at)) && last
            == logtype + logtype_of(message, encoding, at) && are_nameable(
            variables_of(message, encoding, at),
        ),
    decreases message.len() - at,
{
    lemma_next_variable(message, at);
    match next_variable_at(message, at) {
        None => {
            lemma_constant_appended(logtype, message.skip(at), limit);
            assert(output + Seq::<u8>::empty() =~= output);
        },
        Some((begin, end)) => {
            let constant = message.subrange(at, begin);
            let kept = variable_of(message.subrange(begin, end), encoding);
            lemma_constant_appended(logtype, constant, limit);
            match kept {
                TextVariable::Float(value) => lemma_variable_packet(output, value, limit),
                TextVariable::Integer(value) => lemma_variable_packet(output, value, limit),
                TextVariable::Dictionary(entry) => lemma_string_packet(
                    output,
                    entry,
                    dictionary_tags(),
                    limit,
                ),
            }
            let all = variables_of(message, encoding, at);
            let others = variables_of(message, encoding, end);
            assert(all.drop_first() =~= others);
            assert(all[0] == kept);
            assert forall|i: int| 0 < i < all.len() implies #[trigger] all[i] == others[i - 1] by {
            }
            let first = match kept {
                TextVariable::Float(value) => variable_packet(value),
                TextVariable::Integer(value) => variable_packet(value),
                TextVariable::Dictionary(entry) => string_packet(entry, dictionary_tags()),
            };
            let marked = logtype + escaped(constant) + seq![placeholder(kept)];
            lemma_message_packets(message, encoding, limit, end, output + first, marked);
            assert(output + first + variable_packets(others) =~= output + variable_packets(all));
            assert(marked + logtype_of(message, encoding, end) =~= logtype + logtype_of(
                message,
                encoding,
                at,
            ));
        },
    }
}

/// A text that was staged is, behind what the output held, the packet of its encoded text.
pub proof fn texts_are_staged_whole(
    output: Seq<u8>,
    message: Seq<u8>,
    encoding: KvIrEncoding,
    limit: u64,
)
    ensures
        with_clp_text(output, message, encoding, limit) matches Ok(after) ==> after == output
            + text_packet(message, encoding) && are_nameable(variables_of(message, encoding, 0))
            && logtype_of(message, encoding, 0).len() <= 0xffff_ffff,
{
    let tagged = output + seq![text_tag(encoding)];
    lemma_message_packets(message, encoding, limit, 0, tagged, Seq::empty());
    match with_message_from(message, encoding, limit, 0, tagged, Seq::empty()) {
        Ok((variables, logtype)) => {
            assert(logtype =~= logtype_of(message, encoding, 0));
            lemma_string_packet(variables, logtype, logtype_tags(), limit);
            assert(tagged + variable_packets(variables_of(message, encoding, 0)) + string_packet(
                logtype,
                logtype_tags(),
            ) =~= output + text_packet(message, encoding));
        },
        Err(_) => {},
    }
}

} // verus!
