//! Bounded staging of protocol packets.

use vstd::prelude::*;

use crate::decimal::{decimal, format_i64};
use crate::kv_ir::KvIrEncodedVariable;
use crate::serializer_options::{
    allocation, limit_error, serializer_limit, was_refused, KvIrSerializerError,
    KvIrSerializerLimitResource,
};
use crate::text::append_slice;

verus! {

/// Big-endian bytes of a 16-bit number.
pub open spec fn be16_bytes(value: int) -> Seq<u8> {
    seq![(value / 0x100) as u8, (value % 0x100) as u8]
}

/// Big-endian bytes of a 32-bit number.
pub open spec fn be32_bytes(value: int) -> Seq<u8> {
    be16_bytes(value / 0x1_0000) + be16_bytes(value % 0x1_0000)
}

/// Big-endian bytes of a 64-bit number.
pub open spec fn be64_bytes(value: int) -> Seq<u8> {
    be32_bytes(value / 0x1_0000_0000) + be32_bytes(value % 0x1_0000_0000)
}

/// Bytes of a 16-bit number, most significant first.
pub fn be16_array(value: u16) -> (bytes: [u8; 2])
    ensures
        bytes@ == be16_bytes(value as int),
{
    let bytes: [u8; 2] = [(value / 0x100) as u8, (value % 0x100) as u8];
    assert(bytes@ =~= be16_bytes(value as int));
    bytes
}

/// Bytes of a 32-bit number, most significant first.
pub fn be32_array(value: u32) -> (bytes: [u8; 4])
    ensures
        bytes@ == be32_bytes(value as int),
{
    let high = be16_array((value / 0x1_0000) as u16);
    let low = be16_array((value % 0x1_0000) as u16);
    let bytes: [u8; 4] = [high[0], high[1], low[0], low[1]];
    assert(bytes@ =~= high@ + low@);
    bytes
}

/// Bytes of a 64-bit number, most significant first.
pub fn be64_array(value: u64) -> (bytes: [u8; 8])
    ensures
        bytes@ == be64_bytes(value as int),
{
    let high = be32_array((value / 0x1_0000_0000) as u32);
    let low = be32_array((value % 0x1_0000_0000) as u32);
    let bytes: [u8; 8] = [
        high[0],
        high[1],
        high[2],
        high[3],
        low[0],
        low[1],
        low[2],
        low[3],
    ];
    assert(bytes@ =~= high@ + low@);
    bytes
}

/// The buffer with `bytes` appended, where the limit allows it.
pub open spec fn extended(
    output: Seq<u8>,
    bytes: Seq<u8>,
    limit: u64,
    resource: KvIrSerializerLimitResource,
) -> Result<Seq<u8>, KvIrSerializerError> {
    let length = output.len() + bytes.len();
    if length > usize::MAX {
        Err(KvIrSerializerError::SizeOverflow)
    } else if length > limit {
        Err(serializer_limit(resource, length as int, limit))
    } else {
        Ok(output + bytes)
    }
}

/// Appends `bytes` of an event to what the step before came to.
pub open spec fn and_event_bytes(
    before: Result<Seq<u8>, KvIrSerializerError>,
    bytes: Seq<u8>,
    limit: u64,
) -> Result<Seq<u8>, KvIrSerializerError> {
    match before {
        Ok(output) => event_bytes(output, bytes, limit),
        Err(error) => Err(error),
    }
}

/// The buffer with bytes of an event appended.
pub open spec fn event_bytes(output: Seq<u8>, bytes: Seq<u8>, limit: u64) -> Result<
    Seq<u8>,
    KvIrSerializerError,
> {
    extended(output, bytes, limit, KvIrSerializerLimitResource::EventOutputBytes)
}

/// The buffer with bytes of a scalar appended.
pub open spec fn scalar_bytes(output: Seq<u8>, bytes: Seq<u8>, limit: u64) -> Result<
    Seq<u8>,
    KvIrSerializerError,
> {
    extended(output, bytes, limit, KvIrSerializerLimitResource::ScalarBytes)
}

/// Names under which memory for packets, and for the texts in them, is asked for.
pub open spec fn is_packet_resource(name: Seq<char>) -> bool {
    ||| name == "event schema staging"@
    ||| name == "event value staging"@
    ||| name == "event output"@
    ||| name == "node ID staging"@
    ||| name == "string staging"@
    ||| name == "CLP value staging"@
    ||| name == "CLP logtype"@
    ||| name == "array JSON"@
    ||| name == "array JSON or CLP logtype"@
}

/// Whether memory for a packet or a text was refused, no more than the limit allows.
pub open spec fn is_packet_refused(error: KvIrSerializerError, limit: u64) -> bool {
    error matches KvIrSerializerError::AllocationFailed { resource, requested_additional }
        && is_packet_resource(resource@) && 0 < requested_additional <= limit
}

/// What an operation on a buffer came to: the buffer that `expected` gives or its error, or the
/// refusal of memory that it asked for. No more is ever asked for than the limit allows, and
/// nothing once the buffer is over it.
pub open spec fn staged(
    before: Seq<u8>,
    limit: u64,
    expected: Result<Seq<u8>, KvIrSerializerError>,
    after: Seq<u8>,
    result: Result<(), KvIrSerializerError>,
) -> bool {
    match result {
        Ok(_) => expected == Ok::<Seq<u8>, KvIrSerializerError>(after),
        Err(error) => (before.len() <= limit && is_packet_refused(error, limit)) || expected
            == Err::<Seq<u8>, KvIrSerializerError>(error),
    }
}

/// What appending bytes at once came to: memory is asked for once, for all of them, and only where
/// nothing else stands against it. On failure the buffer is what it was.
pub open spec fn staged_once(
    before: Seq<u8>,
    expected: Result<Seq<u8>, KvIrSerializerError>,
    resource: Seq<char>,
    after: Seq<u8>,
    result: Result<(), KvIrSerializerError>,
) -> bool {
    match expected {
        Err(error) => after == before && result == Err::<(), KvIrSerializerError>(error),
        Ok(bytes) => match result {
            Ok(_) => after == bytes,
            Err(error) => after == before && bytes.len() > before.len() && was_refused(
                error,
                resource,
                bytes.len() - before.len(),
            ),
        },
    }
}

/// Three tags of a packet, for one-, two-, and four-byte numbers.
#[derive(Clone, Copy, Debug, PartialEq, Eq, Structural)]
pub struct WidthTags {
    pub one: u8,
    pub two: u8,
    pub four: u8,
}

/// Number that stands for a node: its complement in the auto-generated namespace.
pub open spec fn node_number(node_id: u32, auto_generated: bool, modulus: int) -> int {
    if auto_generated {
        modulus - 1 - node_id
    } else {
        node_id as int
    }
}

/// The buffer with a node ID appended.
pub open spec fn with_node_id(
    output: Seq<u8>,
    node_id: u32,
    auto_generated: bool,
    tags: WidthTags,
    limit: u64,
) -> Result<Seq<u8>, KvIrSerializerError> {
    if node_id <= 0x7f {
        event_bytes(
            output,
            seq![tags.one, node_number(node_id, auto_generated, 0x100) as u8],
            limit,
        )
    } else if node_id <= 0x7fff {
        and_event_bytes(
            event_bytes(output, seq![tags.two], limit),
            be16_bytes(node_number(node_id, auto_generated, 0x1_0000)),
            limit,
        )
    } else if node_id <= 0x7fff_ffff {
        and_event_bytes(
            event_bytes(output, seq![tags.four], limit),
            be32_bytes(node_number(node_id, auto_generated, 0x1_0000_0000)),
            limit,
        )
    } else {
        Err(
            serializer_limit(
                KvIrSerializerLimitResource::SchemaNodesPerNamespace,
                node_id as int,
                2_147_483_647,
            ),
        )
    }
}

/// The buffer with a length-prefixed string appended.
pub open spec fn with_string(output: Seq<u8>, value: Seq<u8>, tags: WidthTags, limit: u64) -> Result<
    Seq<u8>,
    KvIrSerializerError,
> {
    let length = value.len();
    if length <= 0xff {
        and_event_bytes(event_bytes(output, seq![tags.one, length as u8], limit), value, limit)
    } else if length <= 0xffff {
        and_event_bytes(
            and_event_bytes(
                event_bytes(output, seq![tags.two], limit),
                be16_bytes(length as int),
                limit,
            ),
            value,
            limit,
        )
    } else if length <= 0xffff_ffff {
        and_event_bytes(
            and_event_bytes(
                event_bytes(output, seq![tags.four], limit),
                be32_bytes(length as int),
                limit,
            ),
            value,
            limit,
        )
    } else {
        Err(
            serializer_limit(
                KvIrSerializerLimitResource::ScalarBytes,
                length as int,
                0xffff_ffff,
            ),
        )
    }
}

/// Length prefix and bytes of a string.
pub open spec fn string_packet(value: Seq<u8>, tags: WidthTags) -> Seq<u8> {
    let length = value.len();
    if length <= 0xff {
        seq![tags.one, length as u8] + value
    } else if length <= 0xffff {
        seq![tags.two] + be16_bytes(length as int) + value
    } else {
        seq![tags.four] + be32_bytes(length as int) + value
    }
}

/// A string that was staged is its packet behind what the buffer held.
pub proof fn lemma_string_packet(output: Seq<u8>, value: Seq<u8>, tags: WidthTags, limit: u64)
    ensures
        with_string(output, value, tags, limit) matches Ok(after) ==> after == output
            + string_packet(value, tags),
{
    match with_string(output, value, tags, limit) {
        Ok(after) => {
            assert(after =~= output + string_packet(value, tags));
        },
        Err(_) => {},
    }
}

/// The buffer with an integer value appended, in the narrowest width that holds it.
pub open spec fn with_integer_value(output: Seq<u8>, value: i64, limit: u64) -> Result<
    Seq<u8>,
    KvIrSerializerError,
> {
    if -0x80 <= value <= 0x7f {
        event_bytes(output, seq![0x51u8, (value as int % 0x100) as u8], limit)
    } else if -0x8000 <= value <= 0x7fff {
        and_event_bytes(
            event_bytes(output, seq![0x52u8], limit),
            be16_bytes(value as int % 0x1_0000),
            limit,
        )
    } else if -0x8000_0000 <= value <= 0x7fff_ffff {
        and_event_bytes(
            event_bytes(output, seq![0x53u8], limit),
            be32_bytes(value as int % 0x1_0000_0000),
            limit,
        )
    } else {
        and_event_bytes(
            event_bytes(output, seq![0x54u8], limit),
            be64_bytes(value as int % 0x1_0000_0000_0000_0000),
            limit,
        )
    }
}

/// The buffer with an encoded variable appended.
pub open spec fn with_variable(output: Seq<u8>, value: KvIrEncodedVariable, limit: u64) -> Result<
    Seq<u8>,
    KvIrSerializerError,
> {
    match value {
        KvIrEncodedVariable::FourByte(value) => and_event_bytes(
            event_bytes(output, seq![0x18u8], limit),
            be32_bytes(value as int % 0x1_0000_0000),
            limit,
        ),
        KvIrEncodedVariable::EightByte(value) => and_event_bytes(
            event_bytes(output, seq![0x19u8], limit),
            be64_bytes(value as int % 0x1_0000_0000_0000_0000),
            limit,
        ),
    }
}

/// Tag and bytes of an encoded variable.
pub open spec fn variable_packet(value: KvIrEncodedVariable) -> Seq<u8> {
    match value {
        KvIrEncodedVariable::FourByte(value) => seq![0x18u8] + be32_bytes(
            value as int % 0x1_0000_0000,
        ),
        KvIrEncodedVariable::EightByte(value) => seq![0x19u8] + be64_bytes(
            value as int % 0x1_0000_0000_0000_0000,
        ),
    }
}

/// A variable that was staged is its packet behind what the buffer held.
pub proof fn lemma_variable_packet(output: Seq<u8>, value: KvIrEncodedVariable, limit: u64)
    ensures
        with_variable(output, value, limit) matches Ok(after) ==> after == output
            + variable_packet(value),
{
    match with_variable(output, value, limit) {
        Ok(after) => {
            assert(after =~= output + variable_packet(value));
        },
        Err(_) => {},
    }
}

/// Fails where `actual` exceeds a limit.
pub fn check_limit(actual: usize, limit: u64, resource: KvIrSerializerLimitResource) -> (result:
    Result<(), KvIrSerializerError>)
    ensures
        match result {
            Ok(_) => actual <= limit,
            Err(error) => actual > limit && error == serializer_limit(
                resource,
                actual as int,
                limit,
            ),
        },
{
    if actual as u64 > limit {
        Err(limit_error(resource, actual as u64, limit))
    } else {
        Ok(())
    }
}

/// Appends bytes within a limit.
pub fn checked_extend(
    output: &mut Vec<u8>,
    bytes: &[u8],
    limit: u64,
    limit_resource: KvIrSerializerLimitResource,
    allocation_resource: &'static str,
) -> (result: Result<(), KvIrSerializerError>)
    ensures
        staged_once(
            old(output)@,
            extended(old(output)@, bytes@, limit, limit_resource),
            allocation_resource@,
            final(output)@,
            result,
        ),
{
    if bytes.len() > usize::MAX - output.len() {
        return Err(KvIrSerializerError::SizeOverflow);
    }
    check_limit(output.len() + bytes.len(), limit, limit_resource)?;
    let reserved = bytes.len() == 0 || output.try_reserve(bytes.len()).is_ok();
    extend_reserved(output, bytes, allocation_resource, reserved)
}

/// Appends bytes, given whether there is memory for them.
pub fn extend_reserved(
    output: &mut Vec<u8>,
    bytes: &[u8],
    resource: &'static str,
    reserved: bool,
) -> (result: Result<(), KvIrSerializerError>)
    ensures
        match result {
            Ok(_) => reserved && final(output)@ == old(output)@ + bytes@,
            Err(error) => !reserved && final(output)@ == old(output)@ && was_refused(
                error,
                resource@,
                bytes@.len() as int,
            ),
        },
{
    if !reserved {
        return Err(allocation(resource, bytes.len()));
    }
    append_slice(output, bytes);
    Ok(())
}

/// Appends bytes of a scalar.
pub fn append_limited(output: &mut Vec<u8>, bytes: &[u8], limit: u64) -> (result: Result<
    (),
    KvIrSerializerError,
>)
    ensures
        staged_once(
            old(output)@,
            scalar_bytes(old(output)@, bytes@, limit),
            "array JSON or CLP logtype"@,
            final(output)@,
            result,
        ),
{
    checked_extend(
        output,
        bytes,
        limit,
        KvIrSerializerLimitResource::ScalarBytes,
        "array JSON or CLP logtype",
    )
}

/// Appends bytes of an event.
pub fn append_event_bytes(
    output: &mut Vec<u8>,
    bytes: &[u8],
    limit: u64,
    resource: &'static str,
) -> (result: Result<(), KvIrSerializerError>)
    ensures
        staged_once(
            old(output)@,
            event_bytes(old(output)@, bytes@, limit),
            resource@,
            final(output)@,
            result,
        ),
{
    checked_extend(
        output,
        bytes,
        limit,
        KvIrSerializerLimitResource::EventOutputBytes,
        resource,
    )
}

/// Appends one byte of an event.
pub fn checked_push(output: &mut Vec<u8>, byte: u8, limit: u64, resource: &'static str) -> (result:
    Result<(), KvIrSerializerError>)
    ensures
        staged_once(
            old(output)@,
            event_bytes(old(output)@, seq![byte], limit),
            resource@,
            final(output)@,
            result,
        ),
{
    let bytes: [u8; 1] = [byte];
    assert(bytes@ =~= seq![byte]);
    append_event_bytes(output, &bytes, limit, resource)
}

/// Appends a node ID in the narrowest width that holds it.
pub fn encode_node_id(
    output: &mut Vec<u8>,
    node_id: u32,
    auto_generated: bool,
    tags: WidthTags,
    limit: u64,
) -> (result: Result<(), KvIrSerializerError>)
    ensures
        staged(
            old(output)@,
            limit,
            with_node_id(old(output)@, node_id, auto_generated, tags, limit),
            final(output)@,
            result,
        ),
{
    if node_id <= 0x7f {
        let number = if auto_generated {
            (0xff - node_id) as u8
        } else {
            node_id as u8
        };
        let bytes: [u8; 2] = [tags.one, number];
        assert(bytes@ =~= seq![
            tags.one,
            node_number(node_id, auto_generated, 0x100) as u8,
        ]);
        append_event_bytes(output, &bytes, limit, "node ID staging")
    } else if node_id <= 0x7fff {
        let number = if auto_generated {
            (0xffff - node_id) as u16
        } else {
            node_id as u16
        };
        checked_push(output, tags.two, limit, "node ID staging")?;
        append_event_bytes(output, &be16_array(number), limit, "node ID staging")
    } else if node_id <= 0x7fff_ffff {
        let number = if auto_generated {
            0xffff_ffff - node_id
        } else {
            node_id
        };
        checked_push(output, tags.four, limit, "node ID staging")?;
        append_event_bytes(output, &be32_array(number), limit, "node ID staging")
    } else {
        Err(
            limit_error(
                KvIrSerializerLimitResource::SchemaNodesPerNamespace,
                node_id as u64,
                2_147_483_647,
            ),
        )
    }
}

/// Appends a length-prefixed string.
pub fn serialize_string(output: &mut Vec<u8>, value: &[u8], tags: WidthTags, limit: u64) -> (result:
    Result<(), KvIrSerializerError>)
    ensures
        staged(old(output)@, limit, with_string(old(output)@, value@, tags, limit), final(output)@, result),
{
    let length = value.len() as u64;
    if length <= 0xff {
        let head: [u8; 2] = [tags.one, length as u8];
        assert(head@ =~= seq![tags.one, length as u8]);
        append_event_bytes(output, &head, limit, "string staging")?;
    } else if length <= 0xffff {
        checked_push(output, tags.two, limit, "string staging")?;
        append_event_bytes(output, &be16_array(length as u16), limit, "string staging")?;
    } else if length <= 0xffff_ffff {
        checked_push(output, tags.four, limit, "string staging")?;
        append_event_bytes(output, &be32_array(length as u32), limit, "string staging")?;
    } else {
        return Err(
            limit_error(KvIrSerializerLimitResource::ScalarBytes, length, 0xffff_ffff),
        );
    }
    append_event_bytes(output, value, limit, "string staging")
}

/// Low bits of a signed number that fits `modulus`.
fn low_bits(value: i64, modulus: i64) -> (low: i64)
    requires
        0 < modulus <= 0x1_0000_0000,
        -modulus <= value < modulus,
    ensures
        low == value as int % modulus as int,
        0 <= low < modulus,
{
    if value < 0 {
        assert((value + modulus) as int % modulus as int == value as int % modulus as int) by {
            vstd::arithmetic::div_mod::lemma_mod_add_multiples_vanish(value as int, modulus as int);
        }
        proof {
            vstd::arithmetic::div_mod::lemma_small_mod((value + modulus) as nat, modulus as nat);
        }
        value + modulus
    } else {
        proof {
            vstd::arithmetic::div_mod::lemma_small_mod(value as nat, modulus as nat);
        }
        value
    }
}

/// Appends an integer value in the narrowest width that holds it.
pub fn serialize_integer(output: &mut Vec<u8>, value: i64, limit: u64) -> (result: Result<
    (),
    KvIrSerializerError,
>)
    ensures
        staged(old(output)@, limit, with_integer_value(old(output)@, value, limit), final(output)@, result),
{
    if -0x80 <= value && value <= 0x7f {
        let bytes: [u8; 2] = [0x51, low_bits(value, 0x100) as u8];
        assert(bytes@ =~= seq![0x51u8, (value as int % 0x100) as u8]);
        append_event_bytes(output, &bytes, limit, "event value staging")
    } else if -0x8000 <= value && value <= 0x7fff {
        let low = low_bits(value, 0x1_0000) as u16;
        checked_push(output, 0x52, limit, "event value staging")?;
        append_event_bytes(output, &be16_array(low), limit, "event value staging")
    } else if -0x8000_0000 <= value && value <= 0x7fff_ffff {
        let low = low_bits(value, 0x1_0000_0000) as u32;
        checked_push(output, 0x53, limit, "event value staging")?;
        append_event_bytes(output, &be32_array(low), limit, "event value staging")
    } else {
        checked_push(output, 0x54, limit, "event value staging")?;
        append_event_bytes(
            output,
            &be64_array(unsigned_bits(value)),
            limit,
            "event value staging",
        )
    }
}

/// Two's-complement bits of a signed number.
pub fn unsigned_bits(value: i64) -> (bits: u64)
    ensures
        bits == value as int % 0x1_0000_0000_0000_0000,
{
    if value >= 0 {
        value as u64
    } else {
        0xffff_ffff_ffff_ffff - (-(value + 1)) as u64
    }
}

/// Appends an encoded variable.
pub fn serialize_encoded_variable(output: &mut Vec<u8>, value: KvIrEncodedVariable, limit: u64) -> (result:
    Result<(), KvIrSerializerError>)
    ensures
        staged(old(output)@, limit, with_variable(old(output)@, value, limit), final(output)@, result),
{
    match value {
        KvIrEncodedVariable::FourByte(value) => {
            let low = low_bits(value as i64, 0x1_0000_0000) as u32;
            checked_push(output, 0x18, limit, "CLP value staging")?;
            append_event_bytes(output, &be32_array(low), limit, "CLP value staging")
        },
        KvIrEncodedVariable::EightByte(value) => {
            checked_push(output, 0x19, limit, "CLP value staging")?;
            append_event_bytes(
                output,
                &be64_array(unsigned_bits(value)),
                limit,
                "CLP value staging",
            )
        },
    }
}

/// Appends a signed integer in decimal to an array text.
pub fn append_i64(output: &mut Vec<u8>, value: i64, limit: u64) -> (result: Result<
    (),
    KvIrSerializerError,
>)
    ensures
        staged(old(output)@, limit, scalar_bytes(old(output)@, decimal(value as int), limit), final(output)@, result),
{
    let text = format_i64(value);
    append_limited(output, text.as_slice(), limit)
}

} // verus!
