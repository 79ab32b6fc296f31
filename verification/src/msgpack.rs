//! Bounded reading of MessagePack values from a byte slice.

use vstd::prelude::*;
use vstd::slice::slice_subrange;

use crate::serializer_options::{
    limit_error, serializer_limit, KvIrMessagePackErrorKind, KvIrSerializerError,
    KvIrSerializerInput, KvIrSerializerLimitResource, KvIrSerializerLimits,
};

verus! {

/// One value, or the head of a container with its length.
#[derive(Clone, Copy, Debug)]
pub enum Header<'a> {
    Nil,
    Boolean(bool),
    Integer(i64),
    /// A binary64 value by its bits.
    Float(u64),
    String(&'a [u8]),
    ArrayHead(u32),
    MapHead(u32),
    Unsupported(KvIrMessagePackErrorKind),
}

/// What a header says.
pub enum HeaderView {
    Nil,
    Boolean(bool),
    Integer(i64),
    Float(u64),
    String(Seq<u8>),
    ArrayHead(u32),
    MapHead(u32),
    Unsupported(KvIrMessagePackErrorKind),
}

impl<'a> View for Header<'a> {
    type V = HeaderView;

    open spec fn view(&self) -> HeaderView {
        match *self {
            Header::Nil => HeaderView::Nil,
            Header::Boolean(value) => HeaderView::Boolean(value),
            Header::Integer(value) => HeaderView::Integer(value),
            Header::Float(bits) => HeaderView::Float(bits),
            Header::String(bytes) => HeaderView::String(bytes@),
            Header::ArrayHead(length) => HeaderView::ArrayHead(length),
            Header::MapHead(length) => HeaderView::MapHead(length),
            Header::Unsupported(kind) => HeaderView::Unsupported(kind),
        }
    }
}

/// Big-endian value of the two bytes at `at`.
pub open spec fn be16(bytes: Seq<u8>, at: int) -> u16 {
    (bytes[at] * 0x100 + bytes[at + 1]) as u16
}

/// Big-endian value of the four bytes at `at`.
pub open spec fn be32(bytes: Seq<u8>, at: int) -> u32 {
    (be16(bytes, at) * 0x1_0000 + be16(bytes, at + 2)) as u32
}

/// Big-endian value of the eight bytes at `at`.
pub open spec fn be64(bytes: Seq<u8>, at: int) -> u64 {
    (be32(bytes, at) * 0x1_0000_0000 + be32(bytes, at + 4)) as u64
}

/// Shifts a subnormal significand until its leading bit is set; one exponent step for each shift.
pub open spec fn normalized(significand: int, exponent: int) -> (int, int)
    decreases 0x100_0000 - significand,
{
    if 0 < significand < 0x80_0000 {
        normalized(significand * 2, exponent - 1)
    } else {
        (significand, exponent)
    }
}

/// Bits of the binary64 value that equals the binary32 value with the given bits. A NaN keeps its
/// sign and payload and becomes quiet.
pub open spec fn widened(bits: u32) -> u64 {
    let sign = (bits as int / 0x8000_0000) * 0x8000_0000_0000_0000;
    let exponent = bits as int / 0x80_0000 % 0x100;
    let fraction = bits as int % 0x80_0000;
    if exponent == 0xff {
        if fraction == 0 {
            (sign + 0x7ff0_0000_0000_0000) as u64
        } else {
            (sign + 0x7ff8_0000_0000_0000 + (fraction % 0x40_0000) * 0x2000_0000) as u64
        }
    } else if exponent == 0 {
        if fraction == 0 {
            sign as u64
        } else {
            let (significand, power) = normalized(fraction, 0x381);
            (sign + power * 0x10_0000_0000_0000 + (significand % 0x80_0000) * 0x2000_0000) as u64
        }
    } else {
        (sign + (exponent + 0x380) * 0x10_0000_0000_0000 + fraction * 0x2000_0000) as u64
    }
}

/// How far a map has been read, and how many values it has had.
pub struct Cursor {
    pub position: int,
    pub values: int,
}

/// The input of a reader that does not change.
pub struct Source {
    pub bytes: Seq<u8>,
    pub input: KvIrSerializerInput,
    pub limits: KvIrSerializerLimits,
}

/// MessagePack failure at an offset.
pub open spec fn malformed(source: Source, offset: int, kind: KvIrMessagePackErrorKind) -> KvIrSerializerError {
    KvIrSerializerError::MessagePack { input: source.input, offset: offset as usize, kind }
}

/// Position after `count` bytes from `at` on, which must be there.
pub open spec fn claimed(source: Source, at: int, count: int) -> Result<int, KvIrSerializerError> {
    if count > usize::MAX || at + count > usize::MAX {
        Err(KvIrSerializerError::SizeOverflow)
    } else if at + count > source.bytes.len() {
        Err(
            malformed(
                source,
                source.bytes.len() as int,
                KvIrMessagePackErrorKind::Truncated,
            ),
        )
    } else {
        Ok(at + count)
    }
}

/// One more value.
pub open spec fn one_more_value(source: Source, values: int) -> Result<int, KvIrSerializerError> {
    if values + 1 > u64::MAX {
        Err(KvIrSerializerError::SizeOverflow)
    } else if values + 1 > source.limits.values_per_map {
        Err(
            serializer_limit(
                KvIrSerializerLimitResource::ValuesPerMap,
                values + 1,
                source.limits.values_per_map,
            ),
        )
    } else {
        Ok(values + 1)
    }
}

/// The string of `length` bytes at `at`, and the position after it.
pub open spec fn string_payload(source: Source, at: int, length: int) -> Result<
    (HeaderView, int),
    KvIrSerializerError,
> {
    if length > source.limits.scalar_bytes {
        Err(
            serializer_limit(
                KvIrSerializerLimitResource::ScalarBytes,
                length,
                source.limits.scalar_bytes,
            ),
        )
    } else {
        match claimed(source, at, length) {
            Ok(end) => Ok((HeaderView::String(source.bytes.subrange(at, end)), end)),
            Err(error) => Err(error),
        }
    }
}

/// A payload of `length` bytes at `at` that is skipped.
pub open spec fn skipped_payload(
    source: Source,
    at: int,
    length: int,
    kind: KvIrMessagePackErrorKind,
) -> Result<(HeaderView, int), KvIrSerializerError> {
    match claimed(source, at, length) {
        Ok(end) => Ok((HeaderView::Unsupported(kind), end)),
        Err(error) => Err(error),
    }
}

/// The value that a marker announces, whose payload starts at `at`.
#[verifier::opaque]
pub open spec fn payload(source: Source, marker: u8, at: int) -> Result<
    (HeaderView, int),
    KvIrSerializerError,
> {
    let bytes = source.bytes;
    if marker <= 0x7f {
        Ok((HeaderView::Integer(marker as i64), at))
    } else if marker <= 0x8f {
        Ok((HeaderView::MapHead((marker - 0x80) as u32), at))
    } else if marker <= 0x9f {
        Ok((HeaderView::ArrayHead((marker - 0x90) as u32), at))
    } else if marker <= 0xbf {
        string_payload(source, at, marker - 0xa0)
    } else if marker == 0xc0 {
        Ok((HeaderView::Nil, at))
    } else if marker == 0xc1 {
        Err(malformed(source, at - 1, KvIrMessagePackErrorKind::ReservedMarker))
    } else if marker == 0xc2 {
        Ok((HeaderView::Boolean(false), at))
    } else if marker == 0xc3 {
        Ok((HeaderView::Boolean(true), at))
    } else if marker >= 0xe0 {
        Ok((HeaderView::Integer((marker - 0x100) as i64), at))
    } else if 0xd4 <= marker <= 0xd8 {
        let length = if marker == 0xd4 {
            2
        } else if marker == 0xd5 {
            3
        } else if marker == 0xd6 {
            5
        } else if marker == 0xd7 {
            9
        } else {
            17int
        };
        skipped_payload(source, at, length, KvIrMessagePackErrorKind::UnsupportedExtension)
    } else {
        let width = operand_width(marker);
        match claimed(source, at, width) {
            Err(error) => Err(error),
            Ok(next) => {
                let length = operand(bytes, at, width);
                if marker == 0xc4 || marker == 0xc5 || marker == 0xc6 {
                    skipped_payload(
                        source,
                        next,
                        length,
                        KvIrMessagePackErrorKind::UnsupportedBinary,
                    )
                } else if marker == 0xc7 || marker == 0xc8 || marker == 0xc9 {
                    skipped_payload(
                        source,
                        next,
                        length + 1,
                        KvIrMessagePackErrorKind::UnsupportedExtension,
                    )
                } else if marker == 0xca {
                    Ok((HeaderView::Float(widened(be32(bytes, at))), next))
                } else if marker == 0xcb {
                    Ok((HeaderView::Float(be64(bytes, at)), next))
                } else if marker == 0xcc || marker == 0xcd || marker == 0xce {
                    Ok((HeaderView::Integer(length as i64), next))
                } else if marker == 0xcf {
                    if length > i64::MAX {
                        Err(malformed(source, at - 1, KvIrMessagePackErrorKind::IntegerOutOfRange))
                    } else {
                        Ok((HeaderView::Integer(length as i64), next))
                    }
                } else if marker == 0xd0 {
                    Ok((HeaderView::Integer(signed(length, 0x80)), next))
                } else if marker == 0xd1 {
                    Ok((HeaderView::Integer(signed(length, 0x8000)), next))
                } else if marker == 0xd2 {
                    Ok((HeaderView::Integer(signed(length, 0x8000_0000)), next))
                } else if marker == 0xd3 {
                    Ok((HeaderView::Integer(signed(length, 0x8000_0000_0000_0000)), next))
                } else if marker == 0xd9 || marker == 0xda || marker == 0xdb {
                    string_payload(source, next, length)
                } else if marker == 0xdc || marker == 0xdd {
                    Ok((HeaderView::ArrayHead(length as u32), next))
                } else {
                    Ok((HeaderView::MapHead(length as u32), next))
                }
            },
        }
    }
}

/// Bytes of the number that follows a marker.
pub open spec fn operand_width(marker: u8) -> int {
    if marker == 0xc4 || marker == 0xc7 || marker == 0xcc || marker == 0xd0 || marker == 0xd9 {
        1
    } else if marker == 0xc5 || marker == 0xc8 || marker == 0xcd || marker == 0xd1 || marker == 0xda
        || marker == 0xdc || marker == 0xde {
        2
    } else if marker == 0xcb || marker == 0xcf || marker == 0xd3 {
        8
    } else {
        4
    }
}

/// The unsigned big-endian number of `width` bytes at `at`.
pub open spec fn operand(bytes: Seq<u8>, at: int, width: int) -> int {
    if width == 1 {
        bytes[at] as int
    } else if width == 2 {
        be16(bytes, at) as int
    } else if width == 4 {
        be32(bytes, at) as int
    } else {
        be64(bytes, at) as int
    }
}

/// Two's-complement reading of an unsigned number whose sign bit has the value `half`.
pub open spec fn signed(value: int, half: int) -> i64 {
    if value < half {
        value as i64
    } else {
        (value - 2 * half) as i64
    }
}

/// The value at the cursor, and the cursor after it.
pub open spec fn header_at(source: Source, cursor: Cursor) -> Result<
    (HeaderView, Cursor),
    KvIrSerializerError,
> {
    match claimed(source, cursor.position, 1) {
        Err(error) => Err(error),
        Ok(at) => match one_more_value(source, cursor.values) {
            Err(error) => Err(error),
            Ok(values) => match payload(source, source.bytes[cursor.position], at) {
                Err(error) => Err(error),
                Ok((header, position)) => Ok((header, Cursor { position, values })),
            },
        },
    }
}

/// Where a reader stands that could not take `length` bytes at `at`: at the end of the input, unless
/// no offset reaches as far.
pub open spec fn claim_stop(source: Source, at: int, length: int) -> int {
    if at + length > usize::MAX {
        at
    } else {
        source.bytes.len() as int
    }
}

/// Where a reader stands that could not take a string.
pub open spec fn string_stop(source: Source, at: int, length: int) -> int {
    if length > source.limits.scalar_bytes {
        at
    } else {
        claim_stop(source, at, length)
    }
}

/// Where a reader stands that could not take what a marker announces.
pub open spec fn payload_stop(source: Source, marker: u8, at: int) -> int {
    if marker <= 0xbf {
        string_stop(source, at, marker - 0xa0)
    } else if marker == 0xc1 {
        at
    } else if 0xd4 <= marker <= 0xd8 {
        claim_stop(
            source,
            at,
            if marker == 0xd4 {
                2
            } else if marker == 0xd5 {
                3
            } else if marker == 0xd6 {
                5
            } else if marker == 0xd7 {
                9
            } else {
                17int
            },
        )
    } else {
        let width = operand_width(marker);
        match claimed(source, at, width) {
            Err(_) => claim_stop(source, at, width),
            Ok(next) => {
                let length = operand(source.bytes, at, width);
                if marker == 0xc4 || marker == 0xc5 || marker == 0xc6 {
                    claim_stop(source, next, length)
                } else if marker == 0xc7 || marker == 0xc8 || marker == 0xc9 {
                    claim_stop(source, next, length + 1)
                } else if marker == 0xd9 || marker == 0xda || marker == 0xdb {
                    string_stop(source, next, length)
                } else {
                    next
                }
            },
        }
    }
}

/// The cursor after one value was read, or could not be: a marker that was taken is counted as a
/// value, unless the count cannot be represented.
pub open spec fn cursor_after(source: Source, cursor: Cursor) -> Cursor {
    match header_at(source, cursor) {
        Ok((_, next)) => next,
        Err(_) => match claimed(source, cursor.position, 1) {
            Err(_) => cursor,
            Ok(at) => {
                let values = if cursor.values == u64::MAX {
                    cursor.values
                } else {
                    cursor.values + 1
                };
                Cursor {
                    position: if one_more_value(source, cursor.values) is Err {
                        at
                    } else {
                        payload_stop(source, source.bytes[cursor.position], at)
                    },
                    values,
                }
            },
        },
    }
}

/// The root map at the cursor.
pub open spec fn root_map_at(source: Source, cursor: Cursor) -> Result<
    (u32, Cursor),
    KvIrSerializerError,
> {
    match header_at(source, cursor) {
        Err(error) => Err(error),
        Ok((HeaderView::MapHead(pairs), next)) => Ok((pairs, next)),
        Ok(_) => Err(malformed(source, cursor.position, KvIrMessagePackErrorKind::RootMustBeMap)),
    }
}

/// The map key at the cursor.
pub open spec fn map_key_at(source: Source, cursor: Cursor) -> Result<
    (Seq<u8>, Cursor),
    KvIrSerializerError,
> {
    match header_at(source, cursor) {
        Err(error) => Err(error),
        Ok((HeaderView::String(key), next)) => Ok((key, next)),
        Ok(_) => Err(
            malformed(source, cursor.position, KvIrMessagePackErrorKind::MapKeyMustBeString),
        ),
    }
}

/// Failure of a nesting depth over the limit.
pub open spec fn depth_checked(source: Source, depth: int) -> Result<(), KvIrSerializerError> {
    if depth > source.limits.nesting_depth {
        Err(
            serializer_limit(
                KvIrSerializerLimitResource::NestingDepth,
                depth,
                source.limits.nesting_depth,
            ),
        )
    } else {
        Ok(())
    }
}

/// Reading a value moves the cursor forward, and not past the end.
pub proof fn lemma_header_progress(source: Source, cursor: Cursor)
    requires
        0 <= cursor.position <= source.bytes.len(),
    ensures
        header_at(source, cursor) matches Ok((_, next)) ==> cursor.position < next.position
            <= source.bytes.len() && next.values == cursor.values + 1,
{
    reveal(payload);
}

/// Reader of one map.
#[derive(Debug)]
pub struct MessagePackReader<'a> {
    pub bytes: &'a [u8],
    pub position: usize,
    pub input: KvIrSerializerInput,
    pub limits: KvIrSerializerLimits,
    pub values: u64,
}

/// Widens the bits of a binary32 value to those of the equal binary64 value.
pub fn widen_bits(bits: u32) -> (result: u64)
    ensures
        result == widened(bits),
{
    let sign: u64 = (bits / 0x8000_0000) as u64 * 0x8000_0000_0000_0000;
    let exponent: u32 = bits / 0x80_0000 % 0x100;
    let fraction: u32 = bits % 0x80_0000;
    if exponent == 0xff {
        if fraction == 0 {
            return sign + 0x7ff0_0000_0000_0000;
        }
        return sign + 0x7ff8_0000_0000_0000 + (fraction % 0x40_0000) as u64 * 0x2000_0000;
    }
    if exponent == 0 {
        if fraction == 0 {
            return sign;
        }
        let mut significand: u64 = fraction as u64;
        let mut power: u64 = 0x381;
        proof {
            vstd::arithmetic::power2::lemma2_to64();
            lemma_shifts_left(significand as int, 23);
        }
        while significand < 0x80_0000
            invariant
                0 < significand < 0x100_0000,
                power <= 0x381,
                shifts_left(significand as int) >= 0,
                power - shifts_left(significand as int) >= 0x381 - 23,
                normalized(significand as int, power as int) == normalized(fraction as int, 0x381),
            decreases 0x100_0000 - significand,
        {
            proof {
                lemma_shifts_nonnegative(significand as int * 2);
            }
            significand = significand * 2;
            power = power - 1;
        }
        return sign + power * 0x10_0000_0000_0000 + (significand % 0x80_0000) * 0x2000_0000;
    }
    sign + (exponent + 0x380) as u64 * 0x10_0000_0000_0000 + fraction as u64 * 0x2000_0000
}

/// Shifts that set the leading bit of a significand.
spec fn shifts_left(significand: int) -> int
    decreases 0x100_0000 - significand,
{
    if 0 < significand < 0x80_0000 {
        1 + shifts_left(significand * 2)
    } else {
        0
    }
}

proof fn lemma_shifts_nonnegative(significand: int)
    ensures
        shifts_left(significand) >= 0,
    decreases 0x100_0000 - significand,
{
    if 0 < significand < 0x80_0000 {
        lemma_shifts_nonnegative(significand * 2);
    }
}

proof fn lemma_shifts_left(significand: int, bits: nat)
    requires
        0 < significand < 0x100_0000,
        significand * vstd::arithmetic::power2::pow2(bits) >= 0x80_0000,
    ensures
        0 <= shifts_left(significand) <= bits,
    decreases 0x100_0000 - significand,
{
    if significand < 0x80_0000 {
        vstd::arithmetic::power2::lemma2_to64();
        let factor = vstd::arithmetic::power2::pow2(bits);
        if bits == 0 {
            assert(significand * factor == significand) by (nonlinear_arith)
                requires
                    factor == 1,
            ;
        }
        vstd::arithmetic::power2::lemma_pow2_unfold(bits);
        let rest = vstd::arithmetic::power2::pow2((bits - 1) as nat);
        assert(significand * (2 * rest) == (significand * 2) * rest) by (nonlinear_arith);
        lemma_shifts_left(significand * 2, (bits - 1) as nat);
    }
}

impl<'a> MessagePackReader<'a> {
    pub open spec fn source(&self) -> Source {
        Source { bytes: self.bytes@, input: self.input, limits: self.limits }
    }

    pub open spec fn cursor(&self) -> Cursor {
        Cursor { position: self.position as int, values: self.values as int }
    }

    pub open spec fn wf(&self) -> bool {
        self.position <= self.bytes@.len()
    }

    /// Starts at the first byte.
    pub fn new(bytes: &'a [u8], input: KvIrSerializerInput, limits: KvIrSerializerLimits) -> (reader:
        Self)
        ensures
            reader.wf(),
            reader.source() == (Source { bytes: bytes@, input, limits }),
            reader.cursor() == (Cursor { position: 0, values: 0 }),
    {
        MessagePackReader { bytes, position: 0, input, limits, values: 0 }
    }

    /// Reports a failure at an offset.
    pub fn error_at(&self, offset: usize, kind: KvIrMessagePackErrorKind) -> (error:
        KvIrSerializerError)
        ensures
            error == malformed(self.source(), offset as int, kind),
    {
        KvIrSerializerError::MessagePack { input: self.input, offset, kind }
    }

    /// Fails where a nesting depth exceeds the limit.
    pub fn check_depth(&self, actual: u64) -> (result: Result<(), KvIrSerializerError>)
        ensures
            result == depth_checked(self.source(), actual as int),
    {
        if actual > self.limits.nesting_depth {
            Err(
                limit_error(
                    KvIrSerializerLimitResource::NestingDepth,
                    actual,
                    self.limits.nesting_depth,
                ),
            )
        } else {
            Ok(())
        }
    }

    fn read_bytes(&mut self, length: usize) -> (result: Result<&'a [u8], KvIrSerializerError>)
        requires
            old(self).wf(),
        ensures
            final(self).wf(),
            final(self).source() == old(self).source(),
            final(self).values == old(self).values,
            ({
                let end = claimed(old(self).source(), old(self).position as int, length as int);
                match result {
                    Ok(bytes) => end == Ok::<int, KvIrSerializerError>(final(self).position as int)
                        && bytes@ == old(self).bytes@.subrange(
                        old(self).position as int,
                        final(self).position as int,
                    ),
                    Err(error) => end == Err::<int, KvIrSerializerError>(error)
                        && final(self).position == claim_stop(
                        old(self).source(),
                        old(self).position as int,
                        length as int,
                    ),
                }
            }),
    {
        if length > usize::MAX - self.position {
            return Err(KvIrSerializerError::SizeOverflow);
        }
        let end = self.position + length;
        if end > self.bytes.len() {
            self.position = self.bytes.len();
            return Err(self.error_at(self.position, KvIrMessagePackErrorKind::Truncated));
        }
        let bytes = slice_subrange(self.bytes, self.position, end);
        self.position = end;
        Ok(bytes)
    }

    fn read_string(&mut self, length: usize) -> (result: Result<&'a [u8], KvIrSerializerError>)
        requires
            old(self).wf(),
        ensures
            final(self).wf(),
            final(self).source() == old(self).source(),
            final(self).values == old(self).values,
            ({
                let expected = string_payload(
                    old(self).source(),
                    old(self).position as int,
                    length as int,
                );
                match result {
                    Ok(bytes) => expected == Ok::<(HeaderView, int), KvIrSerializerError>(
                        (HeaderView::String(bytes@), final(self).position as int),
                    ),
                    Err(error) => expected == Err::<(HeaderView, int), KvIrSerializerError>(error)
                        && final(self).position == string_stop(
                        old(self).source(),
                        old(self).position as int,
                        length as int,
                    ),
                }
            }),
    {
        if length as u64 > self.limits.scalar_bytes {
            return Err(
                limit_error(
                    KvIrSerializerLimitResource::ScalarBytes,
                    length as u64,
                    self.limits.scalar_bytes,
                ),
            );
        }
        self.read_bytes(length)
    }

    /// Reads a big-endian number of one, two, four, or eight bytes.
    fn read_operand(&mut self, width: usize) -> (result: Result<u64, KvIrSerializerError>)
        requires
            old(self).wf(),
            width == 1 || width == 2 || width == 4 || width == 8,
        ensures
            final(self).wf(),
            final(self).source() == old(self).source(),
            final(self).values == old(self).values,
            ({
                let end = claimed(old(self).source(), old(self).position as int, width as int);
                match result {
                    Ok(value) => end == Ok::<int, KvIrSerializerError>(final(self).position as int)
                        && value == operand(
                        old(self).bytes@,
                        old(self).position as int,
                        width as int,
                    ) && (width == 1 ==> value <= 0xff) && (width == 2 ==> value <= 0xffff) && (width
                        == 4 ==> value <= 0xffff_ffff),
                    Err(error) => end == Err::<int, KvIrSerializerError>(error)
                        && final(self).position == claim_stop(
                        old(self).source(),
                        old(self).position as int,
                        width as int,
                    ),
                }
            }),
    {
        let ghost at = self.position as int;
        let operand_bytes = match self.read_bytes(width) {
            Ok(operand_bytes) => operand_bytes,
            Err(error) => {
                return Err(error);
            },
        };
        let ghost all = self.bytes@;
        assert forall|i: int| 0 <= i < width implies #[trigger] operand_bytes@[i] == all[at + i] by {}
        if width == 1 {
            return Ok(operand_bytes[0] as u64);
        }
        let first: u64 = operand_bytes[0] as u64 * 0x100 + operand_bytes[1] as u64;
        assert(first == be16(all, at));
        if width == 2 {
            return Ok(first);
        }
        let second: u64 = operand_bytes[2] as u64 * 0x100 + operand_bytes[3] as u64;
        assert(second == be16(all, at + 2));
        let high: u64 = first * 0x1_0000 + second;
        assert(high == be32(all, at));
        if width == 4 {
            return Ok(high);
        }
        let third: u64 = operand_bytes[4] as u64 * 0x100 + operand_bytes[5] as u64;
        assert(third == be16(all, at + 4));
        let fourth: u64 = operand_bytes[6] as u64 * 0x100 + operand_bytes[7] as u64;
        assert(fourth == be16(all, at + 6));
        let low: u64 = third * 0x1_0000 + fourth;
        assert(low == be32(all, at + 4));
        Ok(high * 0x1_0000_0000 + low)
    }

    /// Skips a payload that the protocol does not support.
    fn skip_payload(&mut self, length: u64, kind: KvIrMessagePackErrorKind) -> (result: Result<
        Header<'a>,
        KvIrSerializerError,
    >)
        requires
            old(self).wf(),
        ensures
            final(self).wf(),
            final(self).source() == old(self).source(),
            final(self).values == old(self).values,
            ({
                let expected = skipped_payload(
                    old(self).source(),
                    old(self).position as int,
                    length as int,
                    kind,
                );
                match result {
                    Ok(header) => expected == Ok::<(HeaderView, int), KvIrSerializerError>(
                        (header@, final(self).position as int),
                    ),
                    Err(error) => expected == Err::<(HeaderView, int), KvIrSerializerError>(error)
                        && final(self).position == claim_stop(
                        old(self).source(),
                        old(self).position as int,
                        length as int,
                    ),
                }
            }),
    {
        if length > usize::MAX as u64 {
            return Err(KvIrSerializerError::SizeOverflow);
        }
        match self.read_bytes(length as usize) {
            Ok(_) => Ok(Header::Unsupported(kind)),
            Err(error) => Err(error),
        }
    }

    /// Accounts for the marker at the position.
    fn consume_marker(&mut self) -> (result: Result<u8, KvIrSerializerError>)
        requires
            old(self).wf(),
        ensures
            final(self).wf(),
            final(self).source() == old(self).source(),
            match result {
                Ok(marker) => {
                    &&& old(self).position < old(self).bytes@.len()
                    &&& marker == old(self).bytes@[old(self).position as int]
                    &&& final(self).position == old(self).position + 1
                    &&& claimed(old(self).source(), old(self).position as int, 1) == Ok::<
                        int,
                        KvIrSerializerError,
                    >(final(self).position as int)
                    &&& one_more_value(old(self).source(), old(self).values as int) == Ok::<
                        int,
                        KvIrSerializerError,
                    >(final(self).values as int)
                },
                Err(error) => {
                    &&& match claimed(old(self).source(), old(self).position as int, 1) {
                        Err(expected) => error == expected,
                        Ok(_) => one_more_value(old(self).source(), old(self).values as int)
                            == Err::<int, KvIrSerializerError>(error),
                    }
                    &&& header_at(old(self).source(), old(self).cursor()) is Err
                    &&& final(self).cursor() == cursor_after(
                        old(self).source(),
                        old(self).cursor(),
                    )
                },
            },
    {
        assert(self.bytes@.len() == self.bytes.len());
        if self.position >= self.bytes.len() {
            if self.position == usize::MAX {
                return Err(KvIrSerializerError::SizeOverflow);
            }
            return Err(self.error_at(self.position, KvIrMessagePackErrorKind::Truncated));
        }
        let marker = self.bytes[self.position];
        self.position = self.position + 1;
        if self.values == u64::MAX {
            return Err(KvIrSerializerError::SizeOverflow);
        }
        self.values = self.values + 1;
        if self.values > self.limits.values_per_map {
            return Err(
                limit_error(
                    KvIrSerializerLimitResource::ValuesPerMap,
                    self.values,
                    self.limits.values_per_map,
                ),
            );
        }
        Ok(marker)
    }

    /// Reads one value, or the head of a container.
    pub fn read_header(&mut self) -> (result: Result<Header<'a>, KvIrSerializerError>)
        requires
            old(self).wf(),
        ensures
            final(self).wf(),
            final(self).source() == old(self).source(),
            final(self).cursor() == cursor_after(old(self).source(), old(self).cursor()),
            result matches Err(error) ==> !(error is AllocationFailed),
            ({
                let expected = header_at(old(self).source(), old(self).cursor());
                match result {
                    Ok(header) => expected == Ok::<(HeaderView, Cursor), KvIrSerializerError>(
                        (header@, final(self).cursor()),
                    ) && final(self).position > old(self).position,
                    Err(error) => expected == Err::<(HeaderView, Cursor), KvIrSerializerError>(
                        error,
                    ),
                }
            }),
    {
        proof {
            reveal(payload);
        }
        let offset = self.position;
        let marker = match self.consume_marker() {
            Ok(marker) => marker,
            Err(error) => {
                return Err(error);
            },
        };
        match marker {
            0x00..=0x7f => {
                return Ok(Header::Integer(marker as i64));
            },
            0x80..=0x8f => {
                return Ok(Header::MapHead((marker - 0x80) as u32));
            },
            0x90..=0x9f => {
                return Ok(Header::ArrayHead((marker - 0x90) as u32));
            },
            0xa0..=0xbf => {
                return match self.read_string((marker - 0xa0) as usize) {
                    Ok(bytes) => Ok(Header::String(bytes)),
                    Err(error) => Err(error),
                };
            },
            0xc0 => {
                return Ok(Header::Nil);
            },
            0xc1 => {
                return Err(self.error_at(offset, KvIrMessagePackErrorKind::ReservedMarker));
            },
            0xc2 => {
                return Ok(Header::Boolean(false));
            },
            0xc3 => {
                return Ok(Header::Boolean(true));
            },
            0xd4 => {
                return self.skip_payload(2, KvIrMessagePackErrorKind::UnsupportedExtension);
            },
            0xd5 => {
                return self.skip_payload(3, KvIrMessagePackErrorKind::UnsupportedExtension);
            },
            0xd6 => {
                return self.skip_payload(5, KvIrMessagePackErrorKind::UnsupportedExtension);
            },
            0xd7 => {
                return self.skip_payload(9, KvIrMessagePackErrorKind::UnsupportedExtension);
            },
            0xd8 => {
                return self.skip_payload(17, KvIrMessagePackErrorKind::UnsupportedExtension);
            },
            0xe0..=0xff => {
                return Ok(Header::Integer(marker as i64 - 0x100));
            },
            _ => {},
        }
        let width: usize = match marker {
            0xc4 | 0xc7 | 0xcc | 0xd0 | 0xd9 => 1,
            0xc5 | 0xc8 | 0xcd | 0xd1 | 0xda | 0xdc | 0xde => 2,
            0xcb | 0xcf | 0xd3 => 8,
            _ => 4,
        };
        let value = match self.read_operand(width) {
            Ok(value) => value,
            Err(error) => {
                return Err(error);
            },
        };
        match marker {
            0xc4 | 0xc5 | 0xc6 => self.skip_payload(
                value,
                KvIrMessagePackErrorKind::UnsupportedBinary,
            ),
            0xc7 | 0xc8 | 0xc9 => self.skip_payload(
                value + 1,
                KvIrMessagePackErrorKind::UnsupportedExtension,
            ),
            0xca => Ok(Header::Float(widen_bits(value as u32))),
            0xcb => Ok(Header::Float(value)),
            0xcc | 0xcd | 0xce => Ok(Header::Integer(value as i64)),
            0xcf => {
                if value > 0x7fff_ffff_ffff_ffff {
                    Err(self.error_at(offset, KvIrMessagePackErrorKind::IntegerOutOfRange))
                } else {
                    Ok(Header::Integer(value as i64))
                }
            },
            0xd0 => Ok(Header::Integer(two_complement(value, 0x80))),
            0xd1 => Ok(Header::Integer(two_complement(value, 0x8000))),
            0xd2 => Ok(Header::Integer(two_complement(value, 0x8000_0000))),
            0xd3 => Ok(Header::Integer(two_complement(value, 0x8000_0000_0000_0000))),
            0xd9 | 0xda | 0xdb => {
                match self.read_string(value as usize) {
                    Ok(bytes) => Ok(Header::String(bytes)),
                    Err(error) => Err(error),
                }
            },
            0xdc | 0xdd => Ok(Header::ArrayHead(value as u32)),
            _ => Ok(Header::MapHead(value as u32)),
        }
    }

    /// Reads the root map, with a short path for the common fixed-map marker.
    pub fn read_root_map(&mut self) -> (result: Result<u32, KvIrSerializerError>)
        requires
            old(self).wf(),
        ensures
            final(self).wf(),
            final(self).source() == old(self).source(),
            final(self).cursor() == cursor_after(old(self).source(), old(self).cursor()),
            result matches Err(error) ==> !(error is AllocationFailed),
            ({
                let expected = root_map_at(old(self).source(), old(self).cursor());
                match result {
                    Ok(pairs) => expected == Ok::<(u32, Cursor), KvIrSerializerError>(
                        (pairs, final(self).cursor()),
                    ) && final(self).position > old(self).position,
                    Err(error) => expected == Err::<(u32, Cursor), KvIrSerializerError>(error),
                }
            }),
    {
        proof {
            reveal(payload);
        }
        let offset = self.position;
        if offset < self.bytes.len() && 0x80 <= self.bytes[offset] && self.bytes[offset] <= 0x8f {
            return match self.consume_marker() {
                Ok(marker) => Ok((marker - 0x80) as u32),
                Err(error) => Err(error),
            };
        }
        match self.read_header() {
            Ok(Header::MapHead(pairs)) => Ok(pairs),
            Ok(_) => Err(self.error_at(offset, KvIrMessagePackErrorKind::RootMustBeMap)),
            Err(error) => Err(error),
        }
    }

    /// Reads a map key, with a short path for the common fixed-string marker.
    pub fn read_map_key(&mut self) -> (result: Result<&'a [u8], KvIrSerializerError>)
        requires
            old(self).wf(),
        ensures
            final(self).wf(),
            final(self).source() == old(self).source(),
            final(self).cursor() == cursor_after(old(self).source(), old(self).cursor()),
            result matches Err(error) ==> !(error is AllocationFailed),
            ({
                let expected = map_key_at(old(self).source(), old(self).cursor());
                match result {
                    Ok(key) => expected == Ok::<(Seq<u8>, Cursor), KvIrSerializerError>(
                        (key@, final(self).cursor()),
                    ) && final(self).position > old(self).position,
                    Err(error) => expected == Err::<(Seq<u8>, Cursor), KvIrSerializerError>(error),
                }
            }),
    {
        proof {
            reveal(payload);
        }
        let offset = self.position;
        if offset < self.bytes.len() && 0xa0 <= self.bytes[offset] && self.bytes[offset] <= 0xbf {
            return match self.consume_marker() {
                Ok(marker) => self.read_string((marker - 0xa0) as usize),
                Err(error) => Err(error),
            };
        }
        match self.read_header() {
            Ok(Header::String(key)) => Ok(key),
            Ok(_) => Err(self.error_at(offset, KvIrMessagePackErrorKind::MapKeyMustBeString)),
            Err(error) => Err(error),
        }
    }
}

/// Two's-complement reading of an unsigned number whose sign bit has the value `half`.
fn two_complement(value: u64, half: u64) -> (result: i64)
    requires
        half == 0x80 || half == 0x8000 || half == 0x8000_0000 || half == 0x8000_0000_0000_0000,
        value < 2 * half,
    ensures
        result == signed(value as int, half as int),
{
    if value < half {
        value as i64
    } else if half == 0x8000_0000_0000_0000 {
        -((0xffff_ffff_ffff_ffff - value) as i64) - 1
    } else {
        -((2 * half - value) as i64)
    }
}

} // verus!
