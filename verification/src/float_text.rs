//! Spellings of binary64 numbers, laid out from the digits that a formatter gives.

use vstd::prelude::*;

use crate::decimal::{decimal, format_i64};
use crate::number::finite_bits;
use crate::text::{is_ascii_digit, is_digit, lemma_ascii_is_utf8, utf8_text, DOT, MINUS, PLUS, ZERO};
use crate::timestamp::{parse_i64, parsed_i64};
use vstd::slice::slice_subrange;
use vstd::string::StringSliceAdditionalSpecFns;

verus! {

/// Bytes without the zeros at their end.
pub open spec fn without_zeros(text: Seq<u8>) -> Seq<u8>
    decreases text.len(),
{
    if text.len() > 0 && text.last() == 0x30 {
        without_zeros(text.drop_last())
    } else {
        text
    }
}

/// Bytes without a point at their end.
pub open spec fn without_point(text: Seq<u8>) -> Seq<u8> {
    if text.len() > 0 && text.last() == 0x2e {
        text.drop_last()
    } else {
        text
    }
}

/// A spelling without the zeros at the end of its fraction.
pub open spec fn trimmed_fraction(text: Seq<u8>) -> Seq<u8> {
    if text.contains(0x2e) {
        without_point(without_zeros(text))
    } else {
        text
    }
}

/// Offset of the first of two bytes at or after `at`, or the end.
pub open spec fn first_of(text: Seq<u8>, first: u8, second: u8, at: int) -> int
    decreases text.len() - at,
{
    if 0 <= at < text.len() && text[at] != first && text[at] != second {
        first_of(text, first, second, at + 1)
    } else {
        at
    }
}

/// Offset of the first byte at or after `at` that is no zero.
pub open spec fn skip_zeros(text: Seq<u8>, at: int) -> int
    decreases text.len() - at,
{
    if 0 <= at < text.len() && text[at] == 0x30 {
        skip_zeros(text, at + 1)
    } else {
        at
    }
}

/// Most bytes of a spelling.
pub const FLOAT_TEXT_BYTES: usize = 32;

/// A scientific spelling with a signed exponent of two digits at least.
pub open spec fn normalized(text: Seq<u8>) -> Option<Seq<u8>> {
    let mark = first_of(text, 0x65, 0x65, 0);
    if mark >= text.len() {
        None
    } else {
        let mantissa = without_point(without_zeros(text.take(mark)));
        let is_negative = mark + 1 < text.len() && text[mark + 1] == 0x2d;
        let is_signed = is_negative || (mark + 1 < text.len() && text[mark + 1] == 0x2b);
        let start = skip_zeros(
            text,
            if is_signed {
                mark + 2
            } else {
                mark + 1
            },
        );
        let exponent = text.skip(start);
        if start >= text.len() || exponent.len() > 3 {
            None
        } else {
            let result = mantissa + seq![
                0x65u8,
                if is_negative {
                    0x2du8
                } else {
                    0x2bu8
                },
            ] + (if exponent.len() == 1 {
                seq![0x30u8]
            } else {
                Seq::empty()
            }) + exponent;
            if result.len() <= FLOAT_TEXT_BYTES {
                Some(result)
            } else {
                None
            }
        }
    }
}

/// A text in a buffer of fixed size.
#[derive(Clone, Copy, Debug)]
pub struct FloatText32 {
    bytes: [u8; 32],
    len: usize,
}

impl View for FloatText32 {
    type V = Seq<u8>;

    closed spec fn view(&self) -> Seq<u8> {
        self.bytes@.take(self.len as int)
    }
}

impl FloatText32 {
    pub closed spec fn wf(&self) -> bool {
        self.len <= 32
    }

    /// Creates an empty text.
    pub fn new() -> (text: Self)
        ensures
            text.wf(),
            text@ == Seq::<u8>::empty(),
    {
        let text = FloatText32 { bytes: [0; 32], len: 0 };
        assert(text@ =~= Seq::<u8>::empty());
        text
    }

    /// Returns the bytes.
    pub fn as_bytes(&self) -> (bytes: &[u8])
        requires
            self.wf(),
        ensures
            bytes@ == self@,
            bytes@.len() <= 32,
    {
        assert(self.bytes@.subrange(0, self.len as int) =~= self@);
        slice_subrange(&self.bytes, 0, self.len)
    }

    /// Appends bytes, where they fit.
    pub fn write_bytes(&mut self, value: &[u8]) -> (result: Result<(), ()>)
        requires
            old(self).wf(),
        ensures
            final(self).wf(),
            match result {
                Ok(_) => final(self)@ == old(self)@ + value@ && old(self)@.len() + value@.len()
                    <= 32,
                Err(_) => final(self)@ == old(self)@ && old(self)@.len() + value@.len() > 32,
            },
    {
        if value.len() > 32 - self.len {
            return Err(());
        }
        let ghost before = self@;
        let start = self.len;
        let mut at: usize = 0;
        while at < value.len()
            invariant
                at <= value@.len(),
                start + value@.len() <= 32,
                self.len == start + at,
                before.len() == start,
                self@ == before + value@.take(at as int),
            decreases value@.len() - at,
        {
            let ghost prior = self.bytes@;
            let ghost text = self@;
            self.bytes[start + at] = value[at];
            self.len = start + at + 1;
            proof {
                assert(self.bytes@ == prior.update(start + at, value@[at as int]));
                assert(self@ =~= text.push(value@[at as int]));
                assert(value@.take(at + 1) =~= value@.take(at as int).push(value@[at as int]));
                assert(self@ =~= before + value@.take(at + 1));
            }
            at += 1;
        }
        assert(value@.take(at as int) =~= value@);
        Ok(())
    }

    /// Removes the zeros at the end of the fraction, and the point where nothing is left of it.
    pub fn trim_fraction(&mut self)
        requires
            old(self).wf(),
        ensures
            final(self).wf(),
            final(self)@ == trimmed_fraction(old(self)@),
    {
        let ghost before = self@;
        let mut has_point = false;
        let mut at: usize = 0;
        while at < self.len
            invariant
                at <= self.len <= 32,
                self@ == before,
                before.len() == self.len,
                has_point ==> before.contains(0x2e),
                !has_point ==> forall|i: int| 0 <= i < at ==> before[i] != 0x2e,
            decreases self.len - at,
        {
            assert(before[at as int] == self.bytes@[at as int]);
            if self.bytes[at] == DOT {
                has_point = true;
            }
            at += 1;
        }
        if !has_point {
            return;
        }
        self.cut_zeros();
        if self.len > 0 && self.bytes[self.len - 1] == DOT {
            let ghost cut = self@;
            self.len = self.len - 1;
            assert(self@ =~= cut.drop_last());
        }
    }

    /// Removes the zeros at the end.
    fn cut_zeros(&mut self)
        requires
            old(self).wf(),
        ensures
            final(self).wf(),
            final(self)@ == without_zeros(old(self)@),
            final(self).bytes == old(self).bytes,
    {
        while self.len > 0 && self.bytes[self.len - 1] == ZERO
            invariant
                self.len <= 32,
                self.bytes == old(self).bytes,
                without_zeros(self@) == without_zeros(old(self)@),
            decreases self.len,
        {
            let ghost cut = self@;
            assert(cut.last() == self.bytes@[self.len - 1]);
            self.len = self.len - 1;
            assert(self@ =~= cut.drop_last());
        }
        assert(self.len > 0 ==> self@.last() == self.bytes@[self.len - 1]);
    }

    /// Gives a scientific spelling a signed exponent of two digits at least.
    pub fn normalize_scientific(&mut self) -> (result: Result<(), ()>)
        requires
            old(self).wf(),
        ensures
            final(self).wf(),
            match result {
                Ok(_) => normalized(old(self)@) == Some(final(self)@),
                Err(_) => normalized(old(self)@) is None,
            },
    {
        let ghost text = self@;
        let length = self.len;
        let source = self.bytes;
        let mut mark: usize = 0;
        while mark < length && source[mark] != 0x65
            invariant
                mark <= length <= 32,
                text == source@.take(length as int),
                first_of(text, 0x65, 0x65, mark as int) == first_of(text, 0x65, 0x65, 0),
            decreases length - mark,
        {
            assert(text[mark as int] == source@[mark as int]);
            mark += 1;
        }
        if mark < length {
            assert(text[mark as int] == source@[mark as int]);
        }
        if mark >= length {
            return Err(());
        }
        let is_negative = mark + 1 < length && source[mark + 1] == MINUS;
        let is_signed = is_negative || (mark + 1 < length && source[mark + 1] == PLUS);
        let first: usize = if is_signed {
            mark + 2
        } else {
            mark + 1
        };
        let mut start: usize = first;
        while start < length && source[start] == ZERO
            invariant
                first <= start,
                start <= length <= 32,
                text == source@.take(length as int),
                skip_zeros(text, start as int) == skip_zeros(text, first as int),
            decreases length - start,
        {
            assert(text[start as int] == source@[start as int]);
            start += 1;
        }
        if start < length {
            assert(text[start as int] == source@[start as int]);
        }
        assert(start == skip_zeros(text, first as int));
        if start >= length || length - start > 3 {
            return Err(());
        }
        self.len = mark;
        assert(self@ =~= text.take(mark as int));
        self.cut_zeros();
        if self.len > 0 && self.bytes[self.len - 1] == DOT {
            let ghost cut = self@;
            self.len = self.len - 1;
            assert(self@ =~= cut.drop_last());
        }
        let ghost mantissa = self@;
        assert(mantissa == without_point(without_zeros(text.take(mark as int))));
        let head: [u8; 2] = [
            0x65,
            if is_negative {
                MINUS
            } else {
                PLUS
            },
        ];
        let pad: [u8; 1] = [ZERO];
        assert(head@ =~= seq![
            0x65u8,
            if is_negative {
                0x2du8
            } else {
                0x2bu8
            },
        ]);
        assert(pad@ =~= seq![0x30u8]);
        assert(source@.subrange(start as int, length as int) =~= text.skip(start as int));
        self.write_bytes(&head)?;
        if length - start == 1 {
            self.write_bytes(&pad)?;
        } else {
            assert(self@ + Seq::<u8>::empty() =~= self@);
        }
        self.write_bytes(slice_subrange(&source, start, length))?;
        Ok(())
    }
}

pub open spec fn is_negative_bits(bits: u64) -> bool {
    bits & 0x8000_0000_0000_0000 != 0
}

pub open spec fn is_zero_bits(bits: u64) -> bool {
    bits & 0x7fff_ffff_ffff_ffff == 0
}

/// Whether all bits of the fraction are zero.
pub open spec fn has_no_fraction(bits: u64) -> bool {
    bits & 0x000f_ffff_ffff_ffff == 0
}

/// The letter before an exponent.
pub const EXPONENT: u8 = 0x65;

/// How a stream with six significant digits spells a number.
#[derive(Clone, Copy, Debug, PartialEq, Eq, Structural)]
pub enum FloatLayout {
    NotANumber,
    Infinite,
    Zero,
    /// With this many fractional digits, of which zeros at the end go.
    Fixed { places: usize },
    /// With a mantissa of five fractional digits, of which zeros at the end go, and an exponent.
    Scientific,
}

/// Where the exponent of a scientific spelling starts: behind its first `e`, or at its end.
pub open spec fn exponent_start(text: Seq<u8>, at: int) -> int
    decreases text.len() - at,
{
    if at < 0 || at >= text.len() {
        text.len() as int
    } else if text[at] == EXPONENT {
        at + 1
    } else {
        exponent_start(text, at + 1)
    }
}

/// The decimal exponent of a scientific spelling, which is that of the rounded number.
pub open spec fn scientific_exponent(text: Seq<u8>) -> Option<int> {
    parsed_i64(text.skip(exponent_start(text, 0)))
}

/// The layout of a number whose six significant digits are those of a scientific spelling: with a
/// point among or close to its digits where the exponent allows it, and otherwise scientific.
pub open spec fn layout_of(bits: u64, scientific: Seq<u8>) -> FloatLayout {
    if !finite_bits(bits) {
        if has_no_fraction(bits) {
            FloatLayout::Infinite
        } else {
            FloatLayout::NotANumber
        }
    } else if is_zero_bits(bits) {
        FloatLayout::Zero
    } else {
        match scientific_exponent(scientific) {
            Some(exponent) => if -4 <= exponent < 6 {
                FloatLayout::Fixed { places: (5 - exponent) as usize }
            } else {
                FloatLayout::Scientific
            },
            None => FloatLayout::Scientific,
        }
    }
}

/// Reads the decimal exponent of a scientific spelling.
fn read_exponent(text: &[u8]) -> (exponent: Option<i64>)
    ensures
        match exponent {
            Some(exponent) => scientific_exponent(text@) == Some(exponent as int),
            None => scientific_exponent(text@) is None,
        },
{
    let mut at: usize = 0;
    while at < text.len() && text[at] != EXPONENT
        invariant
            at <= text@.len(),
            exponent_start(text@, at as int) == exponent_start(text@, 0),
        decreases text@.len() - at,
    {
        at += 1;
    }
    if at < text.len() {
        at += 1;
    }
    let rest = slice_subrange(text, at, text.len());
    assert(rest@ =~= text@.skip(exponent_start(text@, 0)));
    parse_i64(rest)
}

/// Selects the layout of a number whose six significant digits are those of a scientific spelling.
pub fn float_layout(bits: u64, scientific: &[u8]) -> (layout: FloatLayout)
    ensures
        layout == layout_of(bits, scientific@),
{
    if (bits >> 52) & 0x7ff == 0x7ff {
        if bits & 0x000f_ffff_ffff_ffff == 0 {
            FloatLayout::Infinite
        } else {
            FloatLayout::NotANumber
        }
    } else if bits & 0x7fff_ffff_ffff_ffff == 0 {
        FloatLayout::Zero
    } else {
        match read_exponent(scientific) {
            Some(exponent) => if -4 <= exponent && exponent < 6 {
                FloatLayout::Fixed { places: (5 - exponent) as usize }
            } else {
                FloatLayout::Scientific
            },
            None => FloatLayout::Scientific,
        }
    }
}

pub open spec fn signed(bits: u64, text: Seq<u8>) -> Seq<u8> {
    if is_negative_bits(bits) {
        seq![MINUS] + text
    } else {
        text
    }
}

/// Stream spelling of a number. `scientific` is the number with a mantissa of five fractional
/// digits, and `fixed` with as many fractional digits as its layout asks for; a number that is
/// spelled by its name needs neither.
pub open spec fn stream_spelling(bits: u64, scientific: Seq<u8>, fixed: Seq<u8>) -> Option<
    Seq<u8>,
> {
    match layout_of(bits, scientific) {
        FloatLayout::NotANumber => Some(signed(bits, seq![0x6eu8, 0x61, 0x6e])),
        FloatLayout::Infinite => Some(signed(bits, seq![0x69u8, 0x6e, 0x66])),
        FloatLayout::Zero => Some(signed(bits, seq![0x30u8])),
        FloatLayout::Fixed { .. } => if fixed.len() > FLOAT_TEXT_BYTES {
            None
        } else {
            Some(trimmed_fraction(fixed))
        },
        FloatLayout::Scientific => if scientific.len() > FLOAT_TEXT_BYTES {
            None
        } else {
            normalized(scientific)
        },
    }
}

/// Spells a number as a stream does.
pub fn stream_float_text(bits: u64, scientific: &[u8], fixed: &[u8]) -> (result: Option<
    FloatText32,
>)
    ensures
        match result {
            Some(text) => text.wf() && stream_spelling(bits, scientific@, fixed@) == Some(text@),
            None => stream_spelling(bits, scientific@, fixed@) is None,
        },
{
    let mut text = FloatText32::new();
    let layout = float_layout(bits, scientific);
    match layout {
        FloatLayout::Fixed { .. } => {
            assert(text@ + fixed@ =~= fixed@);
            if text.write_bytes(fixed).is_err() {
                return None;
            }
            text.trim_fraction();
            return Some(text);
        },
        FloatLayout::Scientific => {
            assert(text@ + scientific@ =~= scientific@);
            if text.write_bytes(scientific).is_err() {
                return None;
            }
            if text.normalize_scientific().is_err() {
                return None;
            }
            return Some(text);
        },
        _ => {},
    }
    let minus: [u8; 1] = [MINUS];
    assert(minus@ =~= seq![MINUS]);
    if bits & 0x8000_0000_0000_0000 != 0 {
        let _ = text.write_bytes(&minus);
    }
    let nan: [u8; 3] = [0x6e, 0x61, 0x6e];
    let inf: [u8; 3] = [0x69, 0x6e, 0x66];
    let zero: [u8; 1] = [ZERO];
    let name: &[u8] = match layout {
        FloatLayout::NotANumber => &nan,
        FloatLayout::Infinite => &inf,
        _ => &zero,
    };
    let _ = text.write_bytes(name);
    assert(nan@ =~= seq![0x6eu8, 0x61, 0x6e]);
    assert(inf@ =~= seq![0x69u8, 0x6e, 0x66]);
    assert(zero@ =~= seq![0x30u8]);
    assert(text@ =~= signed(bits, name@));
    Some(text)
}

/// Why a number has no JSON spelling.
#[derive(Clone, Copy, Debug, PartialEq, Eq, Structural)]
#[non_exhaustive]
pub enum NlohmannFloatError {
    /// JSON has no infinities and no NaN.
    NonFinite,
    /// The digits are no decimal number, or do not fit.
    InvalidFormat,
}

impl NlohmannFloatError {
    /// Human-readable description.
    pub fn description(self) -> (text: &'static str)
        ensures
            text@ == (match self {
                NlohmannFloatError::NonFinite => "cannot format a non-finite JSON number"@,
                NlohmannFloatError::InvalidFormat => "failed to normalize a finite JSON number"@,
            }),
    {
        match self {
            NlohmannFloatError::NonFinite => "cannot format a non-finite JSON number",
            NlohmannFloatError::InvalidFormat => "failed to normalize a finite JSON number",
        }
    }
}

/// Mantissa and exponent of a decimal spelling.
pub open spec fn split_shortest(source: Seq<u8>) -> Option<(Seq<u8>, int)> {
    let mark = first_of(source, 0x65, 0x45, 0);
    if mark >= source.len() {
        Some((source, 0))
    } else {
        match parsed_i64(source.skip(mark + 1)) {
            Some(exponent) => if i32::MIN <= exponent <= i32::MAX {
                Some((source.take(mark), exponent))
            } else {
                None
            },
            None => None,
        }
    }
}

/// Most digits of a mantissa.
pub const MANTISSA_DIGITS: usize = 24;

/// The digits of a mantissa from `at` on, and how many stand behind the point.
pub open spec fn mantissa_digits(
    mantissa: Seq<u8>,
    at: int,
    found: Seq<u8>,
    fraction: int,
    has_point: bool,
) -> Option<(Seq<u8>, int)>
    decreases mantissa.len() - at,
{
    if at < 0 || at >= mantissa.len() {
        Some((found, fraction))
    } else if mantissa[at] == 0x2e {
        if has_point {
            None
        } else {
            mantissa_digits(mantissa, at + 1, found, fraction, true)
        }
    } else if !is_digit(mantissa[at]) || found.len() >= MANTISSA_DIGITS {
        None
    } else {
        mantissa_digits(
            mantissa,
            at + 1,
            found.push(mantissa[at]),
            if has_point {
                fraction + 1
            } else {
                fraction
            },
            has_point,
        )
    }
}

/// The significant digits of a decimal spelling, and the power of ten that scales them.
pub open spec fn significant_digits(source: Seq<u8>) -> Option<(Seq<u8>, int)> {
    match split_shortest(source) {
        None => None,
        Some((mantissa, exponent)) => match mantissa_digits(
            mantissa,
            0,
            Seq::empty(),
            0,
            false,
        ) {
            None => None,
            Some((found, fraction)) => {
                let first = skip_zeros(found, 0);
                let digits = without_zeros(found.skip(first));
                let scale = exponent - fraction + (found.len() - first - digits.len());
                if first >= found.len() || exponent - fraction < i32::MIN || scale > i32::MAX {
                    None
                } else {
                    Some((digits, scale))
                }
            },
        },
    }
}

pub open spec fn zeros(count: int) -> Seq<u8> {
    Seq::new(
        if count > 0 {
            count as nat
        } else {
            0
        },
        |i: int| 0x30u8,
    )
}

/// Digits before an exponent.
pub open spec fn in_scientific(digits: Seq<u8>, exponent: int) -> Seq<u8> {
    let spelled = decimal(if exponent < 0 {
        -exponent
    } else {
        exponent
    });
    digits.take(1) + (if digits.len() > 1 {
        seq![0x2eu8] + digits.skip(1)
    } else {
        Seq::empty()
    }) + seq![
        0x65u8,
        if exponent < 0 {
            0x2du8
        } else {
            0x2bu8
        },
    ] + (if spelled.len() < 2 {
        seq![0x30u8]
    } else {
        Seq::empty()
    }) + spelled
}

/// Digits around their point.
pub open spec fn in_full(digits: Seq<u8>, position: int) -> Seq<u8> {
    if digits.len() <= position {
        digits + zeros(position - digits.len()) + seq![0x2eu8, 0x30]
    } else if 0 < position {
        digits.take(position) + seq![0x2eu8] + digits.skip(position)
    } else {
        seq![0x30u8, 0x2e] + zeros(-position) + digits
    }
}

/// Digits laid out around their point, or before an exponent where it is far away.
pub open spec fn laid_out(digits: Seq<u8>, scale: int) -> Seq<u8> {
    let position = digits.len() + scale;
    if -4 < position <= 15 {
        in_full(digits, position)
    } else {
        in_scientific(digits, position - 1)
    }
}

/// JSON spelling of a number whose magnitude has the shortest decimal spelling `shortest`: in
/// full where its point is near, otherwise with a signed exponent of two digits at least.
pub open spec fn json_spelling(bits: u64, shortest: Seq<u8>) -> Result<Seq<u8>, NlohmannFloatError> {
    if !finite_bits(bits) {
        Err(NlohmannFloatError::NonFinite)
    } else if is_zero_bits(bits) {
        Ok(signed(bits, seq![0x30u8, 0x2e, 0x30]))
    } else {
        match significant_digits(shortest) {
            None => Err(NlohmannFloatError::InvalidFormat),
            Some((digits, scale)) => {
                let text = signed(bits, laid_out(digits, scale));
                let position = digits.len() + scale;
                if position > i32::MAX || position - 1 < i32::MIN || text.len()
                    > FLOAT_TEXT_BYTES {
                    Err(NlohmannFloatError::InvalidFormat)
                } else {
                    Ok(text)
                }
            },
        }
    }
}

/// JSON spelling of a number.
#[derive(Clone, Copy, Debug)]
pub struct NlohmannFloat {
    text: FloatText32,
}

impl View for NlohmannFloat {
    type V = Seq<u8>;

    closed spec fn view(&self) -> Seq<u8> {
        self.text@
    }
}

impl NlohmannFloat {
    #[verifier::type_invariant]
    spec fn wf(self) -> bool {
        self.text.wf() && forall|i: int|
            0 <= i < self.text@.len() ==> (#[trigger] self.text@[i]) < 0x80
    }

    /// Returns the spelling.
    pub fn as_str(&self) -> (text: &str)
        ensures
            text.spec_bytes() == self@,
    {
        proof {
            use_type_invariant(self);
            lemma_ascii_is_utf8(self.text@);
        }
        match utf8_text(self.text.as_bytes()) {
            Ok(text) => text,
            Err(_) => "",
        }
    }
}

/// Splits a decimal spelling into its mantissa and its exponent.
fn split_shortest_float(source: &[u8]) -> (result: Option<(&[u8], i32)>)
    ensures
        match result {
            Some((mantissa, exponent)) => split_shortest(source@) == Some(
                (mantissa@, exponent as int),
            ),
            None => split_shortest(source@) is None,
        },
{
    let mut mark: usize = 0;
    while mark < source.len() && source[mark] != 0x65 && source[mark] != 0x45
        invariant
            mark <= source@.len(),
            first_of(source@, 0x65, 0x45, mark as int) == first_of(source@, 0x65, 0x45, 0),
        decreases source@.len() - mark,
    {
        mark += 1;
    }
    if mark >= source.len() {
        return Some((source, 0));
    }
    assert(source@.subrange(mark + 1, source@.len() as int) =~= source@.skip(mark + 1));
    assert(source@.subrange(0, mark as int) =~= source@.take(mark as int));
    match parse_i64(slice_subrange(source, mark + 1, source.len())) {
        Some(exponent) => if -0x8000_0000 <= exponent && exponent <= 0x7fff_ffff {
            Some((slice_subrange(source, 0, mark), exponent as i32))
        } else {
            None
        },
        None => None,
    }
}

/// The digits of a mantissa in a buffer of fixed size.
struct Digits {
    bytes: [u8; 24],
    count: usize,
    fraction: usize,
}

/// Collects the digits of a mantissa.
fn collect_digits(mantissa: &[u8]) -> (result: Option<Digits>)
    ensures
        match result {
            Some(digits) => {
                &&& digits.count <= 24
                &&& digits.fraction <= 24
                &&& mantissa_digits(mantissa@, 0, Seq::empty(), 0, false) == Some(
                    (digits.bytes@.take(digits.count as int), digits.fraction as int),
                )
                &&& forall|i: int| 0 <= i < digits.count ==> is_digit(#[trigger] digits.bytes@[i])
            },
            None => mantissa_digits(mantissa@, 0, Seq::empty(), 0, false) is None,
        },
{
    let mut bytes: [u8; 24] = [0; 24];
    let mut count: usize = 0;
    let mut fraction: usize = 0;
    let mut has_point = false;
    let mut at: usize = 0;
    assert(bytes@.take(0) =~= Seq::<u8>::empty());
    while at < mantissa.len()
        invariant
            at <= mantissa@.len(),
            fraction <= count <= 24,
            mantissa_digits(mantissa@, 0, Seq::empty(), 0, false) == mantissa_digits(
                mantissa@,
                at as int,
                bytes@.take(count as int),
                fraction as int,
                has_point,
            ),
            forall|i: int| 0 <= i < count ==> is_digit(#[trigger] bytes@[i]),
        decreases mantissa@.len() - at,
    {
        let byte = mantissa[at];
        if byte == DOT {
            if has_point {
                return None;
            }
            has_point = true;
        } else {
            if !is_ascii_digit(byte) || count >= 24 {
                return None;
            }
            let ghost prior = bytes@;
            bytes[count] = byte;
            proof {
                assert(bytes@ == prior.update(count as int, byte));
                assert(bytes@.take(count + 1) =~= prior.take(count as int).push(byte));
            }
            count += 1;
            if has_point {
                fraction += 1;
            }
        }
        at += 1;
    }
    Some(Digits { bytes, count, fraction })
}

/// Appends zeros.
fn write_zeros(output: &mut FloatText32, count: usize) -> (result: Result<(), ()>)
    requires
        old(output).wf(),
    ensures
        final(output).wf(),
        match result {
            Ok(_) => final(output)@ == old(output)@ + zeros(count as int) && old(output)@.len()
                + count <= 32,
            Err(_) => old(output)@.len() + count > 32,
        },
{
    let ghost before = output@;
    let zero: [u8; 1] = [ZERO];
    let mut written: usize = 0;
    assert(before + zeros(0) =~= before);
    while written < count
        invariant
            written <= count,
            output.wf(),
            zero@ == seq![ZERO],
            output@ == before + zeros(written as int),
            before == old(output)@,
            before.len() + written <= 32,
        decreases count - written,
    {
        output.write_bytes(&zero)?;
        assert(before + zeros(written as int) + zero@ =~= before + zeros(written + 1));
        written += 1;
    }
    Ok(())
}

/// Appends digits around their point.
fn write_in_full(output: &mut FloatText32, digits: &[u8], position: i32) -> (result: Result<(), ()>)
    requires
        old(output).wf(),
        0 < digits@.len() <= 24,
        -4 < position <= 15,
    ensures
        final(output).wf(),
        ({
            let text = old(output)@ + in_full(digits@, position as int);
            match result {
                Ok(_) => text.len() <= 32 && final(output)@ == text,
                Err(_) => text.len() > 32,
            }
        }),
{
    let length = digits.len() as i32;
    let ghost before = output@;
    let ghost text = before + in_full(digits@, position as int);
    if length <= position {
        let tail: [u8; 2] = [DOT, ZERO];
        assert(tail@ =~= seq![0x2eu8, 0x30]);
        output.write_bytes(digits)?;
        write_zeros(output, (position - length) as usize)?;
        output.write_bytes(&tail)?;
        assert(output@ =~= text);
    } else if 0 < position {
        let point: [u8; 1] = [DOT];
        let split = position as usize;
        assert(point@ =~= seq![0x2eu8]);
        assert(digits@.subrange(0, split as int) =~= digits@.take(split as int));
        assert(digits@.subrange(split as int, digits@.len() as int) =~= digits@.skip(split as int));
        output.write_bytes(slice_subrange(digits, 0, split))?;
        output.write_bytes(&point)?;
        output.write_bytes(slice_subrange(digits, split, digits.len()))?;
        assert(output@ =~= text);
    } else {
        let head: [u8; 2] = [ZERO, DOT];
        assert(head@ =~= seq![0x30u8, 0x2e]);
        output.write_bytes(&head)?;
        write_zeros(output, (-position) as usize)?;
        output.write_bytes(digits)?;
        assert(output@ =~= text);
    }
    Ok(())
}

/// Appends digits before an exponent.
fn write_in_scientific(output: &mut FloatText32, digits: &[u8], exponent: i32) -> (result: Result<
    (),
    (),
>)
    requires
        old(output).wf(),
        0 < digits@.len() <= 24,
    ensures
        final(output).wf(),
        ({
            let text = old(output)@ + in_scientific(digits@, exponent as int);
            match result {
                Ok(_) => text.len() <= 32 && final(output)@ == text,
                Err(_) => text.len() > 32,
            }
        }),
{
    let ghost before = output@;
    let magnitude: i64 = if exponent < 0 {
        -(exponent as i64)
    } else {
        exponent as i64
    };
    let spelled = format_i64(magnitude);
    let sign: u8 = if exponent < 0 {
        MINUS
    } else {
        PLUS
    };
    let point: [u8; 1] = [DOT];
    let mark: [u8; 2] = [0x65, sign];
    let pad: [u8; 1] = [ZERO];
    assert(point@ =~= seq![0x2eu8]);
    assert(mark@ =~= seq![0x65u8, sign]);
    assert(pad@ =~= seq![0x30u8]);
    assert(digits@.subrange(0, 1) =~= digits@.take(1));
    assert(digits@.subrange(1, digits@.len() as int) =~= digits@.skip(1));
    let ghost middle = if digits@.len() > 1 {
        seq![0x2eu8] + digits@.skip(1)
    } else {
        Seq::empty()
    };
    let ghost padding = if spelled@.len() < 2 {
        seq![0x30u8]
    } else {
        Seq::empty()
    };
    output.write_bytes(slice_subrange(digits, 0, 1))?;
    if digits.len() > 1 {
        output.write_bytes(&point)?;
        output.write_bytes(slice_subrange(digits, 1, digits.len()))?;
    }
    assert(output@ =~= before + digits@.take(1) + middle);
    output.write_bytes(&mark)?;
    if spelled.len() < 2 {
        output.write_bytes(&pad)?;
    }
    assert(output@ =~= before + digits@.take(1) + middle + mark@ + padding);
    output.write_bytes(spelled.as_slice())?;
    assert(output@ =~= before + in_scientific(digits@, exponent as int));
    Ok(())
}

/// Appends digits, laid out.
fn format_float_digits(output: &mut FloatText32, digits: &[u8], scale: i32) -> (result: Result<
    (),
    (),
>)
    requires
        old(output).wf(),
        0 < digits@.len() <= 24,
    ensures
        final(output).wf(),
        ({
            let position = digits@.len() + scale;
            let text = old(output)@ + laid_out(digits@, scale as int);
            let fits = position <= i32::MAX && position - 1 >= i32::MIN && text.len() <= 32;
            match result {
                Ok(_) => fits && final(output)@ == text,
                Err(_) => !fits,
            }
        }),
{
    let position = digits.len() as i64 + scale as i64;
    if position > 0x7fff_ffff {
        return Err(());
    }
    if -4 < position && position <= 15 {
        write_in_full(output, digits, position as i32)?;
        return Ok(());
    }
    if position - 1 < -0x8000_0000 {
        return Err(());
    }
    write_in_scientific(output, digits, (position - 1) as i32)?;
    Ok(())
}

/// Returns where the zeros at the start of some digits end.
fn leading_zeros(digits: &[u8]) -> (at: usize)
    ensures
        at == skip_zeros(digits@, 0),
        at <= digits@.len(),
        at < digits@.len() ==> digits@[at as int] != 0x30,
{
    let mut at: usize = 0;
    while at < digits.len() && digits[at] == ZERO
        invariant
            at <= digits@.len(),
            skip_zeros(digits@, at as int) == skip_zeros(digits@, 0),
        decreases digits@.len() - at,
    {
        at += 1;
    }
    at
}

/// Returns how many digits are left without the zeros at their end.
fn trimmed_length(digits: &[u8]) -> (length: usize)
    ensures
        length <= digits@.len(),
        digits@.take(length as int) == without_zeros(digits@),
{
    let mut length: usize = digits.len();
    assert(digits@.take(length as int) =~= digits@);
    while length > 0 && digits[length - 1] == ZERO
        invariant
            length <= digits@.len(),
            without_zeros(digits@.take(length as int)) == without_zeros(digits@),
        decreases length,
    {
        assert(digits@.take(length as int).drop_last() =~= digits@.take(length - 1));
        length -= 1;
    }
    assert(length > 0 ==> digits@.take(length as int).last() == digits@[length - 1]);
    length
}

/// The bytes of a spelling are ASCII.
proof fn lemma_laid_out_is_ascii(digits: Seq<u8>, scale: int)
    requires
        digits.len() > 0,
        forall|i: int| 0 <= i < digits.len() ==> is_digit(#[trigger] digits[i]),
    ensures
        forall|i: int|
            0 <= i < laid_out(digits, scale).len() ==> (#[trigger] laid_out(digits, scale)[i])
                < 0x80,
{
    let exponent = digits.len() + scale - 1;
    lemma_decimal_is_ascii(if exponent < 0 {
        -exponent
    } else {
        exponent
    });
}

proof fn lemma_decimal_is_ascii(value: int)
    ensures
        forall|i: int| 0 <= i < decimal(value).len() ==> (#[trigger] decimal(value)[i]) < 0x80,
{
    if value < 0 {
        lemma_digits_are_ascii((-value) as nat);
    } else {
        lemma_digits_are_ascii(value as nat);
    }
}

proof fn lemma_digits_are_ascii(number: nat)
    ensures
        forall|i: int|
            0 <= i < crate::decimal::digits(number).len() ==> (
            #[trigger] crate::decimal::digits(number)[i]) < 0x80,
    decreases number,
{
    let text = crate::decimal::digits(number);
    if number >= 10 {
        lemma_digits_are_ascii(number / 10);
        let shorter = crate::decimal::digits(number / 10);
        assert forall|i: int| 0 <= i < text.len() implies (#[trigger] text[i]) < 0x80 by {
            if i < shorter.len() {
                assert(text[i] == shorter[i]);
            }
        }
    }
}

/// Spells a finite number as JSON does. `shortest` is the shortest decimal spelling of its
/// magnitude; zero needs none.
pub fn format_nlohmann_float(bits: u64, shortest: &[u8]) -> (result: Result<
    NlohmannFloat,
    NlohmannFloatError,
>)
    ensures
        match result {
            Ok(text) => json_spelling(bits, shortest@) == Ok::<Seq<u8>, NlohmannFloatError>(text@),
            Err(error) => json_spelling(bits, shortest@) == Err::<Seq<u8>, NlohmannFloatError>(
                error,
            ),
        },
{
    if (bits >> 52) & 0x7ff == 0x7ff {
        return Err(NlohmannFloatError::NonFinite);
    }
    let mut text = FloatText32::new();
    let minus: [u8; 1] = [MINUS];
    assert(minus@ =~= seq![MINUS]);
    if bits & 0x8000_0000_0000_0000 != 0 {
        let _ = text.write_bytes(&minus);
    }
    let ghost sign = text@;
    if bits & 0x7fff_ffff_ffff_ffff == 0 {
        let zero: [u8; 3] = [ZERO, DOT, ZERO];
        assert(zero@ =~= seq![0x30u8, 0x2e, 0x30]);
        let _ = text.write_bytes(&zero);
        assert(text@ =~= signed(bits, zero@));
        return Ok(NlohmannFloat { text });
    }
    let (mantissa, exponent) = match split_shortest_float(shortest) {
        Some(parts) => parts,
        None => {
            return Err(NlohmannFloatError::InvalidFormat);
        },
    };
    let found = match collect_digits(mantissa) {
        Some(found) => found,
        None => {
            return Err(NlohmannFloatError::InvalidFormat);
        },
    };
    let ghost collected = found.bytes@.take(found.count as int);
    assert(found.bytes@.subrange(0, found.count as int) =~= collected);
    let digits = slice_subrange(&found.bytes, 0, found.count);
    let first = leading_zeros(digits);
    if first >= digits.len() {
        return Err(NlohmannFloatError::InvalidFormat);
    }
    assert(digits@.subrange(first as int, digits@.len() as int) =~= digits@.skip(first as int));
    let significant = slice_subrange(digits, first, digits.len());
    let length = trimmed_length(significant);
    let start = exponent as i64 - found.fraction as i64;
    let scale = start + (significant.len() - length) as i64;
    if start < -0x8000_0000 || scale > 0x7fff_ffff {
        return Err(NlohmannFloatError::InvalidFormat);
    }
    proof {
        lemma_keeps_nonzero(significant@);
        assert(significant@.subrange(0, length as int) =~= significant@.take(length as int));
        assert forall|i: int| 0 <= i < length implies is_digit(
            #[trigger] significant@.take(length as int)[i],
        ) by {
            assert(significant@.take(length as int)[i] == found.bytes@[first + i]);
        }
        lemma_laid_out_is_ascii(significant@.take(length as int), scale as int);
        assert(sign + laid_out(significant@.take(length as int), scale as int) =~= signed(
            bits,
            laid_out(significant@.take(length as int), scale as int),
        ));
    }
    match format_float_digits(&mut text, slice_subrange(significant, 0, length), scale as i32) {
        Ok(_) => Ok(NlohmannFloat { text }),
        Err(_) => Err(NlohmannFloatError::InvalidFormat),
    }
}

/// Something is left where the first digit is no zero.
proof fn lemma_keeps_nonzero(digits: Seq<u8>)
    requires
        digits.len() > 0,
        digits[0] != 0x30,
    ensures
        without_zeros(digits).len() > 0,
    decreases digits.len(),
{
    if digits.last() == 0x30 {
        lemma_keeps_nonzero(digits.drop_last());
    }
}

} // verus!
