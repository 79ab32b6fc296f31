//! JSON escaping and exact number spelling.
//!
//! Only ASCII controls, quotation marks and reverse soliduses are escaped; everything else is
//! copied unchanged. Every operation checks all limits before it touches its destination, and
//! leaves the destination as it was on every error.

use vstd::prelude::*;
use vstd::string::{StringExecFns, StringSliceAdditionalSpecFns};
use vstd::utf8::{
    encode_utf8, encode_utf8_valid_utf8, is_char_boundary,
    is_char_boundary_iff_not_is_continuation_byte,
    is_continuation_byte, valid_utf8,
};

use crate::text::{
    append_slice, fault_length, lemma_valid_up_to_unique, utf8_text, valid_up_to, BACKSLASH, COLON,
    QUOTE,
};
use vstd::slice::slice_subrange;

verus! {

/// Limits of one escaped fragment.
#[derive(Clone, Copy, Debug, PartialEq, Eq, Structural)]
pub struct JsonEscapeLimits {
    pub input_bytes: usize,
    pub output_bytes: usize,
}

impl JsonEscapeLimits {
    /// Creates limits on the input and on the appended output, quotes and colon included.
    pub fn new(max_input_bytes: usize, max_output_bytes: usize) -> (limits: Self)
        ensures
            limits == (JsonEscapeLimits {
                input_bytes: max_input_bytes,
                output_bytes: max_output_bytes,
            }),
    {
        JsonEscapeLimits { input_bytes: max_input_bytes, output_bytes: max_output_bytes }
    }

    /// Maximum source bytes.
    pub fn max_input_bytes(self) -> (limit: usize)
        ensures
            limit == self.input_bytes,
    {
        self.input_bytes
    }

    /// Maximum appended bytes.
    pub fn max_output_bytes(self) -> (limit: usize)
        ensures
            limit == self.output_bytes,
    {
        self.output_bytes
    }
}

impl Default for JsonEscapeLimits {
    fn default() -> (limits: Self)
        ensures
            limits == (JsonEscapeLimits { input_bytes: 67_108_864, output_bytes: 402_653_187 }),
    {
        JsonEscapeLimits { input_bytes: 67_108_864, output_bytes: 402_653_187 }
    }
}

/// How bytes that are not UTF-8 are treated.
#[derive(Clone, Copy, Debug, PartialEq, Eq, Structural)]
#[non_exhaustive]
pub enum JsonBytePolicy {
    /// They are rejected.
    StrictUtf8,
    /// They are copied. The result is then no valid JSON.
    PreserveInvalidUtf8,
}

impl Default for JsonBytePolicy {
    fn default() -> (policy: Self)
        ensures
            policy == JsonBytePolicy::StrictUtf8,
    {
        JsonBytePolicy::StrictUtf8
    }
}

/// Why a fragment was not appended.
#[derive(Clone, Copy, Debug, PartialEq, Eq, Structural)]
#[non_exhaustive]
#[allow(inconsistent_fields)]
pub enum JsonEscapeError {
    /// The source is longer than the limit allows.
    InputLimitExceeded { actual: usize, limit: usize },
    /// The escaped fragment is longer than the limit allows.
    OutputLimitExceeded { required: usize, limit: usize },
    /// A size does not fit.
    OutputSizeOverflow,
    /// The source is not UTF-8.
    InvalidUtf8 { valid_up_to: usize, error_len: Option<usize> },
    /// The destination could not be grown.
    AllocationFailed { requested_additional: usize },
}

/// What stands around the escaped text.
#[derive(Clone, Copy, Debug, PartialEq, Eq, Structural)]
pub enum JsonFraming {
    Contents,
    String,
    Key,
}

/// Lower-case hexadecimal digit.
pub open spec fn hex_character(value: int) -> u8 {
    if value < 10 {
        (0x30 + value) as u8
    } else {
        (0x57 + value) as u8
    }
}

/// What a byte is escaped to.
pub open spec fn escape_of(byte: u8) -> Seq<u8> {
    if byte == QUOTE || byte == BACKSLASH {
        seq![BACKSLASH, byte]
    } else if byte == 0x08 {
        seq![BACKSLASH, 0x62]
    } else if byte == 0x09 {
        seq![BACKSLASH, 0x74]
    } else if byte == 0x0a {
        seq![BACKSLASH, 0x6e]
    } else if byte == 0x0c {
        seq![BACKSLASH, 0x66]
    } else if byte == 0x0d {
        seq![BACKSLASH, 0x72]
    } else if byte < 0x20 {
        seq![
            BACKSLASH,
            0x75,
            0x30,
            0x30,
            hex_character(byte as int / 16),
            hex_character(byte as int % 16),
        ]
    } else {
        seq![byte]
    }
}

/// What bytes are escaped to.
pub open spec fn escaped(source: Seq<u8>) -> Seq<u8>
    decreases source.len(),
{
    if source.len() == 0 {
        Seq::empty()
    } else {
        escaped(source.drop_last()) + escape_of(source.last())
    }
}

/// The escaped bytes with what stands around them.
pub open spec fn framed_text(source: Seq<u8>, framing: JsonFraming) -> Seq<u8> {
    match framing {
        JsonFraming::Contents => escaped(source),
        JsonFraming::String => seq![QUOTE] + escaped(source) + seq![QUOTE],
        JsonFraming::Key => seq![QUOTE] + escaped(source) + seq![QUOTE, COLON],
    }
}

/// The destination with a fragment.
pub open spec fn with_fragment(
    source: Seq<u8>,
    destination: Seq<u8>,
    is_strict: bool,
    framing: JsonFraming,
    limits: JsonEscapeLimits,
) -> Result<Seq<u8>, JsonEscapeError> {
    let fragment = framed_text(source, framing);
    if source.len() > limits.input_bytes {
        Err(
            JsonEscapeError::InputLimitExceeded {
                actual: source.len() as usize,
                limit: limits.input_bytes,
            },
        )
    } else if is_strict && !valid_utf8(source) {
        Err(
            JsonEscapeError::InvalidUtf8 {
                valid_up_to: valid_up_to(source) as usize,
                error_len: fault_length(source),
            },
        )
    } else if fragment.len() > usize::MAX {
        Err(JsonEscapeError::OutputSizeOverflow)
    } else if fragment.len() > limits.output_bytes {
        Err(
            JsonEscapeError::OutputLimitExceeded {
                required: fragment.len() as usize,
                limit: limits.output_bytes,
            },
        )
    } else if destination.len() + fragment.len() > usize::MAX {
        Err(JsonEscapeError::OutputSizeOverflow)
    } else {
        Ok(destination + fragment)
    }
}

/// What appending came to; on failure the destination is what it was.
///
/// Memory is asked for once, for all that is appended, and only where nothing else stands against
/// it.
pub open spec fn fragment_appended(
    expected: Result<Seq<u8>, JsonEscapeError>,
    before: Seq<u8>,
    after: Seq<u8>,
    result: Result<(), JsonEscapeError>,
) -> bool {
    match expected {
        Err(error) => after == before && result == Err::<(), JsonEscapeError>(error),
        Ok(bytes) => match result {
            Ok(_) => after == bytes,
            Err(error) => after == before && bytes.len() > before.len() && error == (
            JsonEscapeError::AllocationFailed {
                requested_additional: (bytes.len() - before.len()) as usize,
            }),
        },
    }
}

/// Returns how many bytes the escape of a byte adds.
fn escape_extra_bytes(byte: u8) -> (extra: usize)
    ensures
        1 + extra == escape_of(byte).len(),
{
    if byte == QUOTE || byte == BACKSLASH || byte == 0x08 || byte == 0x09 || byte == 0x0a || byte
        == 0x0c || byte == 0x0d {
        1
    } else if byte < 0x20 {
        5
    } else {
        0
    }
}

/// Returns the escape of a byte, where it needs one.
fn escape_sequence(byte: u8) -> (sequence: Option<&'static str>)
    ensures
        match sequence {
            Some(sequence) => sequence.spec_bytes() == escape_of(byte) && escape_of(byte).len() > 1,
            None => escape_of(byte) == seq![byte],
        },
{
    proof {
        reveal_strlit("\\\"");
        reveal_strlit("\\\\");
        reveal_strlit("\\b");
        reveal_strlit("\\t");
        reveal_strlit("\\n");
        reveal_strlit("\\f");
        reveal_strlit("\\r");
    }
    if byte == QUOTE {
        proof {
            lemma_short_escape("\\\"", '"');
        }
        Some("\\\"")
    } else if byte == BACKSLASH {
        proof {
            lemma_short_escape("\\\\", '\\');
        }
        Some("\\\\")
    } else if byte == 0x08 {
        proof {
            lemma_short_escape("\\b", 'b');
        }
        Some("\\b")
    } else if byte == 0x09 {
        proof {
            lemma_short_escape("\\t", 't');
        }
        Some("\\t")
    } else if byte == 0x0a {
        proof {
            lemma_short_escape("\\n", 'n');
        }
        Some("\\n")
    } else if byte == 0x0c {
        proof {
            lemma_short_escape("\\f", 'f');
        }
        Some("\\f")
    } else if byte == 0x0d {
        proof {
            lemma_short_escape("\\r", 'r');
        }
        Some("\\r")
    } else if byte < 0x20 {
        Some(control_escape(byte))
    } else {
        None
    }
}

proof fn lemma_short_escape(text: &str, second: char)
    requires
        text@ =~= seq!['\\', second],
        '\0' <= second <= '\u{7f}',
    ensures
        text.spec_bytes() == seq![BACKSLASH, second as u8],
{
    vstd::string::is_ascii_spec_bytes(text);
    assert(text.spec_bytes() =~= seq![BACKSLASH, second as u8]);
}

proof fn lemma_control_escape(text: &str, fifth: char, sixth: char)
    requires
        text@ =~= seq!['\\', 'u', '0', '0', fifth, sixth],
        '\0' <= fifth <= '\u{7f}',
        '\0' <= sixth <= '\u{7f}',
    ensures
        text.spec_bytes() == seq![BACKSLASH, 0x75u8, 0x30, 0x30, fifth as u8, sixth as u8],
{
    vstd::string::is_ascii_spec_bytes(text);
    assert(text.spec_bytes() =~= seq![BACKSLASH, 0x75u8, 0x30, 0x30, fifth as u8, sixth as u8]);
}

/// Returns the escape of a control character that has no short one.
fn control_escape(byte: u8) -> (sequence: &'static str)
    requires
        byte < 0x20,
        escape_of(byte).len() == 6,
    ensures
        sequence.spec_bytes() == escape_of(byte),
{
    if byte == 0x00 {
        proof {
            reveal_strlit("\\u0000");
            lemma_control_escape("\\u0000", '0', '0');
        }
        "\\u0000"
    } else if byte == 0x01 {
        proof {
            reveal_strlit("\\u0001");
            lemma_control_escape("\\u0001", '0', '1');
        }
        "\\u0001"
    } else if byte == 0x02 {
        proof {
            reveal_strlit("\\u0002");
            lemma_control_escape("\\u0002", '0', '2');
        }
        "\\u0002"
    } else if byte == 0x03 {
        proof {
            reveal_strlit("\\u0003");
            lemma_control_escape("\\u0003", '0', '3');
        }
        "\\u0003"
    } else if byte == 0x04 {
        proof {
            reveal_strlit("\\u0004");
            lemma_control_escape("\\u0004", '0', '4');
        }
        "\\u0004"
    } else if byte == 0x05 {
        proof {
            reveal_strlit("\\u0005");
            lemma_control_escape("\\u0005", '0', '5');
        }
        "\\u0005"
    } else if byte == 0x06 {
        proof {
            reveal_strlit("\\u0006");
            lemma_control_escape("\\u0006", '0', '6');
        }
        "\\u0006"
    } else if byte == 0x07 {
        proof {
            reveal_strlit("\\u0007");
            lemma_control_escape("\\u0007", '0', '7');
        }
        "\\u0007"
    } else if byte == 0x0b {
        proof {
            reveal_strlit("\\u000b");
            lemma_control_escape("\\u000b", '0', 'b');
        }
        "\\u000b"
    } else if byte == 0x0e {
        proof {
            reveal_strlit("\\u000e");
            lemma_control_escape("\\u000e", '0', 'e');
        }
        "\\u000e"
    } else if byte == 0x0f {
        proof {
            reveal_strlit("\\u000f");
            lemma_control_escape("\\u000f", '0', 'f');
        }
        "\\u000f"
    } else if byte == 0x10 {
        proof {
            reveal_strlit("\\u0010");
            lemma_control_escape("\\u0010", '1', '0');
        }
        "\\u0010"
    } else if byte == 0x11 {
        proof {
            reveal_strlit("\\u0011");
            lemma_control_escape("\\u0011", '1', '1');
        }
        "\\u0011"
    } else if byte == 0x12 {
        proof {
            reveal_strlit("\\u0012");
            lemma_control_escape("\\u0012", '1', '2');
        }
        "\\u0012"
    } else if byte == 0x13 {
        proof {
            reveal_strlit("\\u0013");
            lemma_control_escape("\\u0013", '1', '3');
        }
        "\\u0013"
    } else if byte == 0x14 {
        proof {
            reveal_strlit("\\u0014");
            lemma_control_escape("\\u0014", '1', '4');
        }
        "\\u0014"
    } else if byte == 0x15 {
        proof {
            reveal_strlit("\\u0015");
            lemma_control_escape("\\u0015", '1', '5');
        }
        "\\u0015"
    } else if byte == 0x16 {
        proof {
            reveal_strlit("\\u0016");
            lemma_control_escape("\\u0016", '1', '6');
        }
        "\\u0016"
    } else if byte == 0x17 {
        proof {
            reveal_strlit("\\u0017");
            lemma_control_escape("\\u0017", '1', '7');
        }
        "\\u0017"
    } else if byte == 0x18 {
        proof {
            reveal_strlit("\\u0018");
            lemma_control_escape("\\u0018", '1', '8');
        }
        "\\u0018"
    } else if byte == 0x19 {
        proof {
            reveal_strlit("\\u0019");
            lemma_control_escape("\\u0019", '1', '9');
        }
        "\\u0019"
    } else if byte == 0x1a {
        proof {
            reveal_strlit("\\u001a");
            lemma_control_escape("\\u001a", '1', 'a');
        }
        "\\u001a"
    } else if byte == 0x1b {
        proof {
            reveal_strlit("\\u001b");
            lemma_control_escape("\\u001b", '1', 'b');
        }
        "\\u001b"
    } else if byte == 0x1c {
        proof {
            reveal_strlit("\\u001c");
            lemma_control_escape("\\u001c", '1', 'c');
        }
        "\\u001c"
    } else if byte == 0x1d {
        proof {
            reveal_strlit("\\u001d");
            lemma_control_escape("\\u001d", '1', 'd');
        }
        "\\u001d"
    } else if byte == 0x1e {
        proof {
            reveal_strlit("\\u001e");
            lemma_control_escape("\\u001e", '1', 'e');
        }
        "\\u001e"
    } else {
        proof {
            reveal_strlit("\\u001f");
            lemma_control_escape("\\u001f", '1', 'f');
        }
        "\\u001f"
    }
}

/// Escapes go byte by byte.
proof fn lemma_escaped_concat(first: Seq<u8>, second: Seq<u8>)
    ensures
        escaped(first + second) == escaped(first) + escaped(second),
    decreases second.len(),
{
    if second.len() == 0 {
        assert(first + second =~= first);
        assert(escaped(first) + escaped(second) =~= escaped(first));
    } else {
        let whole = first + second;
        assert(whole.drop_last() =~= first + second.drop_last());
        lemma_escaped_concat(first, second.drop_last());
        assert(escaped(whole) =~= escaped(first) + escaped(second));
    }
}

/// Bytes that need no escape stay as they are.
pub proof fn lemma_plain_run(run: Seq<u8>)
    requires
        forall|i: int| 0 <= i < run.len() ==> escape_of(#[trigger] run[i]) == seq![run[i]],
    ensures
        escaped(run) == run,
    decreases run.len(),
{
    if run.len() > 0 {
        lemma_plain_run(run.drop_last());
        assert(escaped(run) =~= run);
    }
}

/// No byte becomes shorter.
pub proof fn lemma_escaped_length(source: Seq<u8>, at: int)
    requires
        0 <= at <= source.len(),
    ensures
        escaped(source).len() >= escaped(source.take(at)).len() + (source.len() - at),
    decreases source.len() - at,
{
    if at < source.len() {
        lemma_escaped_length(source, at + 1);
        assert(source.take(at + 1).drop_last() =~= source.take(at));
    } else {
        assert(source.take(at) =~= source);
    }
}

impl JsonFraming {
    /// Returns how many bytes stand around the text.
    fn byte_len(self) -> (length: usize)
        ensures
            forall|source: Seq<u8>| #[trigger]
                framed_text(source, self).len() == escaped(source).len() + length,
            length <= 3,
    {
        match self {
            JsonFraming::Contents => 0,
            JsonFraming::String => 2,
            JsonFraming::Key => 3,
        }
    }
}

/// Returns the exact size of a fragment.
fn analyze_checked_input(source: &[u8], framing: JsonFraming, limits: JsonEscapeLimits) -> (result:
    Result<usize, JsonEscapeError>)
    ensures
        ({
            let length = framed_text(source@, framing).len();
            match result {
                Ok(size) => size == length && length <= limits.output_bytes,
                Err(error) => if length > usize::MAX {
                    error is OutputSizeOverflow
                } else {
                    length > limits.output_bytes && error == (
                    JsonEscapeError::OutputLimitExceeded {
                        required: length as usize,
                        limit: limits.output_bytes,
                    })
                },
            }
        }),
{
    let mut size: usize = source.len();
    let mut at: usize = 0;
    assert(source@.take(0) =~= Seq::<u8>::empty());
    while at < source.len()
        invariant
            at <= source@.len(),
            size == escaped(source@.take(at as int)).len() + (source@.len() - at),
        decreases source@.len() - at,
    {
        let extra = escape_extra_bytes(source[at]);
        proof {
            assert(source@.take(at + 1).drop_last() =~= source@.take(at as int));
            lemma_escaped_length(source@, at + 1);
        }
        size = match size.checked_add(extra) {
            Some(size) => size,
            None => {
                let _ = framing.byte_len();
                return Err(JsonEscapeError::OutputSizeOverflow);
            },
        };
        at += 1;
    }
    assert(source@.take(at as int) =~= source@);
    let required = match size.checked_add(framing.byte_len()) {
        Some(required) => required,
        None => {
            return Err(JsonEscapeError::OutputSizeOverflow);
        },
    };
    if required > limits.output_bytes {
        return Err(JsonEscapeError::OutputLimitExceeded { required, limit: limits.output_bytes });
    }
    Ok(required)
}

/// Appends escaped bytes; runs that need no escape are copied as a whole.
fn append_escaped_bytes_validated(source: &[u8], destination: &mut Vec<u8>)
    ensures
        final(destination)@ == old(destination)@ + escaped(source@),
{
    let ghost before = destination@;
    let mut run_start: usize = 0;
    let mut at: usize = 0;
    proof {
        assert(source@.take(0) =~= Seq::<u8>::empty());
        assert(before + source@.subrange(0, 0) =~= before + escaped(source@.take(0)));
    }
    while at < source.len()
        invariant
            run_start <= at <= source@.len(),
            destination@ + source@.subrange(run_start as int, at as int) == before + escaped(
                source@.take(at as int),
            ),
        decreases source@.len() - at,
    {
        proof {
            assert(source@.take(at + 1).drop_last() =~= source@.take(at as int));
        }
        let ghost written = destination@;
        match escape_sequence(source[at]) {
            None => {
                assert(written + source@.subrange(run_start as int, at + 1) =~= written
                    + source@.subrange(run_start as int, at as int) + seq![source@[at as int]]);
                assert(written + source@.subrange(run_start as int, at + 1) =~= before + escaped(
                    source@.take(at + 1),
                ));
            },
            Some(sequence) => {
                append_slice(destination, slice_subrange(source, run_start, at));
                append_slice(destination, sequence.as_bytes());
                run_start = at + 1;
                assert(destination@ + source@.subrange(at + 1, at + 1) =~= before + escaped(
                    source@.take(at + 1),
                ));
            },
        }
        at += 1;
    }
    append_slice(destination, slice_subrange(source, run_start, source.len()));
    assert(source@.take(at as int) =~= source@);
    assert(destination@ =~= before + escaped(source@));
}

/// Appends a fragment to bytes.
fn append_bytes(
    source: &[u8],
    destination: &mut Vec<u8>,
    policy: JsonBytePolicy,
    framing: JsonFraming,
    limits: JsonEscapeLimits,
) -> (result: Result<(), JsonEscapeError>)
    ensures
        fragment_appended(
            with_fragment(
                source@,
                old(destination)@,
                policy == JsonBytePolicy::StrictUtf8,
                framing,
                limits,
            ),
            old(destination)@,
            final(destination)@,
            result,
        ),
{
    if source.len() > limits.input_bytes {
        return Err(
            JsonEscapeError::InputLimitExceeded {
                actual: source.len(),
                limit: limits.input_bytes,
            },
        );
    }
    if policy == JsonBytePolicy::StrictUtf8 {
        match utf8_text(source) {
            Ok(_) => {},
            Err(fault) => {
                proof {
                    lemma_valid_up_to_unique(source@, fault.valid_up_to as int);
                }
                return Err(
                    JsonEscapeError::InvalidUtf8 {
                        valid_up_to: fault.valid_up_to,
                        error_len: fault.error_len,
                    },
                );
            },
        }
    }
    let size = analyze_checked_input(source, framing, limits)?;
    if destination.len().checked_add(size).is_none() {
        return Err(JsonEscapeError::OutputSizeOverflow);
    }
    let reserved = size == 0 || destination.try_reserve(size).is_ok();
    append_reserved_fragment(source, destination, framing, size, reserved)
}

/// Appends a fragment of `size` bytes to bytes, given whether there is memory for it.
pub fn append_reserved_fragment(
    source: &[u8],
    destination: &mut Vec<u8>,
    framing: JsonFraming,
    size: usize,
    reserved: bool,
) -> (result: Result<(), JsonEscapeError>)
    requires
        size == framed_text(source@, framing).len(),
        old(destination)@.len() + size <= usize::MAX,
    ensures
        match result {
            Ok(_) => reserved && final(destination)@ == old(destination)@ + framed_text(
                source@,
                framing,
            ),
            Err(error) => !reserved && final(destination)@ == old(destination)@ && error == (
            JsonEscapeError::AllocationFailed { requested_additional: size }),
        },
{
    if !reserved {
        return Err(JsonEscapeError::AllocationFailed { requested_additional: size });
    }
    match framing {
        JsonFraming::Contents => {},
        _ => {
            destination.push(QUOTE);
        },
    }
    append_escaped_bytes_validated(source, destination);
    match framing {
        JsonFraming::Contents => {},
        JsonFraming::String => {
            destination.push(QUOTE);
        },
        JsonFraming::Key => {
            destination.push(QUOTE);
            destination.push(COLON);
        },
    }
    assert(destination@ =~= old(destination)@ + framed_text(source@, framing));
    Ok(())
}

/// Appends escaped text without quotes.
pub fn append_escaped_bytes(
    source: &[u8],
    destination: &mut Vec<u8>,
    policy: JsonBytePolicy,
    limits: JsonEscapeLimits,
) -> (result: Result<(), JsonEscapeError>)
    ensures
        fragment_appended(
            with_fragment(
                source@,
                old(destination)@,
                policy == JsonBytePolicy::StrictUtf8,
                JsonFraming::Contents,
                limits,
            ),
            old(destination)@,
            final(destination)@,
            result,
        ),
{
    append_bytes(source, destination, policy, JsonFraming::Contents, limits)
}

/// Appends a quoted string.
pub fn append_json_string_bytes(
    source: &[u8],
    destination: &mut Vec<u8>,
    policy: JsonBytePolicy,
    limits: JsonEscapeLimits,
) -> (result: Result<(), JsonEscapeError>)
    ensures
        fragment_appended(
            with_fragment(
                source@,
                old(destination)@,
                policy == JsonBytePolicy::StrictUtf8,
                JsonFraming::String,
                limits,
            ),
            old(destination)@,
            final(destination)@,
            result,
        ),
{
    append_bytes(source, destination, policy, JsonFraming::String, limits)
}

/// Appends a quoted key and its colon.
pub fn append_json_key_bytes(
    source: &[u8],
    destination: &mut Vec<u8>,
    policy: JsonBytePolicy,
    limits: JsonEscapeLimits,
) -> (result: Result<(), JsonEscapeError>)
    ensures
        fragment_appended(
            with_fragment(
                source@,
                old(destination)@,
                policy == JsonBytePolicy::StrictUtf8,
                JsonFraming::Key,
                limits,
            ),
            old(destination)@,
            final(destination)@,
            result,
        ),
{
    append_bytes(source, destination, policy, JsonFraming::Key, limits)
}

/// Encodings go character by character.
pub proof fn lemma_encode_concat(first: Seq<char>, second: Seq<char>)
    ensures
        encode_utf8(first + second) == encode_utf8(first) + encode_utf8(second),
    decreases first.len(),
{
    let whole = first + second;
    if first.len() == 0 {
        assert(whole =~= second);
        assert(encode_utf8(first) + encode_utf8(second) =~= encode_utf8(second));
    } else {
        assert(whole.drop_first() =~= first.drop_first() + second);
        lemma_encode_concat(first.drop_first(), second);
        assert(encode_utf8(whole) =~= encode_utf8(first) + encode_utf8(second));
    }
}

/// Calls `String::try_reserve_exact`, which makes room for `additional` bytes more and leaves the
/// text as it is. Whether there is memory for them is the machine's answer.
#[verifier::external_body]
fn reserve_string(destination: &mut String, additional: usize) -> (reserved: bool)
    ensures
        final(destination)@ == old(destination)@,
{
    destination.try_reserve_exact(additional).is_ok()
}

/// Returns where the first byte stands that needs an escape, or the end.
fn first_escape(bytes: &[u8]) -> (at: usize)
    ensures
        at <= bytes@.len(),
        forall|i: int| 0 <= i < at ==> escape_of(#[trigger] bytes@[i]) == seq![bytes@[i]],
        at < bytes@.len() ==> escape_of(bytes@[at as int]).len() > 1,
{
    let mut at: usize = 0;
    while at < bytes.len() && escape_extra_bytes(bytes[at]) == 0
        invariant
            at <= bytes@.len(),
            forall|i: int| 0 <= i < at ==> escape_of(#[trigger] bytes@[i]) == seq![bytes@[i]],
        decreases bytes@.len() - at,
    {
        at += 1;
    }
    at
}

/// The offset after a leading ASCII byte is a boundary.
proof fn lemma_ascii_boundary(bytes: Seq<u8>)
    requires
        valid_utf8(bytes),
        bytes.len() > 0,
        bytes[0] < 0x80,
    ensures
        is_char_boundary(bytes, 1),
{
    reveal_with_fuel(is_char_boundary, 2);
    reveal_with_fuel(valid_utf8, 2);
}

proof fn lemma_escaped_one(byte: u8)
    ensures
        escaped(seq![byte]) == escape_of(byte),
{
    reveal_with_fuel(escaped, 2);
    assert(seq![byte].drop_last() =~= Seq::<u8>::empty());
    assert(escaped(seq![byte]) =~= escape_of(byte));
}

/// A text is escaped run by run.
pub proof fn lemma_escape_step(bytes: Seq<u8>, run: Seq<u8>, byte: u8, after: Seq<u8>)
    requires
        bytes == run + seq![byte] + after,
        forall|i: int| 0 <= i < run.len() ==> escape_of(#[trigger] run[i]) == seq![run[i]],
    ensures
        escaped(bytes) == run + escape_of(byte) + escaped(after),
{
    lemma_plain_run(run);
    lemma_escaped_one(byte);
    lemma_escaped_concat(run, seq![byte]);
    lemma_escaped_concat(run + seq![byte], after);
}

/// Appends the run before the first byte that needs an escape, and the escape; returns what is
/// left.
fn append_escaped_run<'a>(rest: &'a str, at: usize, destination: &mut String) -> (after: &'a str)
    requires
        at < rest.spec_bytes().len(),
        escape_of(rest.spec_bytes()[at as int]).len() > 1,
        forall|i: int|
            0 <= i < at ==> escape_of(#[trigger] rest.spec_bytes()[i]) == seq![
                rest.spec_bytes()[i],
            ],
    ensures
        encode_utf8(final(destination)@) + escaped(after.spec_bytes()) == encode_utf8(
            old(destination)@,
        ) + escaped(rest.spec_bytes()),
        after.spec_bytes().len() < rest.spec_bytes().len(),
{
    let ghost bytes = rest.spec_bytes();
    let ghost byte = bytes[at as int];
    let ghost before = destination@;
    proof {
        encode_utf8_valid_utf8(rest@);
        assert(!is_continuation_byte(byte));
        is_char_boundary_iff_not_is_continuation_byte(bytes, at as int);
    }
    let (run, tail) = rest.split_at(at);
    proof {
        encode_utf8_valid_utf8(tail@);
        lemma_ascii_boundary(tail.spec_bytes());
        lemma_encode_concat(before, run@);
    }
    let (_, after) = tail.split_at(1);
    proof {
        assert(bytes =~= run.spec_bytes() + seq![byte] + after.spec_bytes());
        assert forall|i: int| 0 <= i < run.spec_bytes().len() implies escape_of(
            #[trigger] run.spec_bytes()[i],
        ) == seq![run.spec_bytes()[i]] by {
            assert(run.spec_bytes()[i] == bytes[i]);
        }
        lemma_escape_step(bytes, run.spec_bytes(), byte, after.spec_bytes());
    }
    destination.append(run);
    match escape_sequence(tail.as_bytes()[0]) {
        Some(sequence) => {
            proof {
                lemma_encode_concat(before + run@, sequence@);
            }
            destination.append(sequence);
        },
        None => {},
    }
    assert(encode_utf8(destination@) + escaped(after.spec_bytes()) =~= encode_utf8(before)
        + escaped(bytes));
    after
}

/// Appends escaped text; runs that need no escape are copied as a whole.
fn append_escaped_str_validated(source: &str, destination: &mut String)
    ensures
        encode_utf8(final(destination)@) == encode_utf8(old(destination)@) + escaped(
            source.spec_bytes(),
        ),
{
    let mut rest: &str = source;
    loop
        invariant
            encode_utf8(destination@) + escaped(rest.spec_bytes()) == encode_utf8(
                old(destination)@,
            ) + escaped(source.spec_bytes()),
        decreases rest.spec_bytes().len(),
    {
        let at = first_escape(rest.as_bytes());
        if at == rest.as_bytes().len() {
            proof {
                lemma_plain_run(rest.spec_bytes());
                lemma_encode_concat(destination@, rest@);
            }
            destination.append(rest);
            return;
        }
        rest = append_escaped_run(rest, at, destination);
    }
}

/// Appends a fragment to a text.
fn append_str(
    source: &str,
    destination: &mut String,
    framing: JsonFraming,
    limits: JsonEscapeLimits,
) -> (result: Result<(), JsonEscapeError>)
    ensures
        result is Err ==> final(destination)@ == old(destination)@,
        fragment_appended(
            with_fragment(
                source.spec_bytes(),
                encode_utf8(old(destination)@),
                false,
                framing,
                limits,
            ),
            encode_utf8(old(destination)@),
            encode_utf8(final(destination)@),
            result,
        ),
{
    let bytes = source.as_bytes();
    if bytes.len() > limits.input_bytes {
        return Err(
            JsonEscapeError::InputLimitExceeded { actual: bytes.len(), limit: limits.input_bytes },
        );
    }
    let size = analyze_checked_input(bytes, framing, limits)?;
    let length = destination.as_str().as_bytes().len();
    if length.checked_add(size).is_none() {
        return Err(JsonEscapeError::OutputSizeOverflow);
    }
    let reserved = size == 0 || reserve_string(destination, size);
    append_reserved_str_fragment(source, destination, framing, size, reserved)
}

/// Appends a fragment of `size` bytes to a text, given whether there is memory for it.
pub fn append_reserved_str_fragment(
    source: &str,
    destination: &mut String,
    framing: JsonFraming,
    size: usize,
    reserved: bool,
) -> (result: Result<(), JsonEscapeError>)
    requires
        size == framed_text(source.spec_bytes(), framing).len(),
        encode_utf8(old(destination)@).len() + size <= usize::MAX,
    ensures
        match result {
            Ok(_) => reserved && encode_utf8(final(destination)@) == encode_utf8(
                old(destination)@,
            ) + framed_text(source.spec_bytes(), framing),
            Err(error) => !reserved && final(destination)@ == old(destination)@ && error == (
            JsonEscapeError::AllocationFailed { requested_additional: size }),
        },
{
    if !reserved {
        return Err(JsonEscapeError::AllocationFailed { requested_additional: size });
    }
    proof {
        reveal_strlit("\"");
        reveal_strlit("\":");
        vstd::string::is_ascii_spec_bytes("\"");
        vstd::string::is_ascii_spec_bytes("\":");
        assert("\"".spec_bytes() =~= seq![QUOTE]);
        assert("\":".spec_bytes() =~= seq![QUOTE, COLON]);
    }
    match framing {
        JsonFraming::Contents => {},
        _ => {
            proof {
                lemma_encode_concat(destination@, "\""@);
            }
            destination.append("\"");
        },
    }
    append_escaped_str_validated(source, destination);
    match framing {
        JsonFraming::Contents => {},
        JsonFraming::String => {
            proof {
                lemma_encode_concat(destination@, "\""@);
            }
            destination.append("\"");
        },
        JsonFraming::Key => {
            proof {
                lemma_encode_concat(destination@, "\":"@);
            }
            destination.append("\":");
        },
    }
    assert(encode_utf8(destination@) =~= encode_utf8(old(destination)@) + framed_text(
        source.spec_bytes(),
        framing,
    ));
    Ok(())
}

/// Appends escaped text without quotes.
pub fn append_escaped_str(source: &str, destination: &mut String, limits: JsonEscapeLimits) -> (result: Result<
    (),
    JsonEscapeError,
>)
    ensures
        result is Err ==> final(destination)@ == old(destination)@,
        fragment_appended(
            with_fragment(
                source.spec_bytes(),
                encode_utf8(old(destination)@),
                false,
                JsonFraming::Contents,
                limits,
            ),
            encode_utf8(old(destination)@),
            encode_utf8(final(destination)@),
            result,
        ),
{
    append_str(source, destination, JsonFraming::Contents, limits)
}

/// Appends a quoted string.
pub fn append_json_string(source: &str, destination: &mut String, limits: JsonEscapeLimits) -> (result: Result<
    (),
    JsonEscapeError,
>)
    ensures
        result is Err ==> final(destination)@ == old(destination)@,
        fragment_appended(
            with_fragment(
                source.spec_bytes(),
                encode_utf8(old(destination)@),
                false,
                JsonFraming::String,
                limits,
            ),
            encode_utf8(old(destination)@),
            encode_utf8(final(destination)@),
            result,
        ),
{
    append_str(source, destination, JsonFraming::String, limits)
}

/// Appends a quoted key and its colon.
pub fn append_json_key(source: &str, destination: &mut String, limits: JsonEscapeLimits) -> (result: Result<
    (),
    JsonEscapeError,
>)
    ensures
        result is Err ==> final(destination)@ == old(destination)@,
        fragment_appended(
            with_fragment(
                source.spec_bytes(),
                encode_utf8(old(destination)@),
                false,
                JsonFraming::Key,
                limits,
            ),
            encode_utf8(old(destination)@),
            encode_utf8(final(destination)@),
            result,
        ),
{
    append_str(source, destination, JsonFraming::Key, limits)
}

} // verus!
