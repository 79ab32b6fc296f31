//! Classification of one structured input, and where each class of it goes.
//!
//! The order is fixed: key-value IR, JSON, text that may be cut off within a character, and then
//! unknown. A probe keeps at most 64 KiB and gives every byte of it back.

use vstd::prelude::*;
use vstd::utf8::valid_utf8;

use crate::archive_options::KvIrArchiveOptions;
use crate::kv_ir::{encoding_of_magic, KvIrEncoding};
use crate::parse_many::{ParseManyOptions, ParseManyStats};
use crate::text::{
    append_slice, fault_length, lemma_valid_up_to_unique, utf8_text, valid_up_to, Utf8Fault,
    LEFT_BRACE,
};
use crate::timestamp::{JsonTimestampResolver, KvIrTimestampResolver};
use vstd::slice::slice_subrange;

verus! {

/// Most bytes that a probe keeps.
pub const PROBE_CAPACITY: usize = 65_536;

/// Most bytes that a probe asks for at a time.
pub const PROBE_READ_BYTES: usize = 16_384;

/// Class of an input.
#[derive(Clone, Copy, Debug, PartialEq, Eq, Structural)]
#[non_exhaustive]
pub enum StructuredInputKind {
    /// The first byte that is no whitespace opens an object.
    Json,
    /// Key-value IR.
    KvIr(KvIrEncoding),
    /// No byte at all.
    Empty,
    /// UTF-8, but for one character that may be cut off at the end.
    LogText,
    /// Anything else.
    Unknown,
}

impl StructuredInputKind {
    /// Human-readable description.
    pub fn description(self) -> (text: &'static str)
        ensures
            text@ == (match self {
                StructuredInputKind::Json => "JSON"@,
                StructuredInputKind::KvIr(_) => "KV-IR"@,
                StructuredInputKind::Empty => "empty"@,
                StructuredInputKind::LogText => "unstructured log text"@,
                StructuredInputKind::Unknown => "unknown binary data"@,
            }),
    {
        match self {
            StructuredInputKind::Json => "JSON",
            StructuredInputKind::KvIr(_) => "KV-IR",
            StructuredInputKind::Empty => "empty",
            StructuredInputKind::LogText => "unstructured log text",
            StructuredInputKind::Unknown => "unknown binary data",
        }
    }
}

/// Whether a byte is ASCII whitespace.
pub open spec fn is_ascii_space(byte: u8) -> bool {
    byte == 0x20 || byte == 0x09 || byte == 0x0a || byte == 0x0c || byte == 0x0d
}

/// First byte at or after `at` that is no ASCII whitespace.
pub open spec fn first_visible(bytes: Seq<u8>, at: int) -> Option<u8>
    decreases bytes.len() - at,
{
    if at < 0 || at >= bytes.len() {
        None
    } else if is_ascii_space(bytes[at]) {
        first_visible(bytes, at + 1)
    } else {
        Some(bytes[at])
    }
}

/// Whether bytes are text, or text that is cut off within a character but not the first one.
pub open spec fn is_text(fault: Option<Utf8Fault>) -> bool {
    match fault {
        None => true,
        Some(fault) => fault.error_len is None && 0 < fault.valid_up_to,
    }
}

/// Class of bytes, given where they stop being UTF-8.
pub open spec fn kind_with(prefix: Seq<u8>, fault: Option<Utf8Fault>) -> StructuredInputKind {
    let magic = if prefix.len() >= 4 {
        prefix.take(4)
    } else {
        prefix
    };
    if prefix.len() == 0 {
        StructuredInputKind::Empty
    } else if encoding_of_magic(magic) is Some {
        StructuredInputKind::KvIr(encoding_of_magic(magic)->0)
    } else if first_visible(prefix, 0) == Some(LEFT_BRACE) {
        StructuredInputKind::Json
    } else if is_text(fault) {
        StructuredInputKind::LogText
    } else {
        StructuredInputKind::Unknown
    }
}

/// Where bytes stop being UTF-8.
pub open spec fn fault_of(bytes: Seq<u8>) -> Option<Utf8Fault> {
    if valid_utf8(bytes) {
        None
    } else {
        Some(
            Utf8Fault {
                valid_up_to: valid_up_to(bytes) as usize,
                error_len: fault_length(bytes),
            },
        )
    }
}

/// Class of bytes.
pub open spec fn kind_of(prefix: Seq<u8>) -> StructuredInputKind {
    kind_with(prefix, fault_of(prefix))
}

/// Classifies bytes, given where they stop being UTF-8.
pub fn classify_with(prefix: &[u8], fault: Option<Utf8Fault>) -> (kind: StructuredInputKind)
    ensures
        kind == kind_with(prefix@, fault),
{
    if prefix.len() == 0 {
        return StructuredInputKind::Empty;
    }
    let magic = if prefix.len() >= 4 {
        slice_subrange(prefix, 0, 4)
    } else {
        prefix
    };
    assert(prefix@.len() >= 4 ==> prefix@.subrange(0, 4) =~= prefix@.take(4));
    match KvIrEncoding::from_magic_number(magic) {
        Some(encoding) => {
            return StructuredInputKind::KvIr(encoding);
        },
        None => {},
    }
    let mut at: usize = 0;
    while at < prefix.len() && (prefix[at] == 0x20 || prefix[at] == 0x09 || prefix[at] == 0x0a
        || prefix[at] == 0x0c || prefix[at] == 0x0d)
        invariant
            at <= prefix@.len(),
            first_visible(prefix@, at as int) == first_visible(prefix@, 0),
        decreases prefix@.len() - at,
    {
        at += 1;
    }
    if at < prefix.len() && prefix[at] == LEFT_BRACE {
        return StructuredInputKind::Json;
    }
    let is_log = match fault {
        None => true,
        Some(fault) => fault.error_len.is_none() && 0 < fault.valid_up_to,
    };
    if is_log {
        StructuredInputKind::LogText
    } else {
        StructuredInputKind::Unknown
    }
}

/// Classifies bytes.
pub fn classify_prefix(prefix: &[u8]) -> (kind: StructuredInputKind)
    ensures
        kind == kind_of(prefix@),
{
    let fault = match utf8_text(prefix) {
        Ok(_) => None,
        Err(fault) => {
            proof {
                lemma_valid_up_to_unique(prefix@, fault.valid_up_to as int);
            }
            Some(fault)
        },
    };
    classify_with(prefix, fault)
}

/// There was no memory for the bytes of a probe.
#[derive(Clone, Copy, Debug, PartialEq, Eq, Structural)]
pub struct ProbeAllocationFailed {
    pub requested_additional: usize,
}

/// Collects the first bytes of an input.
#[derive(Debug)]
pub struct StructuredProbe {
    prefix: Vec<u8>,
}

impl View for StructuredProbe {
    type V = Seq<u8>;

    closed spec fn view(&self) -> Seq<u8> {
        self.prefix@
    }
}

/// How many bytes a probe with `collected` bytes asks for; none where it is full.
pub open spec fn wanted_bytes(collected: int) -> int {
    if collected >= PROBE_CAPACITY {
        0
    } else if PROBE_CAPACITY - collected < PROBE_READ_BYTES {
        PROBE_CAPACITY - collected
    } else {
        PROBE_READ_BYTES as int
    }
}

impl StructuredProbe {
    /// Creates an empty probe with memory for all that it keeps.
    ///
    /// Whether there is memory is for the allocator to say; without it, the error tells how many
    /// bytes were asked for.
    pub fn new() -> (probe: Result<Self, ProbeAllocationFailed>)
        ensures
            match probe {
                Ok(probe) => probe@ == Seq::<u8>::empty(),
                Err(error) => error == (ProbeAllocationFailed {
                    requested_additional: PROBE_CAPACITY,
                }),
            },
    {
        let mut storage: Vec<u8> = Vec::new();
        let reserved = storage.try_reserve(PROBE_CAPACITY).is_ok();
        Self::with_storage(storage, reserved)
    }

    /// Creates an empty probe over storage, given whether memory was reserved for all that a probe
    /// keeps.
    pub fn with_storage(storage: Vec<u8>, reserved: bool) -> (probe: Result<
        Self,
        ProbeAllocationFailed,
    >)
        ensures
            match probe {
                Ok(probe) => reserved && probe@ == Seq::<u8>::empty(),
                Err(error) => !reserved && error == (ProbeAllocationFailed {
                    requested_additional: PROBE_CAPACITY,
                }),
            },
    {
        if !reserved {
            return Err(ProbeAllocationFailed { requested_additional: PROBE_CAPACITY });
        }
        let mut prefix = storage;
        prefix.clear();
        assert(prefix@ =~= Seq::<u8>::empty());
        Ok(StructuredProbe { prefix })
    }

    /// Returns how many bytes are to be read next; none where the probe is full.
    pub fn wanted(&self) -> (bytes: usize)
        ensures
            bytes == wanted_bytes(self@.len() as int),
    {
        if self.prefix.len() >= PROBE_CAPACITY {
            0
        } else if PROBE_CAPACITY - self.prefix.len() < PROBE_READ_BYTES {
            PROBE_CAPACITY - self.prefix.len()
        } else {
            PROBE_READ_BYTES
        }
    }

    /// Takes bytes that were read, no more than are wanted.
    pub fn supply(&mut self, chunk: &[u8])
        requires
            chunk@.len() <= wanted_bytes(old(self)@.len() as int),
        ensures
            final(self)@ == old(self)@ + chunk@,
    {
        append_slice(&mut self.prefix, chunk);
    }

    /// Classifies the collected bytes. They are given back before those of the input they came
    /// from.
    pub fn finish<D>(self, decoded: D) -> (input: ProbedStructuredInput<D>)
        ensures
            input.spec_kind() == kind_of(self@),
            input.unread() == self@,
            input.carried() == decoded,
    {
        let kind = classify_prefix(self.prefix.as_slice());
        let input = ProbedStructuredInput { kind, prefix: self.prefix, prefix_offset: 0, decoded };
        assert(input.unread() =~= self@);
        input
    }
}

/// A classified input that gives back the bytes of its probe.
#[derive(Debug)]
pub struct ProbedStructuredInput<D> {
    kind: StructuredInputKind,
    prefix: Vec<u8>,
    prefix_offset: usize,
    decoded: D,
}

impl<D> ProbedStructuredInput<D> {
    pub closed spec fn spec_kind(&self) -> StructuredInputKind {
        self.kind
    }

    /// Bytes of the probe that were not given back yet.
    pub closed spec fn unread(&self) -> Seq<u8> {
        if self.prefix_offset <= self.prefix@.len() {
            self.prefix@.skip(self.prefix_offset as int)
        } else {
            Seq::empty()
        }
    }

    /// The input that the probe was taken from.
    pub closed spec fn carried(&self) -> D {
        self.decoded
    }

    /// Returns the class.
    pub fn kind(&self) -> (kind: StructuredInputKind)
        ensures
            kind == self.spec_kind(),
    {
        self.kind
    }

    /// Gives back the next bytes of the probe, as many as asked for or as are left.
    pub fn replay(&mut self, capacity: usize) -> (bytes: &[u8])
        ensures
            bytes@ == replayed(old(self).unread(), capacity as int),
            final(self).unread() == old(self).unread().skip(bytes@.len() as int),
            final(self).spec_kind() == old(self).spec_kind(),
            final(self).carried() == old(self).carried(),
    {
        let length = self.prefix.len();
        if self.prefix_offset > length {
            self.prefix_offset = length;
        }
        let start = self.prefix_offset;
        let count = if capacity <= length - start {
            capacity
        } else {
            length - start
        };
        self.prefix_offset = start + count;
        proof {
            let unread = old(self).unread();
            assert(unread =~= self.prefix@.skip(start as int));
            assert(self.unread() =~= unread.skip(count as int));
            assert(self.prefix@.subrange(start as int, start + count) =~= unread.take(count as int));
        }
        slice_subrange(self.prefix.as_slice(), start, start + count)
    }

    /// Returns the input that the probe was taken from.
    pub fn decoded(&self) -> (decoded: &D)
        ensures
            *decoded == self.carried(),
    {
        &self.decoded
    }

    /// Returns the input that the probe was taken from, for reading.
    pub fn decoded_mut(&mut self) -> (decoded: &mut D)
        ensures
            *decoded == old(self).carried(),
            final(self).carried() == *final(decoded),
            final(self).spec_kind() == old(self).spec_kind(),
            final(self).unread() == old(self).unread(),
    {
        &mut self.decoded
    }
}

/// Parser and adapter options of one stream.
#[derive(Debug)]
pub struct StructuredStreamOptions<'r, J, K> {
    pub parse_many: ParseManyOptions,
    pub json_archive: J,
    pub kv_ir_reader: K,
    pub kv_ir_archive: KvIrArchiveOptions,
    pub json_timestamp: Option<&'r JsonTimestampResolver>,
    pub kv_ir_timestamp: Option<&'r KvIrTimestampResolver>,
}

impl<'r, J, K> StructuredStreamOptions<'r, J, K> {
    /// Creates bounded defaults without timestamp resolution.
    pub fn new(json_archive: J, kv_ir_reader: K) -> (options: Self)
        ensures
            options.parse_many == crate::parse_many::default_many_options(),
            options.json_archive == json_archive,
            options.kv_ir_reader == kv_ir_reader,
            options.kv_ir_archive == (KvIrArchiveOptions {
                limits: crate::archive_options::default_archive_limits(),
            }),
            options.json_timestamp is None,
            options.kv_ir_timestamp is None,
    {
        StructuredStreamOptions {
            parse_many: ParseManyOptions::new(),
            json_archive,
            kv_ir_reader,
            kv_ir_archive: KvIrArchiveOptions::new(),
            json_timestamp: None,
            kv_ir_timestamp: None,
        }
    }

    /// Replaces the framing of JSON.
    pub fn with_parse_many(self, options: ParseManyOptions) -> (result: Self)
        ensures
            result == (StructuredStreamOptions { parse_many: options, ..self }),
    {
        StructuredStreamOptions { parse_many: options, ..self }
    }

    /// Replaces the conversion of JSON.
    pub fn with_json_archive(self, options: J) -> (result: Self)
        ensures
            result == (StructuredStreamOptions { json_archive: options, ..self }),
    {
        StructuredStreamOptions { json_archive: options, ..self }
    }

    /// Replaces the reading of key-value IR.
    pub fn with_kv_ir_reader(self, options: K) -> (result: Self)
        ensures
            result == (StructuredStreamOptions { kv_ir_reader: options, ..self }),
    {
        StructuredStreamOptions { kv_ir_reader: options, ..self }
    }

    /// Replaces the conversion of key-value IR.
    pub fn with_kv_ir_archive(self, options: KvIrArchiveOptions) -> (result: Self)
        ensures
            result == (StructuredStreamOptions { kv_ir_archive: options, ..self }),
    {
        StructuredStreamOptions { kv_ir_archive: options, ..self }
    }

    /// Selects the timestamp resolvers of both encodings.
    pub fn with_timestamp_resolvers<'n>(
        self,
        json: Option<&'n JsonTimestampResolver>,
        kv_ir: Option<&'n KvIrTimestampResolver>,
    ) -> (result: StructuredStreamOptions<'n, J, K>)
        ensures
            result.parse_many == self.parse_many,
            result.json_archive == self.json_archive,
            result.kv_ir_reader == self.kv_ir_reader,
            result.kv_ir_archive == self.kv_ir_archive,
            result.json_timestamp == json,
            result.kv_ir_timestamp == kv_ir,
    {
        StructuredStreamOptions {
            parse_many: self.parse_many,
            json_archive: self.json_archive,
            kv_ir_reader: self.kv_ir_reader,
            kv_ir_archive: self.kv_ir_archive,
            json_timestamp: json,
            kv_ir_timestamp: kv_ir,
        }
    }
}

/// Counters of one stream.
#[derive(Clone, Copy, Debug, PartialEq, Eq, Structural)]
pub struct StructuredStreamStats {
    pub input_bytes: u64,
    pub records: u64,
    pub truncated_json_bytes: u64,
}

impl Default for StructuredStreamStats {
    fn default() -> (stats: Self)
        ensures
            stats == (StructuredStreamStats {
                input_bytes: 0,
                records: 0,
                truncated_json_bytes: 0,
            }),
    {
        StructuredStreamStats { input_bytes: 0, records: 0, truncated_json_bytes: 0 }
    }
}

impl StructuredStreamStats {
    /// Counters of a stream of objects.
    pub fn of_json(stats: ParseManyStats) -> (result: Self)
        ensures
            result == (StructuredStreamStats {
                input_bytes: stats.input_bytes,
                records: stats.documents,
                truncated_json_bytes: stats.truncated_bytes,
            }),
    {
        StructuredStreamStats {
            input_bytes: stats.input_bytes,
            records: stats.documents,
            truncated_json_bytes: stats.truncated_bytes,
        }
    }

    /// Counters of key-value IR.
    pub fn of_kv_ir(input_bytes: u64, log_events: u64) -> (result: Self)
        ensures
            result == (StructuredStreamStats {
                input_bytes,
                records: log_events,
                truncated_json_bytes: 0,
            }),
    {
        StructuredStreamStats { input_bytes, records: log_events, truncated_json_bytes: 0 }
    }

    /// Returns the bytes charged to the source.
    pub fn input_bytes(self) -> (bytes: u64)
        ensures
            bytes == self.input_bytes,
    {
        self.input_bytes
    }

    /// Returns the committed objects or events.
    pub fn records(self) -> (count: u64)
        ensures
            count == self.records,
    {
        self.records
    }

    /// Returns the bytes of an ignored incomplete object.
    pub fn truncated_json_bytes(self) -> (bytes: u64)
        ensures
            bytes == self.truncated_json_bytes,
    {
        self.truncated_json_bytes
    }
}

/// Which reader an input goes to.
#[derive(Clone, Copy, Debug, PartialEq, Eq, Structural)]
pub enum StructuredRoute {
    Json,
    KvIr,
}

/// Selects the reader of an input. Text and unknown data have none.
pub fn route(kind: StructuredInputKind) -> (result: Result<StructuredRoute, StructuredInputKind>)
    ensures
        result == (match kind {
            StructuredInputKind::Json | StructuredInputKind::Empty => Ok::<
                StructuredRoute,
                StructuredInputKind,
            >(StructuredRoute::Json),
            StructuredInputKind::KvIr(_) => Ok(StructuredRoute::KvIr),
            StructuredInputKind::LogText | StructuredInputKind::Unknown => Err(kind),
        }),
{
    match kind {
        StructuredInputKind::Json | StructuredInputKind::Empty => Ok(StructuredRoute::Json),
        StructuredInputKind::KvIr(_) => Ok(StructuredRoute::KvIr),
        StructuredInputKind::LogText | StructuredInputKind::Unknown => Err(kind),
    }
}

/// The bytes of an input that its class depends on.
pub open spec fn probed_bytes(input: Seq<u8>) -> Seq<u8> {
    if input.len() <= PROBE_CAPACITY {
        input
    } else {
        input.take(PROBE_CAPACITY as int)
    }
}

/// What a probe has collected from an input after reads of these sizes.
pub open spec fn collected(input: Seq<u8>, sizes: Seq<int>) -> Seq<u8>
    decreases sizes.len(),
{
    if sizes.len() == 0 {
        Seq::empty()
    } else {
        let before = collected(input, sizes.drop_last());
        before + input.subrange(before.len() as int, before.len() + sizes.last())
    }
}

/// Whether reads of these sizes give a probe no more than it wants, and no more than there is.
pub open spec fn are_reads(input: Seq<u8>, sizes: Seq<int>) -> bool
    decreases sizes.len(),
{
    sizes.len() > 0 ==> {
        let before = collected(input, sizes.drop_last()).len();
        &&& are_reads(input, sizes.drop_last())
        &&& 0 <= sizes.last() <= wanted_bytes(before as int)
        &&& before + sizes.last() <= input.len()
    }
}

proof fn lemma_collected(input: Seq<u8>, sizes: Seq<int>)
    requires
        are_reads(input, sizes),
    ensures
        collected(input, sizes).len() <= PROBE_CAPACITY,
        collected(input, sizes).len() <= input.len(),
        collected(input, sizes) == input.take(collected(input, sizes).len() as int),
    decreases sizes.len(),
{
    if sizes.len() > 0 {
        lemma_collected(input, sizes.drop_last());
        let before = collected(input, sizes.drop_last());
        let after = collected(input, sizes);
        assert(after =~= input.take(after.len() as int));
    } else {
        assert(collected(input, sizes) =~= input.take(0));
    }
}

/// The class of an input depends on its first bytes alone, however they are read: a probe that is
/// full, or has read all of the input, holds exactly these.
pub proof fn classes_depend_on_the_first_bytes(input: Seq<u8>, sizes: Seq<int>)
    requires
        are_reads(input, sizes),
        wanted_bytes(collected(input, sizes).len() as int) == 0 || collected(input, sizes).len()
            == input.len(),
    ensures
        collected(input, sizes) == probed_bytes(input),
        kind_of(collected(input, sizes)) == kind_of(probed_bytes(input)),
{
    lemma_collected(input, sizes);
    assert(input.take(input.len() as int) =~= input);
}

/// What is given back of a probe when `capacity` bytes are asked for.
pub open spec fn replayed(unread: Seq<u8>, capacity: int) -> Seq<u8> {
    unread.take(
        if capacity <= unread.len() {
            capacity
        } else {
            unread.len() as int
        },
    )
}

/// What is given back in turn, one read after the other.
pub open spec fn replays(unread: Seq<u8>, capacities: Seq<usize>) -> Seq<u8>
    decreases capacities.len(),
{
    if capacities.len() == 0 {
        Seq::empty()
    } else {
        let bytes = replayed(unread, capacities[0] as int);
        bytes + replays(unread.skip(bytes.len() as int), capacities.drop_first())
    }
}

/// Bytes that reads ask for in all.
pub open spec fn asked_bytes(capacities: Seq<usize>) -> int
    decreases capacities.len(),
{
    if capacities.len() == 0 {
        0
    } else {
        capacities[0] + asked_bytes(capacities.drop_first())
    }
}

/// Every byte of a probe is given back once and in order: reads give back as many of its bytes as
/// they ask for in all, or all of them.
pub proof fn probes_are_given_back(unread: Seq<u8>, capacities: Seq<usize>)
    ensures
        0 <= asked_bytes(capacities),
        replays(unread, capacities) == replayed(unread, asked_bytes(capacities)),
        asked_bytes(capacities) >= unread.len() ==> replays(unread, capacities) == unread,
    decreases capacities.len(),
{
    if capacities.len() > 0 {
        let bytes = replayed(unread, capacities[0] as int);
        let rest = unread.skip(bytes.len() as int);
        probes_are_given_back(rest, capacities.drop_first());
        assert(replays(unread, capacities) =~= replayed(unread, asked_bytes(capacities)));
    } else {
        assert(replays(unread, capacities) =~= replayed(unread, 0));
    }
    assert(unread.take(unread.len() as int) =~= unread);
}

/// Probing loses nothing: what is given back of a probe, followed by what was not read yet, is the
/// input.
pub proof fn probes_lose_nothing(input: Seq<u8>, sizes: Seq<int>, capacities: Seq<usize>)
    requires
        are_reads(input, sizes),
        asked_bytes(capacities) >= collected(input, sizes).len(),
    ensures
        replays(collected(input, sizes), capacities) + input.skip(
            collected(input, sizes).len() as int,
        ) == input,
{
    let probe = collected(input, sizes);
    lemma_collected(input, sizes);
    probes_are_given_back(probe, capacities);
    assert(input.take(probe.len() as int) + input.skip(probe.len() as int) =~= input);
}

} // verus!
