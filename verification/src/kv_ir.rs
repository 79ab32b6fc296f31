//! Plain values of the key-value IR protocol: schema nodes, typed values, and stream items.

use vstd::prelude::*;

use crate::archive_metadata::MetadataEvent;

verus! {

/// Width of the encoded variables of a stream.
#[derive(Clone, Copy, Debug, PartialEq, Eq, Structural)]
pub enum KvIrEncoding {
    FourByte,
    EightByte,
}

/// Magic number that opens a stream.
pub open spec fn magic_number(encoding: KvIrEncoding) -> Seq<u8> {
    match encoding {
        KvIrEncoding::FourByte => seq![0xfdu8, 0x2f, 0xb5, 0x29],
        KvIrEncoding::EightByte => seq![0xfdu8, 0x2f, 0xb5, 0x30],
    }
}

/// The encoding that a magic number names.
pub open spec fn encoding_of_magic(bytes: Seq<u8>) -> Option<KvIrEncoding> {
    if bytes == magic_number(KvIrEncoding::FourByte) {
        Some(KvIrEncoding::FourByte)
    } else if bytes == magic_number(KvIrEncoding::EightByte) {
        Some(KvIrEncoding::EightByte)
    } else {
        None
    }
}

impl KvIrEncoding {
    /// Recognizes exactly the four bytes of a magic number.
    pub fn from_magic_number(bytes: &[u8]) -> (encoding: Option<KvIrEncoding>)
        ensures
            encoding == encoding_of_magic(bytes@),
    {
        if bytes.len() == 4 && bytes[0] == 0xfd && bytes[1] == 0x2f && bytes[2] == 0xb5 {
            if bytes[3] == 0x29 {
                assert(bytes@ =~= magic_number(KvIrEncoding::FourByte));
                return Some(KvIrEncoding::FourByte);
            }
            if bytes[3] == 0x30 {
                assert(bytes@ =~= magic_number(KvIrEncoding::EightByte));
                assert(magic_number(KvIrEncoding::FourByte)[3] == 0x29);
                return Some(KvIrEncoding::EightByte);
            }
        }
        assert(magic_number(KvIrEncoding::FourByte).len() == 4);
        assert(magic_number(KvIrEncoding::EightByte).len() == 4);
        assert(magic_number(KvIrEncoding::FourByte)[0] == 0xfd);
        assert(magic_number(KvIrEncoding::EightByte)[0] == 0xfd);
        assert(magic_number(KvIrEncoding::FourByte)[1] == 0x2f);
        assert(magic_number(KvIrEncoding::EightByte)[1] == 0x2f);
        assert(magic_number(KvIrEncoding::FourByte)[2] == 0xb5);
        assert(magic_number(KvIrEncoding::EightByte)[2] == 0xb5);
        assert(magic_number(KvIrEncoding::FourByte)[3] == 0x29);
        assert(magic_number(KvIrEncoding::EightByte)[3] == 0x30);
        None
    }
}

/// Namespace of a schema tree.
#[derive(Clone, Copy, Debug, PartialEq, Eq, Structural)]
pub enum KvIrNamespace {
    AutoGenerated,
    UserGenerated,
}

impl KvIrNamespace {
    /// Human-readable description.
    pub fn description(self) -> (text: &'static str)
        ensures
            text@ == (match self {
                KvIrNamespace::AutoGenerated => "auto-generated"@,
                KvIrNamespace::UserGenerated => "user-generated"@,
            }),
    {
        match self {
            KvIrNamespace::AutoGenerated => "auto-generated",
            KvIrNamespace::UserGenerated => "user-generated",
        }
    }
}

/// Type of a schema node.
#[derive(Clone, Copy, Debug, PartialEq, Eq, Structural)]
pub enum KvIrNodeType {
    Integer,
    Float,
    Boolean,
    String,
    UnstructuredArray,
    Object,
}

/// One encoded variable of a text.
#[derive(Clone, Copy, Debug, PartialEq, Eq, Structural)]
pub enum KvIrEncodedVariable {
    FourByte(i32),
    EightByte(i64),
}

/// A text whose variables are kept apart from its constant part, the logtype.
#[derive(Clone, Copy, Debug)]
pub struct KvIrEncodedText<'a> {
    pub encoding: KvIrEncoding,
    pub encoded_variables: &'a [KvIrEncodedVariable],
    pub dictionary_variables: &'a [Vec<u8>],
    pub logtype: &'a [u8],
}

/// One typed value.
#[derive(Clone, Copy, Debug)]
pub enum KvIrValueKind<'a> {
    Integer(i64),
    /// A binary64 value by its bits, and its decimal spelling with nine fractional digits.
    Float { bits: u64, fixed_nine: &'a [u8] },
    Boolean(bool),
    String(&'a [u8]),
    EncodedText(KvIrEncodedText<'a>),
    Null,
    EmptyObject,
}

/// One value of an event at its schema node.
#[derive(Clone, Copy, Debug)]
pub struct KvIrPair<'a> {
    pub namespace: KvIrNamespace,
    pub node_id: u32,
    pub value: KvIrValueKind<'a>,
}

/// One node of a validated schema tree; the root has no parent.
#[derive(Clone, Copy, Debug)]
pub struct KvIrSchemaEntry<'a> {
    pub parent_id: Option<u32>,
    pub depth: u64,
    pub key: &'a [u8],
    pub node_type: KvIrNodeType,
}

/// One log event with the schema trees it refers to.
#[derive(Clone, Copy, Debug)]
pub struct KvIrLogEvent<'a> {
    pub pairs: &'a [KvIrPair<'a>],
    pub auto_schema: &'a [KvIrSchemaEntry<'a>],
    pub user_schema: &'a [KvIrSchemaEntry<'a>],
    pub utc_offset_millis: i64,
    pub stream_index: u64,
    pub unit_index: u64,
    pub event_index: u64,
    pub input_offset: u64,
    pub unit_bytes: u64,
}

impl<'a> KvIrLogEvent<'a> {
    /// Schema tree of a namespace.
    pub open spec fn spec_schema(self, namespace: KvIrNamespace) -> Seq<KvIrSchemaEntry<'a>> {
        match namespace {
            KvIrNamespace::AutoGenerated => self.auto_schema@,
            KvIrNamespace::UserGenerated => self.user_schema@,
        }
    }

    /// Returns the schema tree of a namespace.
    pub fn schema(self, namespace: KvIrNamespace) -> (schema: &'a [KvIrSchemaEntry<'a>])
        ensures
            schema@ == self.spec_schema(namespace),
    {
        match namespace {
            KvIrNamespace::AutoGenerated => self.auto_schema,
            KvIrNamespace::UserGenerated => self.user_schema,
        }
    }
}

/// Declaration of one schema node.
#[derive(Clone, Copy, Debug)]
pub struct KvIrSchemaNode<'a> {
    pub namespace: KvIrNamespace,
    pub node_id: u32,
    pub parent_id: u32,
    pub depth: u64,
    pub key: &'a [u8],
    pub node_type: KvIrNodeType,
    pub stream_index: u64,
    pub unit_index: u64,
    pub input_offset: u64,
}

/// Start of a stream, with the events of its metadata.
#[derive(Clone, Copy, Debug)]
pub struct KvIrStreamHeader<'a> {
    pub stream_index: u64,
    pub input_offset: u64,
    pub metadata: &'a [MetadataEvent<'a>],
}

/// Change of the UTC offset.
#[derive(Clone, Copy, Debug, PartialEq, Eq, Structural)]
pub struct KvIrUtcOffsetChange {
    pub stream_index: u64,
    pub unit_index: u64,
    pub input_offset: u64,
}

/// End of a stream.
#[derive(Clone, Copy, Debug, PartialEq, Eq, Structural)]
pub struct KvIrStreamEnd {
    pub stream_index: u64,
    pub unit_index: u64,
    pub input_offset: u64,
    pub unit_bytes: u64,
}

/// One item of a decoded stream.
#[derive(Clone, Copy, Debug)]
pub enum KvIrItem<'a> {
    StreamStart(KvIrStreamHeader<'a>),
    SchemaNode(KvIrSchemaNode<'a>),
    LogEvent(KvIrLogEvent<'a>),
    UtcOffsetChange(KvIrUtcOffsetChange),
    StreamEnd(KvIrStreamEnd),
}

} // verus!
