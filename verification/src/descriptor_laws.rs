//! What the descriptor of a timestamp path names.

use vstd::prelude::*;

use crate::escape_laws::{escape_length, is_unicode_scalar, names_scalar};
use crate::json_laws::lemma_ascii_scalar;
use crate::kv_ir::KvIrNamespace;
use crate::timestamp_path::{
    compiled, compiled_with_namespace, components_from, key_escape, path_components, path_escape,
    JsonTimestampPathError, JsonTimestampPathLimits,
};

verus! {

/// A byte of a key as it is written in a descriptor: with a backslash before it where it would
/// mean something else.
pub open spec fn written_byte(byte: u8) -> Seq<u8> {
    if byte == 0x2e || byte == 0x5c || byte == 0x2a {
        seq![0x5cu8, byte]
    } else {
        seq![byte]
    }
}

/// A key as it is written in a descriptor.
pub open spec fn written_key(key: Seq<u8>) -> Seq<u8>
    decreases key.len(),
{
    if key.len() == 0 {
        Seq::empty()
    } else {
        written_byte(key[0]) + written_key(key.drop_first())
    }
}

/// Keys as they are written in a descriptor: with points between them.
pub open spec fn written_path(keys: Seq<Seq<u8>>) -> Seq<u8>
    decreases keys.len(),
{
    if keys.len() == 0 {
        Seq::empty()
    } else if keys.len() == 1 {
        written_key(keys[0])
    } else {
        written_key(keys[0]) + seq![0x2eu8] + written_path(keys.drop_first())
    }
}

proof fn lemma_written_key(key: Seq<u8>)
    ensures
        key.len() > 0 ==> written_key(key).len() > 0,
        written_key(key) != seq![0x2au8],
    decreases key.len(),
{
    if key.len() > 0 {
        let text = written_key(key);
        assert(text[0] == written_byte(key[0])[0]);
        assert(seq![0x2au8][0] == 0x2a);
    } else {
        assert(written_key(key).len() == 0);
    }
}

/// The rest of a key is read as what it was written from.
proof fn lemma_key_read(
    descriptor: Seq<u8>,
    limits: JsonTimestampPathLimits,
    start: int,
    at: int,
    before: Seq<u8>,
    key: Seq<u8>,
    found: Seq<Seq<u8>>,
)
    requires
        0 <= start <= at,
        at + written_key(key).len() <= descriptor.len(),
        descriptor.subrange(at, at + written_key(key).len()) == written_key(key),
    ensures
        components_from(descriptor, limits, start, at, before, found) == components_from(
            descriptor,
            limits,
            start,
            at + written_key(key).len(),
            before + key,
            found,
        ),
    decreases key.len(),
{
    let text = written_key(key);
    if key.len() == 0 {
        assert(before + key =~= before);
    } else {
        let byte = key[0];
        let own = written_byte(byte);
        let rest = key.drop_first();
        let next = at + own.len();
        let part = descriptor.subrange(at, at + text.len());
        assert(descriptor.subrange(next, at + text.len()) =~= part.skip(own.len() as int));
        assert(text.skip(own.len() as int) =~= written_key(rest));
        assert(part[0] == descriptor[at]);
        assert(text[0] == own[0]);
        if own.len() == 2 {
            assert(part[1] == descriptor[at + 1]);
            assert(text[1] == own[1]);
            lemma_ascii_scalar(byte);
            assert(key_escape(byte) == byte);
            assert(before + seq![byte] =~= before.push(byte));
        }
        lemma_key_read(descriptor, limits, start, next, before.push(byte), rest, found);
        assert(before.push(byte) + rest =~= before + key);
    }
}

/// Keys that are written with points between them, and with a backslash before what would mean
/// something else, are the components of the path, wherever the limits have room for them.
pub proof fn written_paths_are_read(
    descriptor: Seq<u8>,
    limits: JsonTimestampPathLimits,
    start: int,
    keys: Seq<Seq<u8>>,
    found: Seq<Seq<u8>>,
)
    requires
        keys.len() > 0,
        0 <= start <= descriptor.len(),
        descriptor.skip(start) == written_path(keys),
        forall|i: int|
            0 <= i < keys.len() ==> 0 < (#[trigger] keys[i]).len() <= limits.component_bytes,
        found.len() + keys.len() <= limits.components,
    ensures
        components_from(descriptor, limits, start, start, Seq::empty(), found) == Ok::<
            Seq<Seq<u8>>,
            JsonTimestampPathError,
        >(found + keys),
    decreases keys.len(),
{
    let key = keys[0];
    let text = written_key(key);
    let end = start + text.len();
    let whole = written_path(keys);
    lemma_written_key(key);
    assert(descriptor.skip(start).len() == whole.len());
    assert(whole.len() >= text.len());
    assert(descriptor.subrange(start, end) =~= descriptor.skip(start).take(text.len() as int));
    assert(whole.take(text.len() as int) =~= text);
    lemma_key_read(descriptor, limits, start, start, Seq::empty(), key, found);
    assert(Seq::<u8>::empty() + key =~= key);
    if text.len() == 1 {
        assert(descriptor.subrange(start, end)[0] == descriptor[start]);
        assert(text =~= seq![descriptor[start]]);
    }
    if keys.len() == 1 {
        assert(found + keys =~= found.push(key));
    } else {
        let rest = keys.drop_first();
        assert(descriptor.skip(start)[text.len() as int] == descriptor[end]);
        assert(whole[text.len() as int] == 0x2e);
        assert(descriptor.skip(end + 1) =~= descriptor.skip(start).skip(text.len() as int + 1));
        assert(whole.skip(text.len() as int + 1) =~= written_path(rest));
        assert forall|i: int| 0 <= i < rest.len() implies 0 < (#[trigger] rest[i]).len()
            <= limits.component_bytes by {
            assert(rest[i] == keys[i + 1]);
        }
        written_paths_are_read(descriptor, limits, end + 1, rest, found.push(key));
        assert(found.push(key) + rest =~= found + keys);
    }
}

/// The unicode escapes of a descriptor name their scalar value, as those of a JSON string do.
pub proof fn descriptor_escapes_name_their_scalar(descriptor: Seq<u8>, at: int, scalar: int)
    requires
        is_unicode_scalar(scalar),
        names_scalar(descriptor, at, scalar),
    ensures
        path_escape(descriptor, at) == Ok::<(int, int), JsonTimestampPathError>(
            (at + escape_length(scalar), scalar),
        ),
{
    crate::escape_laws::lemma_scalar_quads(descriptor, at, scalar);
}

/// A descriptor selects the auto-generated namespace where it begins with an at sign, no namespace
/// where it begins with another of the reserved signs, and otherwise the user-generated one; direct
/// JSON has no namespaces to select.
pub proof fn descriptors_select_their_namespace(
    descriptor: Seq<char>,
    limits: JsonTimestampPathLimits,
)
    ensures
        ({
            let bytes = vstd::utf8::encode_utf8(descriptor);
            let sign = if bytes.len() > 0 {
                bytes[0]
            } else {
                0
            };
            let is_reserved = sign == 0x40 || sign == 0x24 || sign == 0x21 || sign == 0x23;
            &&& compiled_with_namespace(descriptor, limits) matches Ok((path, namespace)) ==> {
                &&& path.descriptor == descriptor
                &&& namespace == (if sign == 0x40 {
                    Some(KvIrNamespace::AutoGenerated)
                } else if is_reserved {
                    None
                } else {
                    Some(KvIrNamespace::UserGenerated)
                })
                &&& path_components(
                    bytes,
                    if is_reserved {
                        1
                    } else {
                        0
                    },
                    limits,
                ) == Ok::<Seq<Seq<u8>>, JsonTimestampPathError>(path.components)
            }
            &&& compiled(descriptor, limits) matches Ok(path) ==> !is_reserved && path.descriptor
                == descriptor && path_components(bytes, 0, limits) == Ok::<
                Seq<Seq<u8>>,
                JsonTimestampPathError,
            >(path.components)
            &&& is_reserved && bytes.len() <= limits.descriptor_bytes ==> compiled(
                descriptor,
                limits,
            ) == Err::<crate::timestamp_path::PathView, JsonTimestampPathError>(
                JsonTimestampPathError::UnsupportedNamespace { namespace: sign },
            )
        }),
{
}

} // verus!
