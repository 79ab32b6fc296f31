//! Compiled paths to authoritative timestamp fields.
//!
//! Unescaped dots part the levels of a path and `\\.` denotes a literal dot. Other key escapes are
//! decoded once. The whole descriptor is kept as the range key.

use vstd::prelude::*;
use vstd::string::StringSliceAdditionalSpecFns;
use vstd::utf8::{encode_scalar, encode_utf8, is_scalar};

use crate::kv_ir::KvIrNamespace;
use crate::grammar::{is_high_surrogate, is_low_surrogate, surrogate_pair};
use crate::text::{bytes_equal, hex_digit, hex_quad, push_scalar, BACKSLASH, DOT};

verus! {

/// Limits applied while compiling one path.
#[derive(Clone, Copy, Debug, PartialEq, Eq, Structural)]
pub struct JsonTimestampPathLimits {
    pub descriptor_bytes: u64,
    pub components: u64,
    pub component_bytes: u64,
}

/// The conservative default limits.
pub open spec fn default_path_limits() -> JsonTimestampPathLimits {
    JsonTimestampPathLimits {
        descriptor_bytes: 0x1_0000,
        components: 256,
        component_bytes: 0x4000,
    }
}

impl JsonTimestampPathLimits {
    /// Creates a complete set of limits.
    pub fn new(max_descriptor_bytes: u64, max_components: u64, max_component_bytes: u64) -> (limits:
        Self)
        ensures
            limits == (JsonTimestampPathLimits {
                descriptor_bytes: max_descriptor_bytes,
                components: max_components,
                component_bytes: max_component_bytes,
            }),
    {
        JsonTimestampPathLimits {
            descriptor_bytes: max_descriptor_bytes,
            components: max_components,
            component_bytes: max_component_bytes,
        }
    }

    /// Returns the maximum bytes of a descriptor.
    pub fn max_descriptor_bytes(self) -> (limit: u64)
        ensures
            limit == self.descriptor_bytes,
    {
        self.descriptor_bytes
    }

    /// Returns the maximum decoded components.
    pub fn max_components(self) -> (limit: u64)
        ensures
            limit == self.components,
    {
        self.components
    }

    /// Returns the maximum bytes of one decoded component.
    pub fn max_component_bytes(self) -> (limit: u64)
        ensures
            limit == self.component_bytes,
    {
        self.component_bytes
    }
}

impl Default for JsonTimestampPathLimits {
    fn default() -> (limits: Self)
        ensures
            limits == default_path_limits(),
    {
        JsonTimestampPathLimits::new(0x1_0000, 256, 0x4000)
    }
}

/// Path resource protected by a limit.
#[derive(Clone, Copy, Debug, PartialEq, Eq, Structural)]
#[non_exhaustive]
pub enum JsonTimestampPathResource {
    DescriptorBytes,
    Components,
    ComponentBytes,
}

impl JsonTimestampPathResource {
    /// Human-readable description.
    pub fn description(self) -> (text: &'static str)
        ensures
            text@ == (match self {
                JsonTimestampPathResource::DescriptorBytes => "timestamp descriptor bytes"@,
                JsonTimestampPathResource::Components => "timestamp path components"@,
                JsonTimestampPathResource::ComponentBytes => "timestamp component bytes"@,
            }),
    {
        match self {
            JsonTimestampPathResource::DescriptorBytes => "timestamp descriptor bytes",
            JsonTimestampPathResource::Components => "timestamp path components",
            JsonTimestampPathResource::ComponentBytes => "timestamp component bytes",
        }
    }
}

/// Failure to compile a path.
#[derive(Clone, Copy, Debug, PartialEq, Eq, Structural)]
#[non_exhaustive]
pub enum JsonTimestampPathError {
    /// The descriptor or one dotted component is empty.
    EmptyComponent { byte_offset: usize },
    /// A backslash was not followed by a supported key escape.
    InvalidEscape { byte_offset: usize },
    /// A `\\u` escape was malformed or held an unpaired surrogate.
    InvalidUnicodeEscape { byte_offset: usize },
    /// An unescaped `*` component would be a wildcard.
    Wildcard { component_index: usize },
    /// The namespace cannot identify a field of direct JSON input.
    UnsupportedNamespace { namespace: u8 },
    /// A limit was exceeded.
    LimitExceeded { resource: JsonTimestampPathResource, actual: u64, limit: u64 },
}

/// Failure of an amount over its limit.
pub open spec fn path_limit(resource: JsonTimestampPathResource, actual: int, limit: u64) -> Result<
    (),
    JsonTimestampPathError,
> {
    if actual > limit {
        Err(JsonTimestampPathError::LimitExceeded { resource, actual: actual as u64, limit })
    } else {
        Ok(())
    }
}

/// The four hexadecimal digits at `at`, if they are there.
pub open spec fn path_quad(descriptor: Seq<u8>, at: int) -> Option<int> {
    if at + 4 > descriptor.len() {
        None
    } else {
        hex_quad(descriptor, at)
    }
}

/// Whether a byte may follow a backslash and then stands for a character of its own.
pub open spec fn is_key_escape(byte: u8) -> bool {
    byte == 0x2e || byte == 0x5c || byte == 0x22 || byte == 0x74 || byte == 0x72 || byte == 0x6e
        || byte == 0x62 || byte == 0x66 || byte == 0x7b || byte == 0x7d || byte == 0x28 || byte
        == 0x29 || byte == 0x3c || byte == 0x3e || byte == 0x2a || byte == 0x3f || byte == 0x40
        || byte == 0x24 || byte == 0x21 || byte == 0x23
}

/// Character that an escaped byte stands for.
pub open spec fn key_escape(byte: u8) -> int {
    if byte == 0x74 {
        0x09
    } else if byte == 0x72 {
        0x0d
    } else if byte == 0x6e {
        0x0a
    } else if byte == 0x62 {
        0x08
    } else if byte == 0x66 {
        0x0c
    } else {
        byte as int
    }
}

/// Offset after the escape at `at`, and the scalar it stands for.
pub open spec fn path_escape(descriptor: Seq<u8>, at: int) -> Result<
    (int, int),
    JsonTimestampPathError,
> {
    let invalid = JsonTimestampPathError::InvalidUnicodeEscape { byte_offset: at as usize };
    if at + 1 >= descriptor.len() {
        Err(JsonTimestampPathError::InvalidEscape { byte_offset: at as usize })
    } else if descriptor[at + 1] == 0x75 {
        match path_quad(descriptor, at + 2) {
            None => Err(invalid),
            Some(first) => if is_high_surrogate(first) {
                if at + 8 > descriptor.len() || descriptor[at + 6] != BACKSLASH || descriptor[at
                    + 7] != 0x75 {
                    Err(invalid)
                } else {
                    match path_quad(descriptor, at + 8) {
                        None => Err(invalid),
                        Some(second) => if is_low_surrogate(second) {
                            Ok((at + 12, surrogate_pair(first, second)))
                        } else {
                            Err(invalid)
                        },
                    }
                }
            } else if is_low_surrogate(first) {
                Err(invalid)
            } else {
                Ok((at + 6, first))
            },
        }
    } else if is_key_escape(descriptor[at + 1]) {
        Ok((at + 2, key_escape(descriptor[at + 1])))
    } else {
        Err(JsonTimestampPathError::InvalidEscape { byte_offset: at as usize })
    }
}

/// The components with one more, which was spelled `descriptor[start..end]`.
pub open spec fn with_component(
    descriptor: Seq<u8>,
    limits: JsonTimestampPathLimits,
    start: int,
    end: int,
    component: Seq<u8>,
    found: Seq<Seq<u8>>,
) -> Result<Seq<Seq<u8>>, JsonTimestampPathError> {
    if start == end {
        Err(JsonTimestampPathError::EmptyComponent { byte_offset: start as usize })
    } else if end == start + 1 && descriptor[start] == 0x2a {
        Err(JsonTimestampPathError::Wildcard { component_index: found.len() as usize })
    } else {
        match path_limit(
            JsonTimestampPathResource::Components,
            (found.len() + 1) as int,
            limits.components,
        ) {
            Err(error) => Err(error),
            Ok(_) => match path_limit(
                JsonTimestampPathResource::ComponentBytes,
                component.len() as int,
                limits.component_bytes,
            ) {
                Err(error) => Err(error),
                Ok(_) => Ok(found.push(component)),
            },
        }
    }
}

/// Components of a descriptor from `at` on, within a component that started at `start` and has been
/// decoded to `component` so far.
pub open spec fn components_from(
    descriptor: Seq<u8>,
    limits: JsonTimestampPathLimits,
    start: int,
    at: int,
    component: Seq<u8>,
    found: Seq<Seq<u8>>,
) -> Result<Seq<Seq<u8>>, JsonTimestampPathError>
    decreases descriptor.len() - at + 1,
{
    if at < 0 || at >= descriptor.len() {
        with_component(descriptor, limits, start, at, component, found)
    } else if descriptor[at] == DOT {
        match with_component(descriptor, limits, start, at, component, found) {
            Err(error) => Err(error),
            Ok(next) => components_from(
                descriptor,
                limits,
                at + 1,
                at + 1,
                Seq::empty(),
                next,
            ),
        }
    } else if descriptor[at] == BACKSLASH {
        match path_escape(descriptor, at) {
            Err(error) => Err(error),
            Ok((next, scalar)) => components_from(
                descriptor,
                limits,
                start,
                next,
                component + encode_scalar(scalar as u32),
                found,
            ),
        }
    } else {
        components_from(
            descriptor,
            limits,
            start,
            at + 1,
            component.push(descriptor[at]),
            found,
        )
    }
}

/// Components of a descriptor whose path starts at `start`.
pub open spec fn path_components(
    descriptor: Seq<u8>,
    start: int,
    limits: JsonTimestampPathLimits,
) -> Result<Seq<Seq<u8>>, JsonTimestampPathError> {
    components_from(descriptor, limits, start, start, Seq::empty(), Seq::empty())
}

/// A validated, decoded path to one authoritative scalar.
#[derive(Debug)]
pub struct JsonTimestampPath {
    descriptor: String,
    components: Vec<Vec<u8>>,
}

/// What a path says.
pub struct PathView {
    pub descriptor: Seq<char>,
    pub components: Seq<Seq<u8>>,
}

impl View for JsonTimestampPath {
    type V = PathView;

    closed spec fn view(&self) -> PathView {
        PathView {
            descriptor: self.descriptor@,
            components: self.components@.map_values(|component: Vec<u8>| component@),
        }
    }
}

/// What compiling a descriptor comes to, where the path starts at `start`.
pub open spec fn compiled_at(
    descriptor: Seq<char>,
    start: int,
    limits: JsonTimestampPathLimits,
) -> Result<PathView, JsonTimestampPathError> {
    match path_components(encode_utf8(descriptor), start, limits) {
        Ok(components) => Ok(PathView { descriptor, components }),
        Err(error) => Err(error),
    }
}

/// Whether a byte is the prefix of a namespace that is not the default one.
pub open spec fn is_namespace_prefix(byte: u8) -> bool {
    byte == 0x40 || byte == 0x24 || byte == 0x21 || byte == 0x23
}

/// What compiling a descriptor for direct JSON input comes to.
pub open spec fn compiled(descriptor: Seq<char>, limits: JsonTimestampPathLimits) -> Result<
    PathView,
    JsonTimestampPathError,
> {
    let bytes = encode_utf8(descriptor);
    match path_limit(
        JsonTimestampPathResource::DescriptorBytes,
        bytes.len() as int,
        limits.descriptor_bytes,
    ) {
        Err(error) => Err(error),
        Ok(_) => if bytes.len() > 0 && is_namespace_prefix(bytes[0]) {
            Err(JsonTimestampPathError::UnsupportedNamespace { namespace: bytes[0] })
        } else {
            compiled_at(descriptor, 0, limits)
        },
    }
}

/// Namespace that a descriptor selects, and where its path starts.
pub open spec fn selected_namespace(descriptor: Seq<u8>) -> (Option<KvIrNamespace>, int) {
    if descriptor.len() > 0 && descriptor[0] == 0x40 {
        (Some(KvIrNamespace::AutoGenerated), 1)
    } else if descriptor.len() > 0 && is_namespace_prefix(descriptor[0]) {
        (None, 1)
    } else {
        (Some(KvIrNamespace::UserGenerated), 0)
    }
}

/// What compiling a descriptor for key-value IR comes to.
pub open spec fn compiled_with_namespace(
    descriptor: Seq<char>,
    limits: JsonTimestampPathLimits,
) -> Result<(PathView, Option<KvIrNamespace>), JsonTimestampPathError> {
    let bytes = encode_utf8(descriptor);
    match path_limit(
        JsonTimestampPathResource::DescriptorBytes,
        bytes.len() as int,
        limits.descriptor_bytes,
    ) {
        Err(error) => Err(error),
        Ok(_) => {
            let (namespace, start) = selected_namespace(bytes);
            match compiled_at(descriptor, start, limits) {
                Err(error) => Err(error),
                Ok(path) => Ok((path, namespace)),
            }
        },
    }
}

fn check_path_limit(resource: JsonTimestampPathResource, actual: usize, limit: u64) -> (result:
    Result<(), JsonTimestampPathError>)
    ensures
        result == path_limit(resource, actual as int, limit),
{
    if actual as u64 > limit {
        Err(JsonTimestampPathError::LimitExceeded { resource, actual: actual as u64, limit })
    } else {
        Ok(())
    }
}

fn parse_hex_quad(descriptor: &[u8], at: usize) -> (result: Option<u32>)
    requires
        at <= descriptor@.len(),
    ensures
        match result {
            Some(value) => path_quad(descriptor@, at as int) == Some(value as int) && value
                <= 0xffff,
            None => path_quad(descriptor@, at as int) is None,
        },
{
    if descriptor.len() - at < 4 {
        return None;
    }
    match (
        hex_digit(descriptor[at]),
        hex_digit(descriptor[at + 1]),
        hex_digit(descriptor[at + 2]),
        hex_digit(descriptor[at + 3]),
    ) {
        (Some(a), Some(b), Some(c), Some(d)) => Some(
            a as u32 * 4096 + b as u32 * 256 + c as u32 * 16 + d as u32,
        ),
        _ => None,
    }
}

/// Reads the escape at `at`: the offset after it, and the scalar it stands for.
fn parse_path_escape(descriptor: &[u8], at: usize) -> (result: Result<
    (usize, u32),
    JsonTimestampPathError,
>)
    requires
        at < descriptor@.len(),
    ensures
        match result {
            Ok((next, scalar)) => path_escape(descriptor@, at as int) == Ok::<
                (int, int),
                JsonTimestampPathError,
            >((next as int, scalar as int)) && is_scalar(scalar) && at < next
                <= descriptor@.len(),
            Err(error) => path_escape(descriptor@, at as int) == Err::<
                (int, int),
                JsonTimestampPathError,
            >(error),
        },
{
    let invalid = JsonTimestampPathError::InvalidUnicodeEscape { byte_offset: at };
    assert(descriptor@.len() == descriptor.len());
    if descriptor.len() - at < 2 {
        return Err(JsonTimestampPathError::InvalidEscape { byte_offset: at });
    }
    let escaped = descriptor[at + 1];
    if escaped == 0x75 {
        let first = match parse_hex_quad(descriptor, at + 2) {
            Some(first) => first,
            None => {
                return Err(invalid);
            },
        };
        if 0xd800 <= first && first <= 0xdbff {
            if descriptor.len() - at < 8 || descriptor[at + 6] != BACKSLASH || descriptor[at + 7]
                != 0x75 {
                return Err(invalid);
            }
            let second = match parse_hex_quad(descriptor, at + 8) {
                Some(second) => second,
                None => {
                    return Err(invalid);
                },
            };
            if second < 0xdc00 || second > 0xdfff {
                return Err(invalid);
            }
            return Ok((at + 12, 0x1_0000 + (first - 0xd800) * 0x400 + (second - 0xdc00)));
        }
        if 0xdc00 <= first && first <= 0xdfff {
            return Err(invalid);
        }
        return Ok((at + 6, first));
    }
    match escaped {
        0x74 => Ok((at + 2, 0x09)),
        0x72 => Ok((at + 2, 0x0d)),
        0x6e => Ok((at + 2, 0x0a)),
        0x62 => Ok((at + 2, 0x08)),
        0x66 => Ok((at + 2, 0x0c)),
        0x2e | 0x5c | 0x22 | 0x7b | 0x7d | 0x28 | 0x29 | 0x3c | 0x3e | 0x2a | 0x3f | 0x40 | 0x24
        | 0x21 | 0x23 => Ok((at + 2, escaped as u32)),
        _ => Err(JsonTimestampPathError::InvalidEscape { byte_offset: at }),
    }
}

pub open spec fn component_views(components: Seq<Vec<u8>>) -> Seq<Seq<u8>> {
    components.map_values(|component: Vec<u8>| component@)
}

/// Adds the component that was spelled `descriptor[start..end]`.
fn push_component(
    descriptor: &[u8],
    limits: JsonTimestampPathLimits,
    start: usize,
    end: usize,
    component: Vec<u8>,
    components: &mut Vec<Vec<u8>>,
) -> (result: Result<(), JsonTimestampPathError>)
    requires
        start <= end <= descriptor@.len(),
        old(components)@.len() < usize::MAX,
    ensures
        ({
            let expected = with_component(
                descriptor@,
                limits,
                start as int,
                end as int,
                component@,
                component_views(old(components)@),
            );
            match result {
                Ok(_) => expected == Ok::<Seq<Seq<u8>>, JsonTimestampPathError>(
                    component_views(final(components)@),
                ) && final(components)@.len() == old(components)@.len() + 1 && start < end,
                Err(error) => expected == Err::<Seq<Seq<u8>>, JsonTimestampPathError>(error),
            }
        }),
{
    if start == end {
        return Err(JsonTimestampPathError::EmptyComponent { byte_offset: start });
    }
    if end - start == 1 && descriptor[start] == 0x2a {
        return Err(JsonTimestampPathError::Wildcard { component_index: components.len() });
    }
    check_path_limit(
        JsonTimestampPathResource::Components,
        components.len() + 1,
        limits.components,
    )?;
    check_path_limit(
        JsonTimestampPathResource::ComponentBytes,
        component.len(),
        limits.component_bytes,
    )?;
    let ghost before = components@;
    components.push(component);
    assert(component_views(components@) =~= component_views(before).push(component@));
    Ok(())
}

fn parse_components(descriptor: &str, start: usize, limits: JsonTimestampPathLimits) -> (result:
    Result<JsonTimestampPath, JsonTimestampPathError>)
    requires
        start <= descriptor.spec_bytes().len(),
    ensures
        match result {
            Ok(path) => compiled_at(descriptor@, start as int, limits) == Ok::<
                PathView,
                JsonTimestampPathError,
            >(path@),
            Err(error) => compiled_at(descriptor@, start as int, limits) == Err::<
                PathView,
                JsonTimestampPathError,
            >(error),
        },
{
    let bytes = descriptor.as_bytes();
    let mut components: Vec<Vec<u8>> = Vec::new();
    let mut component: Vec<u8> = Vec::new();
    let mut component_start: usize = start;
    let mut at: usize = start;
    let ghost target = path_components(bytes@, start as int, limits);
    assert(component_views(components@) =~= Seq::<Seq<u8>>::empty());
    assert(bytes@.len() == bytes.len());
    while at < bytes.len()
        invariant
            bytes@ == descriptor.spec_bytes(),
            bytes@.len() == bytes.len(),
            component_start <= at <= bytes@.len(),
            2 * components@.len() <= component_start,
            components_from(
                bytes@,
                limits,
                component_start as int,
                at as int,
                component@,
                component_views(components@),
            ) == target,
            target == path_components(bytes@, start as int, limits),
        decreases bytes@.len() - at,
    {
        if bytes[at] == DOT {
            push_component(bytes, limits, component_start, at, component, &mut components)?;
            component = Vec::new();
            at += 1;
            component_start = at;
        } else if bytes[at] == BACKSLASH {
            let (next, scalar) = parse_path_escape(bytes, at)?;
            push_scalar(&mut component, scalar);
            at = next;
        } else {
            component.push(bytes[at]);
            at += 1;
        }
    }
    push_component(bytes, limits, component_start, at, component, &mut components)?;
    Ok(JsonTimestampPath { descriptor: descriptor.to_owned(), components })
}

impl JsonTimestampPath {
    /// Compiles a descriptor with the default limits.
    pub fn parse(descriptor: &str) -> (result: Result<Self, JsonTimestampPathError>)
        ensures
            match result {
                Ok(path) => compiled(descriptor@, default_path_limits()) == Ok::<
                    PathView,
                    JsonTimestampPathError,
                >(path@),
                Err(error) => compiled(descriptor@, default_path_limits()) == Err::<
                    PathView,
                    JsonTimestampPathError,
                >(error),
            },
    {
        JsonTimestampPath::parse_with_limits(descriptor, JsonTimestampPathLimits::default())
    }

    /// Compiles a descriptor with the given limits.
    pub fn parse_with_limits(descriptor: &str, limits: JsonTimestampPathLimits) -> (result: Result<
        Self,
        JsonTimestampPathError,
    >)
        ensures
            match result {
                Ok(path) => compiled(descriptor@, limits) == Ok::<PathView, JsonTimestampPathError>(
                    path@,
                ),
                Err(error) => compiled(descriptor@, limits) == Err::<
                    PathView,
                    JsonTimestampPathError,
                >(error),
            },
    {
        let bytes = descriptor.as_bytes();
        check_path_limit(
            JsonTimestampPathResource::DescriptorBytes,
            bytes.len(),
            limits.descriptor_bytes,
        )?;
        if bytes.len() > 0 {
            let first = bytes[0];
            if first == 0x40 || first == 0x24 || first == 0x21 || first == 0x23 {
                return Err(JsonTimestampPathError::UnsupportedNamespace { namespace: first });
            }
        }
        parse_components(descriptor, 0, limits)
    }

    /// Returns the whole descriptor, which is the range key.
    pub fn descriptor(&self) -> (descriptor: &str)
        ensures
            descriptor@ == self@.descriptor,
    {
        self.descriptor.as_str()
    }

    /// Returns the decoded components from root to leaf, as UTF-8 bytes.
    pub fn components(&self) -> (components: &[Vec<u8>])
        ensures
            component_views(components@) == self@.components,
    {
        self.components.as_slice()
    }

    /// Returns whether a key is the component at an index.
    pub fn matches(&self, component_index: usize, key: &[u8]) -> (result: bool)
        ensures
            result == (component_index < self@.components.len()
                && self@.components[component_index as int] == key@),
    {
        component_index < self.components.len() && bytes_equal(
            self.components[component_index].as_slice(),
            key,
        )
    }
}

/// Compiles a descriptor for key-value IR: the path, and the namespace it selects.
pub fn parse_with_namespace(descriptor: &str, limits: JsonTimestampPathLimits) -> (result: Result<
    (JsonTimestampPath, Option<KvIrNamespace>),
    JsonTimestampPathError,
>)
    ensures
        match result {
            Ok((path, namespace)) => compiled_with_namespace(descriptor@, limits) == Ok::<
                (PathView, Option<KvIrNamespace>),
                JsonTimestampPathError,
            >((path@, namespace)),
            Err(error) => compiled_with_namespace(descriptor@, limits) == Err::<
                (PathView, Option<KvIrNamespace>),
                JsonTimestampPathError,
            >(error),
        },
{
    let bytes = descriptor.as_bytes();
    check_path_limit(
        JsonTimestampPathResource::DescriptorBytes,
        bytes.len(),
        limits.descriptor_bytes,
    )?;
    let mut namespace = Some(KvIrNamespace::UserGenerated);
    let mut start: usize = 0;
    if bytes.len() > 0 {
        let first = bytes[0];
        if first == 0x40 {
            namespace = Some(KvIrNamespace::AutoGenerated);
            start = 1;
        } else if first == 0x24 || first == 0x21 || first == 0x23 {
            namespace = None;
            start = 1;
        }
    }
    let path = parse_components(descriptor, start, limits)?;
    Ok((path, namespace))
}

} // verus!
