//! Transformations of source filenames for archive metadata.
//!
//! A path is a sequence of bytes in which `/` separates components. Nothing here looks at a
//! filesystem: whoever wants canonical paths makes both the path and the prefix canonical first.

use vstd::prelude::*;
use vstd::utf8::valid_utf8;

use crate::text::{append_slice, bytes_equal, utf8_text, SLASH};
use vstd::slice::slice_subrange;
use vstd::slice::slice_to_vec;
use vstd::string::StringSliceAdditionalSpecFns;

verus! {

/// One lexical component of a path.
#[derive(Clone, Copy, Debug)]
pub enum LexicalComponent<'a> {
    Root,
    Name(&'a [u8]),
    TrailingSeparator,
}

/// One lexical component by its meaning.
pub enum ComponentView {
    Root,
    Name(Seq<u8>),
    TrailingSeparator,
}

impl<'a> View for LexicalComponent<'a> {
    type V = ComponentView;

    open spec fn view(&self) -> ComponentView {
        match *self {
            LexicalComponent::Root => ComponentView::Root,
            LexicalComponent::Name(name) => ComponentView::Name(name@),
            LexicalComponent::TrailingSeparator => ComponentView::TrailingSeparator,
        }
    }
}

pub open spec fn component_list(components: Seq<LexicalComponent<'_>>) -> Seq<ComponentView> {
    components.map_values(|component: LexicalComponent<'_>| component@)
}

/// Offset of the first byte at or after `at` that is no separator.
pub open spec fn after_separators(path: Seq<u8>, at: int) -> int
    decreases path.len() - at,
{
    if 0 <= at < path.len() && path[at] == SLASH {
        after_separators(path, at + 1)
    } else {
        at
    }
}

/// Offset of the first separator at or after `at`, or the end.
pub open spec fn name_end(path: Seq<u8>, at: int) -> int
    decreases path.len() - at,
{
    if 0 <= at < path.len() && path[at] != SLASH {
        name_end(path, at + 1)
    } else {
        at
    }
}

pub proof fn lemma_after_separators(path: Seq<u8>, at: int)
    ensures
        at <= after_separators(path, at),
        0 <= at <= path.len() ==> after_separators(path, at) <= path.len(),
        0 <= after_separators(path, at) < path.len() ==> path[after_separators(path, at)] != SLASH,
    decreases path.len() - at,
{
    if 0 <= at < path.len() && path[at] == SLASH {
        lemma_after_separators(path, at + 1);
    }
}

pub proof fn lemma_name_end(path: Seq<u8>, at: int)
    ensures
        at <= name_end(path, at),
        0 <= at <= path.len() ==> name_end(path, at) <= path.len(),
        0 <= at < path.len() && path[at] != SLASH ==> at < name_end(path, at),
        0 <= name_end(path, at) < path.len() ==> path[name_end(path, at)] == SLASH,
    decreases path.len() - at,
{
    if 0 <= at < path.len() && path[at] != SLASH {
        lemma_name_end(path, at + 1);
    }
}

/// The names at or after `at`, where one starts or the path ends.
pub open spec fn names_from(path: Seq<u8>, at: int) -> Seq<ComponentView>
    decreases path.len() - at,
{
    if at < 0 || at >= path.len() {
        Seq::empty()
    } else {
        let end = name_end(path, at);
        let next = after_separators(path, end);
        if !(at < next <= path.len()) {
            Seq::empty()
        } else {
            seq![ComponentView::Name(path.subrange(at, end))] + names_from(path, next)
        }
    }
}

/// The components of a path: the root, the names, and a separator at the end where it counts.
pub open spec fn components_of(path: Seq<u8>, retain_trailing_separator: bool) -> Seq<
    ComponentView,
> {
    let is_rooted = path.len() > 0 && path[0] == SLASH;
    (if is_rooted {
        seq![ComponentView::Root]
    } else {
        Seq::empty()
    }) + names_from(path, after_separators(path, 0)) + (if retain_trailing_separator && path.len()
        > 0 && path.last() == SLASH {
        seq![ComponentView::TrailingSeparator]
    } else {
        Seq::empty()
    })
}

/// A path with one component more.
pub open spec fn with_component(path: Seq<u8>, component: ComponentView) -> Seq<u8> {
    match component {
        ComponentView::Root => path.take(1),
        ComponentView::Name(name) => if path.len() > 0 && path.last() == SLASH {
            path + name
        } else {
            path.push(SLASH) + name
        },
        ComponentView::TrailingSeparator => if path.len() > 0 && path.last() == SLASH {
            path
        } else {
            path.push(SLASH)
        },
    }
}

/// Components joined beneath `/`.
pub open spec fn joined(components: Seq<ComponentView>) -> Seq<u8>
    decreases components.len(),
{
    if components.len() == 0 {
        seq![SLASH]
    } else {
        with_component(joined(components.drop_last()), components.last())
    }
}

/// A path beneath a prefix of whole components, if it is beneath it.
pub open spec fn beneath(path: Seq<u8>, prefix: Seq<u8>) -> Option<Seq<u8>> {
    let all = components_of(path, true);
    let first = components_of(prefix, false);
    if first.len() <= all.len() && all.take(first.len() as int) == first {
        Some(joined(all.skip(first.len() as int)))
    } else {
        None
    }
}

/// A path without one leading separator.
pub open spec fn without_leading_slash(path: Seq<u8>) -> Seq<u8> {
    if path.len() > 0 && path[0] == SLASH {
        path.skip(1)
    } else {
        path
    }
}

/// What a transform does.
pub struct TransformView {
    pub prefix: Option<Seq<u8>>,
    pub remove_leading_slash: bool,
}

/// The transformed path; nothing where the prefix does not match.
pub open spec fn transformed(view: TransformView, path: Seq<u8>) -> Option<Seq<u8>> {
    let rest = match view.prefix {
        None => Some(path),
        Some(prefix) => beneath(path, prefix),
    };
    match rest {
        None => None,
        Some(rest) => Some(
            if view.remove_leading_slash {
                without_leading_slash(rest)
            } else {
                rest
            },
        ),
    }
}

/// Transformation of source filenames.
///
/// Prefix removal compares whole components, and puts the rest beneath `/`. Removing the leading
/// separator happens last and removes exactly one byte.
#[derive(Debug)]
pub struct SourcePathTransform {
    prefix_to_remove: Option<Vec<u8>>,
    remove_leading_slash: bool,
}

impl View for SourcePathTransform {
    type V = TransformView;

    closed spec fn view(&self) -> TransformView {
        TransformView {
            prefix: match self.prefix_to_remove {
                Some(prefix) => Some(prefix@),
                None => None,
            },
            remove_leading_slash: self.remove_leading_slash,
        }
    }
}

/// Failure of a transformation.
#[derive(Debug)]
#[non_exhaustive]
pub enum SourcePathTransformError {
    /// The prefix does not match whole components.
    PrefixMismatch { source_path: Vec<u8>, prefix: Vec<u8> },
}

/// Failure where a path becomes a text of the archive.
#[derive(Debug)]
#[non_exhaustive]
pub enum SourcePathContextError {
    /// The transformation failed.
    Transform(SourcePathTransformError),
    /// The transformed path is not UTF-8.
    NonUtf8 { path: Vec<u8> },
}

/// Where the records of an archive come from.
#[derive(Debug)]
pub struct ArchiveSourceContext {
    canonical_filename: String,
    archive_creator_id: String,
}

impl ArchiveSourceContext {
    /// Characters of the filename.
    pub closed spec fn filename(&self) -> Seq<char> {
        self.canonical_filename@
    }

    /// Characters of the creator's name.
    pub closed spec fn creator(&self) -> Seq<char> {
        self.archive_creator_id@
    }

    /// Creates a context.
    pub fn new(canonical_filename: String, archive_creator_id: String) -> (context: Self)
        ensures
            context.filename() == canonical_filename@,
            context.creator() == archive_creator_id@,
    {
        ArchiveSourceContext { canonical_filename, archive_creator_id }
    }

    /// Returns the filename.
    pub fn canonical_filename(&self) -> (text: &str)
        ensures
            text@ == self.filename(),
    {
        self.canonical_filename.as_str()
    }

    /// Returns the creator's name.
    pub fn archive_creator_id(&self) -> (text: &str)
        ensures
            text@ == self.creator(),
    {
        self.archive_creator_id.as_str()
    }
}

/// Returns the first offset that holds no separator.
fn skip_separators(path: &[u8], position: usize) -> (next: usize)
    requires
        position <= path@.len(),
    ensures
        next == after_separators(path@, position as int),
        position <= next <= path@.len(),
{
    let mut next: usize = position;
    while next < path.len() && path[next] == SLASH
        invariant
            position <= next <= path@.len(),
            after_separators(path@, next as int) == after_separators(path@, position as int),
        decreases path@.len() - next,
    {
        next += 1;
    }
    next
}

/// Splits a path into its components.
fn lexical_components(path: &[u8], retain_trailing_separator: bool) -> (components: Vec<
    LexicalComponent<'_>,
>)
    ensures
        component_list(components@) == components_of(path@, retain_trailing_separator),
{
    let mut components: Vec<LexicalComponent<'_>> = Vec::new();
    let ghost root = if path@.len() > 0 && path@[0] == SLASH {
        seq![ComponentView::Root]
    } else {
        Seq::empty()
    };
    if path.len() > 0 && path[0] == SLASH {
        components.push(LexicalComponent::Root);
    }
    let mut position: usize = skip_separators(path, 0);
    let ghost names = names_from(path@, position as int);
    proof {
        lemma_after_separators(path@, 0);
        assert(component_list(components@) =~= root);
        assert(root + names =~= component_list(components@) + names);
    }
    while position < path.len()
        invariant
            position <= path@.len(),
            position < path@.len() ==> path@[position as int] != SLASH,
            component_list(components@) + names_from(path@, position as int) == root + names,
        decreases path@.len() - position,
    {
        let start = position;
        let ghost before = component_list(components@);
        while position < path.len() && path[position] != SLASH
            invariant
                start <= position <= path@.len(),
                name_end(path@, position as int) == name_end(path@, start as int),
            decreases path@.len() - position,
        {
            position += 1;
        }
        let end = position;
        proof {
            lemma_name_end(path@, start as int);
            lemma_after_separators(path@, end as int);
        }
        components.push(LexicalComponent::Name(slice_subrange(path, start, end)));
        position = skip_separators(path, end);
        proof {
            let name = ComponentView::Name(path@.subrange(start as int, end as int));
            assert(component_list(components@) =~= before.push(name));
            assert(component_list(components@) + names_from(path@, position as int) =~= before
                + names_from(path@, start as int));
        }
    }
    assert(component_list(components@) =~= root + names);
    if retain_trailing_separator && path.len() > 0 && path[path.len() - 1] == SLASH {
        let ghost before = component_list(components@);
        components.push(LexicalComponent::TrailingSeparator);
        assert(component_list(components@) =~= before.push(ComponentView::TrailingSeparator));
    }
    assert(component_list(components@) =~= components_of(path@, retain_trailing_separator));
    components
}

/// Returns whether two components are the same.
fn components_equal(first: LexicalComponent<'_>, second: LexicalComponent<'_>) -> (equal: bool)
    ensures
        equal == (first@ == second@),
{
    match (first, second) {
        (LexicalComponent::Root, LexicalComponent::Root) => true,
        (LexicalComponent::TrailingSeparator, LexicalComponent::TrailingSeparator) => true,
        (LexicalComponent::Name(left), LexicalComponent::Name(right)) => bytes_equal(left, right),
        _ => false,
    }
}

/// Returns the path beneath a prefix, if it is beneath it.
fn remove_prefix(source_path: &[u8], prefix: &[u8]) -> (result: Option<Vec<u8>>)
    ensures
        match result {
            Some(path) => beneath(source_path@, prefix@) == Some(path@),
            None => beneath(source_path@, prefix@) is None,
        },
{
    let all = lexical_components(source_path, true);
    let first = lexical_components(prefix, false);
    let ghost all_view = component_list(all@);
    let ghost first_view = component_list(first@);
    if first.len() > all.len() {
        return None;
    }
    let mut at: usize = 0;
    while at < first.len()
        invariant
            at <= first@.len() <= all@.len(),
            all_view == component_list(all@),
            first_view == component_list(first@),
            all_view == components_of(source_path@, true),
            first_view == components_of(prefix@, false),
            forall|i: int| 0 <= i < at ==> #[trigger] all_view[i] == first_view[i],
        decreases first@.len() - at,
    {
        if !components_equal(all[at], first[at]) {
            assert(all_view[at as int] != first_view[at as int]);
            assert(all_view.take(first_view.len() as int)[at as int] != first_view[at as int]);
            return None;
        }
        at += 1;
    }
    assert(all_view.take(first_view.len() as int) =~= first_view);
    let ghost rest = all_view.skip(first_view.len() as int);
    let start = first.len();
    let mut output: Vec<u8> = Vec::new();
    output.push(SLASH);
    proof {
        assert(rest.take(0) =~= Seq::<ComponentView>::empty());
        assert(output@ =~= joined(rest.take(0)));
    }
    while at < all.len()
        invariant
            start <= at <= all@.len(),
            start == first_view.len(),
            all_view == component_list(all@),
            rest == all_view.skip(start as int),
            output@ == joined(rest.take(at - start)),
            output@.len() > 0,
        decreases all@.len() - at,
    {
        let ghost before = output@;
        proof {
            let done = rest.take(at + 1 - start);
            assert(done.drop_last() =~= rest.take(at - start));
            assert(done.last() == all@[at as int]@);
        }
        match all[at] {
            LexicalComponent::Root => {
                output.truncate(1);
                assert(output@ =~= before.take(1));
            },
            LexicalComponent::Name(name) => {
                if output[output.len() - 1] != SLASH {
                    output.push(SLASH);
                }
                append_slice(&mut output, name);
            },
            LexicalComponent::TrailingSeparator => {
                if output[output.len() - 1] != SLASH {
                    output.push(SLASH);
                }
            },
        }
        at += 1;
    }
    assert(rest.take(all@.len() - start) =~= rest);
    Some(output)
}

/// Returns a path without one leading separator.
fn remove_one_leading_slash(path: Vec<u8>) -> (result: Vec<u8>)
    ensures
        result@ == without_leading_slash(path@),
{
    if path.len() > 0 && path[0] == SLASH {
        let ghost whole = path@;
        let mut path = path;
        let rest = path.split_off(1);
        assert(rest@ =~= whole.skip(1));
        rest
    } else {
        path
    }
}

impl SourcePathTransform {
    /// Creates a transform that keeps every path as it is.
    pub fn new() -> (transform: Self)
        ensures
            transform@ == (TransformView { prefix: None, remove_leading_slash: false }),
    {
        SourcePathTransform { prefix_to_remove: None, remove_leading_slash: false }
    }

    /// Selects a prefix to remove. A separator at its end does not matter.
    pub fn with_prefix_to_remove(self, prefix: Vec<u8>) -> (transform: Self)
        ensures
            transform@ == (TransformView { prefix: Some(prefix@), ..self@ }),
    {
        SourcePathTransform {
            prefix_to_remove: Some(prefix),
            remove_leading_slash: self.remove_leading_slash,
        }
    }

    /// Selects whether one leading separator is removed at last.
    pub fn with_remove_leading_slash(self, remove: bool) -> (transform: Self)
        ensures
            transform@ == (TransformView { remove_leading_slash: remove, ..self@ }),
    {
        SourcePathTransform {
            prefix_to_remove: self.prefix_to_remove,
            remove_leading_slash: remove,
        }
    }

    /// Returns the prefix to remove.
    pub fn prefix_to_remove(&self) -> (prefix: Option<&[u8]>)
        ensures
            match prefix {
                Some(prefix) => self@.prefix == Some(prefix@),
                None => self@.prefix is None,
            },
    {
        match &self.prefix_to_remove {
            Some(prefix) => Some(prefix.as_slice()),
            None => None,
        }
    }

    /// Returns whether one leading separator is removed.
    pub fn removes_leading_slash(&self) -> (removes: bool)
        ensures
            removes == self@.remove_leading_slash,
    {
        self.remove_leading_slash
    }

    /// Transforms a path.
    pub fn transform(&self, source_path: &[u8]) -> (result: Result<
        Vec<u8>,
        SourcePathTransformError,
    >)
        ensures
            match result {
                Ok(path) => transformed(self@, source_path@) == Some(path@),
                Err(SourcePathTransformError::PrefixMismatch { source_path: path, prefix }) => {
                    &&& transformed(self@, source_path@) is None
                    &&& path@ == source_path@
                    &&& self@.prefix == Some(prefix@)
                },
            },
    {
        let path = match &self.prefix_to_remove {
            None => slice_to_vec(source_path),
            Some(prefix) => match remove_prefix(source_path, prefix.as_slice()) {
                Some(path) => path,
                None => {
                    return Err(
                        SourcePathTransformError::PrefixMismatch {
                            source_path: slice_to_vec(source_path),
                            prefix: slice_to_vec(prefix.as_slice()),
                        },
                    );
                },
            },
        };
        if self.remove_leading_slash {
            Ok(remove_one_leading_slash(path))
        } else {
            Ok(path)
        }
    }

    /// Transforms a path, and makes it the text of a source context.
    pub fn source_context(&self, source_path: &[u8], archive_creator_id: String) -> (result: Result<
        ArchiveSourceContext,
        SourcePathContextError,
    >)
        ensures
            match result {
                Ok(context) => {
                    &&& transformed(self@, source_path@) matches Some(path) && vstd::utf8::encode_utf8(
                        context.filename(),
                    ) == path
                    &&& context.creator() == archive_creator_id@
                },
                Err(SourcePathContextError::NonUtf8 { path }) => transformed(self@, source_path@)
                    == Some(path@) && !valid_utf8(path@),
                Err(SourcePathContextError::Transform(
                    SourcePathTransformError::PrefixMismatch { source_path: path, prefix },
                )) => {
                    &&& transformed(self@, source_path@) is None
                    &&& path@ == source_path@
                    &&& self@.prefix == Some(prefix@)
                },
            },
    {
        let path = match self.transform(source_path) {
            Ok(path) => path,
            Err(error) => {
                return Err(SourcePathContextError::Transform(error));
            },
        };
        let filename = match utf8_text(path.as_slice()) {
            Ok(text) => Some(text.to_owned()),
            Err(_) => None,
        };
        match filename {
            Some(filename) => Ok(ArchiveSourceContext::new(filename, archive_creator_id)),
            None => Err(SourcePathContextError::NonUtf8 { path }),
        }
    }
}

impl Default for SourcePathTransform {
    fn default() -> (transform: Self)
        ensures
            transform@ == (TransformView { prefix: None, remove_leading_slash: false }),
    {
        SourcePathTransform::new()
    }
}

/// What is left beneath a prefix starts with a separator.
pub proof fn remainders_are_rooted(path: Seq<u8>, prefix: Seq<u8>)
    ensures
        beneath(path, prefix) matches Some(rest) ==> rest.len() > 0 && rest[0] == SLASH,
{
    let all = components_of(path, true);
    let first = components_of(prefix, false);
    if first.len() <= all.len() {
        lemma_joined_is_rooted(all.skip(first.len() as int));
    }
}

proof fn lemma_joined_is_rooted(components: Seq<ComponentView>)
    ensures
        joined(components).len() > 0,
        joined(components)[0] == SLASH,
    decreases components.len(),
{
    if components.len() > 0 {
        lemma_joined_is_rooted(components.drop_last());
    }
}

proof fn lemma_longer_path(path: Seq<u8>, longer: Seq<u8>, at: int)
    requires
        longer == path.push(SLASH),
        0 <= at <= path.len(),
    ensures
        name_end(longer, at) == name_end(path, at),
        after_separators(longer, at) == (if after_separators(path, at) < path.len() {
            after_separators(path, at)
        } else {
            longer.len() as int
        }),
    decreases path.len() - at,
{
    lemma_after_separators(path, at);
    if at < path.len() {
        assert(longer[at] == path[at]);
        lemma_longer_path(path, longer, at + 1);
    } else {
        assert(longer[at] == SLASH);
        assert(after_separators(longer, at + 1) == at + 1);
    }
}

proof fn lemma_same_names(path: Seq<u8>, longer: Seq<u8>, at: int)
    requires
        longer == path.push(SLASH),
        0 <= at <= path.len(),
        at < path.len() ==> path[at] != SLASH,
    ensures
        names_from(longer, if at < path.len() {
            at
        } else {
            longer.len() as int
        }) == names_from(path, at),
    decreases path.len() - at,
{
    if at < path.len() {
        let end = name_end(path, at);
        lemma_name_end(path, at);
        lemma_longer_path(path, longer, at);
        lemma_longer_path(path, longer, end);
        lemma_after_separators(path, end);
        let next = after_separators(path, end);
        lemma_same_names(path, longer, next);
        assert(longer.subrange(at, end) =~= path.subrange(at, end));
    }
}

/// A separator at the end of a prefix does not change what it matches.
pub proof fn trailing_prefix_separators_do_not_matter(path: Seq<u8>, prefix: Seq<u8>)
    requires
        prefix.len() > 0,
    ensures
        beneath(path, prefix.push(SLASH)) == beneath(path, prefix),
{
    let longer = prefix.push(SLASH);
    lemma_after_separators(prefix, 0);
    lemma_longer_path(prefix, longer, 0);
    lemma_same_names(prefix, longer, after_separators(prefix, 0));
    assert(longer[0] == prefix[0]);
    assert(components_of(longer, false) == components_of(prefix, false));
}

} // verus!
